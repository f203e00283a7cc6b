use crate::text::{
    capture_solving_time, chars_of, is_whitespace, parse_u64, parsed_u64, solving_time_group, utf8_str,
    white_space,
};
use itertools::Itertools;
use std::collections::HashSet;
use std::path::PathBuf;
use vstd::prelude::*;
use vstd::string::StringSliceAdditionalSpecFns;

verus! {

#[verifier::external_type_specification]
#[verifier::external_body]
pub struct ExPathBuf(PathBuf);

/// The result of executing SymCC.
pub struct SymCCResult {
    /// The generated test cases.
    pub test_cases: Vec<PathBuf>,
    /// The generated dictionaries.
    pub symdict: Vec<PathBuf>,
    /// Whether the process was killed (e.g., out of memory, timeout).
    pub killed: bool,
    /// The total time taken by the execution, in nanoseconds.
    pub time: u128,
    /// The time spent in the solver (Qsym backend only), in nanoseconds.
    pub solver_time: Option<u128>,
}

/// The number of whitespace characters at the start of `cs`.
pub open spec fn leading_white_space(cs: Seq<char>) -> nat
    decreases cs.len(),
{
    if cs.len() > 0 && white_space(cs[0]) {
        1 + leading_white_space(cs.drop_first())
    } else {
        0
    }
}

/// The marker of the Qsym backend's SMT statistics lines.
pub open spec fn smt_marker() -> Seq<char> {
    seq!['[', 'S', 'T', 'A', 'T', ']', ' ', 'S', 'M', 'T', ':']
}

/// Whether a line, leading whitespace aside, starts with the SMT statistics marker.
pub open spec fn is_smt_stat_line(cs: Seq<char>) -> bool {
    let t = cs.skip(leading_white_space(cs) as int);
    t.len() >= 11 && t.take(11) == smt_marker()
}

/// The solving time (in microseconds) that one log line reports: the line
/// must be UTF-8, be an SMT statistics line, and hold a `"solving_time"`
/// entry whose digits parse as a `u64`.
pub open spec fn line_solver_time(line: Seq<u8>) -> Option<u64> {
    if vstd::utf8::valid_utf8(line) {
        let cs = vstd::utf8::decode_utf8(line);
        if is_smt_stat_line(cs) {
            match solving_time_group(cs) {
                Some(d) => parsed_u64(vstd::utf8::encode_utf8(d)),
                None => None,
            }
        } else {
            None
        }
    } else {
        None
    }
}

/// The position of the last newline byte, or -1 when there is none.
pub open spec fn last_newline(s: Seq<u8>) -> int
    decreases s.len(),
{
    if s.len() == 0 {
        -1
    } else if s.last() == 0x0a {
        s.len() - 1
    } else {
        last_newline(s.drop_last())
    }
}

/// The last newline lies within the bytes and no newline follows it.
pub proof fn lemma_last_newline_bounds(s: Seq<u8>)
    ensures
        -1 <= last_newline(s) < s.len(),
        last_newline(s) >= 0 ==> s[last_newline(s)] == 0x0a,
        forall|i: int| last_newline(s) < i < s.len() ==> s[i] != 0x0a,
    decreases s.len(),
{
    if s.len() > 0 && s.last() != 0x0a {
        lemma_last_newline_bounds(s.drop_last());
        assert forall|i: int| last_newline(s) < i < s.len() implies s[i] != 0x0a by {
            if i < s.len() - 1 {
                assert(s[i] == s.drop_last()[i]);
            }
        }
    }
}

/// The solver time (in microseconds) that a log reports: that of the last
/// line (lines being split at newline bytes) that reports one.
pub open spec fn solver_time_in(s: Seq<u8>) -> Option<u64>
    decreases s.len(),
{
    let p = last_newline(s);
    proof {
        lemma_last_newline_bounds(s);
    }
    match line_solver_time(s.subrange(p + 1, s.len() as int)) {
        Some(t) => Some(t),
        None => if p < 0 {
            None
        } else {
            solver_time_in(s.subrange(0, p))
        },
    }
}

fn solver_time_of_line(line: &[u8]) -> (r: Option<u64>)
    ensures
        r == line_solver_time(line@),
{
    let s = match utf8_str(line) {
        Some(s) => s,
        None => return None,
    };
    proof {
        vstd::utf8::encode_utf8_decode_utf8(s@);
    }
    assert(vstd::utf8::decode_utf8(line@) == s@);
    let cs = chars_of(s);
    let n = cs.len();
    let mut k: usize = 0;
    assert(cs@.skip(0) =~= cs@);
    while k < n && is_whitespace(cs[k])
        invariant
            n == cs@.len(),
            k <= n,
            leading_white_space(cs@) == k + leading_white_space(cs@.skip(k as int)),
        decreases n - k,
    {
        assert(cs@.skip(k as int).drop_first() =~= cs@.skip(k + 1 as int));
        k = k + 1;
    }
    assert(leading_white_space(cs@.skip(k as int)) == 0);
    if n - k < 11 {
        return None;
    }
    let marker: [char; 11] = ['[', 'S', 'T', 'A', 'T', ']', ' ', 'S', 'M', 'T', ':'];
    assert(marker@ =~= smt_marker());
    let mut j: usize = 0;
    while j < 11
        invariant
            j <= 11,
            k + 11 <= n,
            n == cs@.len(),
            marker@ == smt_marker(),
            leading_white_space(cs@) == k,
            vstd::utf8::valid_utf8(line@),
            vstd::utf8::decode_utf8(line@) == cs@,
            forall|m: int| 0 <= m < j ==> cs@[k + m] == marker@[m],
        decreases 11 - j,
    {
        if cs[k + j] != marker[j] {
            assert(cs@.skip(k as int).take(11)[j as int] != smt_marker()[j as int]);
            return None;
        }
        j = j + 1;
    }
    assert(cs@.skip(k as int).take(11) =~= smt_marker());
    let digits = match capture_solving_time(s) {
        Some(d) => d,
        None => return None,
    };
    parse_u64(digits.as_str())
}

fn last_newline_before(s: &[u8], end: usize) -> (r: Option<usize>)
    requires
        end <= s@.len(),
    ensures
        match r {
            Some(p) => p as int == last_newline(s@.subrange(0, end as int)),
            None => last_newline(s@.subrange(0, end as int)) == -1,
        },
{
    let mut p: usize = end;
    while p > 0
        invariant
            p <= end <= s@.len(),
            last_newline(s@.subrange(0, end as int)) == last_newline(s@.subrange(0, p as int)),
        decreases p,
    {
        assert(s@.subrange(0, p as int).drop_last() =~= s@.subrange(0, p - 1));
        if s[p - 1] == 0x0a {
            return Some(p - 1);
        }
        p = p - 1;
    }
    None
}

/// Try to extract the solver time (in microseconds) from the logs produced
/// by the Qsym backend: the last SMT statistics line with a solving time.
pub fn parse_solver_time(output: Vec<u8>) -> (r: Option<u64>)
    ensures
        r == solver_time_in(output@),
{
    let mut end: usize = output.len();
    assert(output@.subrange(0, end as int) =~= output@);
    loop
        invariant
            end <= output@.len(),
            solver_time_in(output@) == solver_time_in(output@.subrange(0, end as int)),
        decreases end,
    {
        let ghost t = output@.subrange(0, end as int);
        proof {
            lemma_last_newline_bounds(t);
        }
        let found = last_newline_before(output.as_slice(), end);
        let start = match found {
            Some(p) => p + 1,
            None => 0,
        };
        let seg = &output.as_slice()[start..end];
        assert(seg@ =~= t.subrange(last_newline(t) + 1, t.len() as int));
        let line = solver_time_of_line(seg);
        if line.is_some() {
            return line;
        }
        match found {
            Some(p) => {
                assert(t.subrange(0, p as int) =~= output@.subrange(0, p as int));
                end = p;
            },
            None => return None,
        }
    }
}

/// Whether SymCC's run ended by being killed: exit code 124 or -9 (as the
/// `timeout` utility reports), or termination by a signal.
pub open spec fn killed_by(code: Option<i32>, signal: Option<i32>) -> bool {
    match code {
        Some(c) => c == 124 || c == -9,
        None => signal is Some,
    }
}

/// Whether SymCC's run ended by being killed, from its exit code (if any)
/// and the signal that ended it (if any).
pub fn was_killed(code: Option<i32>, signal: Option<i32>) -> (r: bool)
    ensures
        r == killed_by(code, signal),
{
    match code {
        Some(c) => c == 124 || c == -9,
        None => signal.is_some(),
    }
}

impl SymCCResult {
    /// The result of a run that took `time` nanoseconds, ended with the given
    /// exit code or signal, and whose backend reported `solver_micros`
    /// microseconds of solving; the solver time is capped at the run's time.
    pub fn new(
        test_cases: Vec<PathBuf>,
        symdict: Vec<PathBuf>,
        code: Option<i32>,
        signal: Option<i32>,
        time: u128,
        solver_micros: Option<u64>,
    ) -> (r: SymCCResult)
        ensures
            r.test_cases == test_cases,
            r.symdict == symdict,
            r.killed == killed_by(code, signal),
            r.time == time,
            r.solver_time == match solver_micros {
                Some(us) => Some(if us * 1000 <= time { (us * 1000) as u128 } else { time }),
                None => None,
            },
    {
        let solver_time = match solver_micros {
            Some(us) => {
                let ns = (us as u128) * 1000;
                Some(if ns <= time { ns } else { time })
            },
            None => None,
        };
        SymCCResult { test_cases, symdict, killed: was_killed(code, signal), time, solver_time }
    }
}

/// The decimal digits of `n` as characters.
pub open spec fn decimal_chars(n: nat) -> Seq<char> {
    crate::testcase::decimal(n).map_values(|b: u8| b as char)
}

/// The decimal numerals of `ids`, separated by commas.
pub open spec fn comma_joined(ids: Seq<u32>) -> Seq<char>
    decreases ids.len(),
{
    if ids.len() == 0 {
        Seq::empty()
    } else if ids.len() == 1 {
        decimal_chars(ids[0] as nat)
    } else {
        comma_joined(ids.drop_last()) + seq![','] + decimal_chars(ids.last() as nat)
    }
}

/// Whether the ids are strictly increasing.
pub open spec fn strictly_ascending(ids: Seq<u32>) -> bool {
    forall|i: int, j: int| 0 <= i < j < ids.len() ==> #[trigger] ids[i] < #[trigger] ids[j]
}

/// The members of a finite set of ids in increasing order.
pub open spec fn ascending(s: Set<u32>) -> Seq<u32> {
    choose|q: Seq<u32>| strictly_ascending(q) && q.to_set() == s
}

/// Two increasing sequences with the same members are equal.
pub proof fn lemma_ascending_unique(a: Seq<u32>, b: Seq<u32>)
    requires
        strictly_ascending(a),
        strictly_ascending(b),
        a.to_set() == b.to_set(),
    ensures
        a == b,
    decreases a.len() + b.len(),
{
    if a.len() == 0 {
        if b.len() > 0 {
            assert(b.to_set().contains(b[0]));
        }
        assert(a =~= b);
    } else if b.len() == 0 {
        assert(a.to_set().contains(a[0]));
    } else {
        assert(a.to_set().contains(a[0]) && b.to_set().contains(b[0]));
        let k = choose|k: int| 0 <= k < b.len() && b[k] == a[0];
        let m = choose|m: int| 0 <= m < a.len() && a[m] == b[0];
        if k > 0 {
            assert(b[0] < b[k]);
            if m > 0 {
                assert(a[0] < a[m]);
            }
        }
        assert(a[0] == b[0]);
        let at = a.drop_first();
        let bt = b.drop_first();
        assert forall|x: u32| at.to_set().contains(x) <==> bt.to_set().contains(x) by {
            if at.to_set().contains(x) {
                let i = choose|i: int| 0 <= i < at.len() && at[i] == x;
                assert(a[0] < a[i + 1]);
                assert(a.to_set().contains(x));
                let j = choose|j: int| 0 <= j < b.len() && b[j] == x;
                if j == 0 {
                    assert(false);
                }
                assert(bt[j - 1] == x);
            }
            if bt.to_set().contains(x) {
                let i = choose|i: int| 0 <= i < bt.len() && bt[i] == x;
                assert(b[0] < b[i + 1]);
                assert(b.to_set().contains(x));
                let j = choose|j: int| 0 <= j < a.len() && a[j] == x;
                if j == 0 {
                    assert(false);
                }
                assert(at[j - 1] == x);
            }
        }
        assert(at.to_set() =~= bt.to_set());
        assert forall|i: int, j: int| 0 <= i < j < at.len() implies #[trigger] at[i] < #[trigger] at[j] by {
            assert(a[i + 1] < a[j + 1]);
        }
        assert forall|i: int, j: int| 0 <= i < j < bt.len() implies #[trigger] bt[i] < #[trigger] bt[j] by {
            assert(b[i + 1] < b[j + 1]);
        }
        lemma_ascending_unique(at, bt);
        assert(a =~= b) by {
            assert forall|i: int| 0 <= i < a.len() implies a[i] == b[i] by {
                if i > 0 {
                    assert(a[i] == at[i - 1]);
                    assert(b[i] == bt[i - 1]);
                }
            }
        }
    }
}

/// `Itertools::sorted` over the set's members: every member once, in
/// ascending order.
#[verifier::external_body]
fn sorted_block_ids(ids: &HashSet<u32>) -> (v: Vec<u32>)
    ensures
        v@.to_set() == ids@,
        v@.len() == ids@.len(),
        forall|i: int, j: int| 0 <= i < j < v@.len() ==> #[trigger] v@[i] <= #[trigger] v@[j],
{
    ids.iter().copied().sorted().collect()
}

/// `Itertools::join` with separator `,` over the ids, each written with its
/// `Display` form, i.e. its decimal numeral.
#[verifier::external_body]
fn join_block_ids(ids: &Vec<u32>) -> (s: String)
    ensures
        s@ == comma_joined(ids@),
{
    ids.iter().join(",")
}

/// The frontier blocks as SymCC takes its direct targets: the ids in
/// increasing order, written in decimal and separated by commas.
pub fn direct_targets(frontiers: &HashSet<u32>) -> (r: String)
    ensures
        r@ == comma_joined(ascending(frontiers@)),
{
    let v = sorted_block_ids(frontiers);
    proof {
        v@.lemma_no_dup_set_cardinality();
        assert forall|i: int, j: int| 0 <= i < j < v@.len() implies #[trigger] v@[i] < #[trigger] v@[j] by {
            assert(v@[i] <= v@[j]);
            assert(v@[i] != v@[j]);
        }
        assert(strictly_ascending(v@) && v@.to_set() == frontiers@);
        lemma_ascending_unique(v@, ascending(frontiers@));
    }
    join_block_ids(&v)
}

} // verus!
