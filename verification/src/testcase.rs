use crate::afl::{merge_outcome, AflMap, AflShowmapResult, MergeError};
use std::path::PathBuf;
use vstd::prelude::*;
use vstd::string::StringSliceAdditionalSpecFns;

verus! {

/// The decimal digits of `n`, most significant first, without leading zeros.
pub open spec fn decimal(n: nat) -> Seq<u8>
    decreases n,
{
    if n < 10 {
        seq![(0x30 + n) as u8]
    } else {
        decimal(n / 10) + seq![(0x30 + n % 10) as u8]
    }
}

/// The decimal digits of `n`, padded on the left with zeros to at least `width` digits.
pub open spec fn decimal_padded(n: nat, width: nat) -> Seq<u8> {
    let d = decimal(n);
    if d.len() < width {
        Seq::new((width - d.len()) as nat, |i: int| 0x30u8) + d
    } else {
        d
    }
}

/// The decimal digits of `n`.
pub fn decimal_digits(n: u64) -> (r: Vec<u8>)
    ensures
        r@ == decimal(n as nat),
    decreases n,
{
    if n < 10 {
        let mut v: Vec<u8> = Vec::new();
        v.push(0x30u8 + n as u8);
        v
    } else {
        let mut v = decimal_digits(n / 10);
        v.push(0x30u8 + (n % 10) as u8);
        v
    }
}

/// The decimal digits of `n`, padded on the left with zeros to at least `width` digits.
pub fn decimal_digits_padded(n: u64, width: usize) -> (r: Vec<u8>)
    ensures
        r@ == decimal_padded(n as nat, width as nat),
{
    let d = decimal_digits(n);
    if d.len() < width {
        let mut v: Vec<u8> = Vec::new();
        let k = width - d.len();
        let mut i: usize = 0;
        while i < k
            invariant
                i <= k,
                v@ == Seq::new(i as nat, |j: int| 0x30u8),
            decreases k - i,
        {
            v.push(0x30u8);
            i = i + 1;
            assert(v@ =~= Seq::new(i as nat, |j: int| 0x30u8));
        }
        let mut d = d;
        v.append(&mut d);
        v
    } else {
        d
    }
}

/// Whether `s` ends with `t`.
pub open spec fn ends_with(s: Seq<u8>, t: Seq<u8>) -> bool {
    t.len() <= s.len() && s.subrange(s.len() - t.len(), s.len() as int) == t
}

/// Whether `t` occurs in `s`.
pub open spec fn contains_bytes(s: Seq<u8>, t: Seq<u8>) -> bool {
    exists|i: int| 0 <= i <= s.len() - t.len() && #[trigger] s.subrange(i, i + t.len()) == t
}

/// Whether `s` holds `t` at position `i`.
fn bytes_at(s: &[u8], i: usize, t: &[u8]) -> (r: bool)
    requires
        i + t@.len() <= s@.len(),
    ensures
        r == (s@.subrange(i as int, i + t@.len()) == t@),
{
    let n = t.len();
    let mut k: usize = 0;
    while k < n
        invariant
            n == t@.len(),
            i + n <= s@.len(),
            i + n <= s.len(),
            k <= n,
            forall|j: int| 0 <= j < k ==> s@[i + j] == t@[j],
        decreases n - k,
    {
        if s[i + k] != t[k] {
            assert(s@.subrange(i as int, i + t@.len())[k as int] != t@[k as int]);
            return false;
        }
        k = k + 1;
    }
    assert(s@.subrange(i as int, i + t@.len()) =~= t@);
    true
}

/// Whether `s` ends with `t`.
pub fn bytes_end_with(s: &[u8], t: &[u8]) -> (r: bool)
    ensures
        r == ends_with(s@, t@),
{
    if t.len() > s.len() {
        return false;
    }
    bytes_at(s, s.len() - t.len(), t)
}

/// Whether `t` occurs in `s`.
pub fn bytes_contain(s: &[u8], t: &[u8]) -> (r: bool)
    ensures
        r == contains_bytes(s@, t@),
{
    if t.len() > s.len() {
        return false;
    }
    let last = s.len() - t.len();
    let mut i: usize = 0;
    loop
        invariant
            last == s@.len() - t@.len(),
            i <= last,
            forall|j: int| 0 <= j < i ==> #[trigger] s@.subrange(j, j + t@.len()) != t@,
        decreases last - i,
    {
        if bytes_at(s, i, t) {
            return true;
        }
        if i == last {
            return false;
        }
        i = i + 1;
    }
}

/// Lexicographic order on byte strings, as `OsStr` orders file names on Unix.
pub open spec fn bytes_lt(a: Seq<u8>, b: Seq<u8>) -> bool
    decreases a.len(),
{
    if a.len() == 0 {
        b.len() > 0
    } else if b.len() == 0 {
        false
    } else if a[0] != b[0] {
        a[0] < b[0]
    } else {
        bytes_lt(a.drop_first(), b.drop_first())
    }
}

proof fn lemma_bytes_lt_order(a: Seq<u8>, b: Seq<u8>, c: Seq<u8>)
    ensures
        !bytes_lt(a, a),
        bytes_lt(a, b) || bytes_lt(b, a) || a == b,
        bytes_lt(a, b) && bytes_lt(b, c) ==> bytes_lt(a, c),
    decreases a.len(),
{
    if a.len() > 0 && b.len() > 0 && c.len() > 0 {
        lemma_bytes_lt_order(a.drop_first(), b.drop_first(), c.drop_first());
        if a[0] == b[0] && a.drop_first() == b.drop_first() {
            assert(a =~= seq![a[0]] + a.drop_first());
            assert(b =~= seq![b[0]] + b.drop_first());
        }
    } else if a.len() > 0 && b.len() > 0 {
        lemma_bytes_lt_order(a.drop_first(), b.drop_first(), a.drop_first());
        if a[0] == b[0] && a.drop_first() == b.drop_first() {
            assert(a =~= seq![a[0]] + a.drop_first());
            assert(b =~= seq![b[0]] + b.drop_first());
        }
    } else if a.len() > 0 {
        lemma_bytes_lt_order(a.drop_first(), a.drop_first(), a.drop_first());
    } else if b.len() == 0 {
        assert(a =~= b);
    }
}

/// The model of a test-case score.
pub type ScoreView = (bool, bool, i128, Seq<u8>);

/// The order of test-case scores: new coverage first, then being derived
/// from a seed, then file size (the field holds the negated size), then name.
pub open spec fn score_lt(a: ScoreView, b: ScoreView) -> bool {
    if a.0 != b.0 {
        !a.0
    } else if a.1 != b.1 {
        !a.1
    } else if a.2 != b.2 {
        a.2 < b.2
    } else {
        bytes_lt(a.3, b.3)
    }
}

/// Score orders are strict total orders.
pub proof fn lemma_score_order(a: ScoreView, b: ScoreView, c: ScoreView)
    ensures
        !score_lt(a, a),
        score_lt(a, b) || score_lt(b, a) || a == b,
        score_lt(a, b) && score_lt(b, c) ==> score_lt(a, c),
{
    lemma_bytes_lt_order(a.3, b.3, c.3);
}

/// Score of a test case.
#[derive(PartialEq, Eq, PartialOrd, Ord, Debug)]
pub struct TestcaseScore {
    /// First criterion: new coverage
    pub new_coverage: bool,
    /// Second criterion: being derived from seed inputs
    pub derived_from_seed: bool,
    /// Third criterion: size (smaller is better)
    pub file_size: i128,
    /// Fourth criterion: name (containing the ID)
    pub base_name: Vec<u8>,
}

impl View for TestcaseScore {
    type V = ScoreView;

    open spec fn view(&self) -> ScoreView {
        (self.new_coverage, self.derived_from_seed, self.file_size, self.base_name@)
    }
}

/// The score of a test case of `size` bytes named `name`: whether the name
/// ends in `+cov`, whether it contains `orig:`, the negated size, the name.
/// A test case whose size or name is unknown scores the minimum.
pub open spec fn score_of(size: Option<u64>, name: Option<Seq<u8>>) -> ScoreView {
    match (size, name) {
        (Some(sz), Some(n)) => (
            ends_with(n, seq![0x2bu8, 0x63u8, 0x6fu8, 0x76u8]),
            contains_bytes(n, seq![0x6fu8, 0x72u8, 0x69u8, 0x67u8, 0x3au8]),
            (-sz) as i128,
            n,
        ),
        _ => (false, false, i128::MIN, Seq::empty()),
    }
}

impl TestcaseScore {
    /// Score a test case from its size in bytes and its file name; if either
    /// is unknown, return the minimum score.
    pub fn new(size: Option<u64>, name: Option<Vec<u8>>) -> (r: TestcaseScore)
        ensures
            r@ == score_of(size, match name {
                Some(n) => Some(n@),
                None => None,
            }),
    {
        let size = match size {
            Some(sz) => sz,
            None => return TestcaseScore::minimum(),
        };
        let name = match name {
            Some(n) => n,
            None => return TestcaseScore::minimum(),
        };
        let cov: [u8; 4] = [0x2b, 0x63, 0x6f, 0x76];
        let orig: [u8; 5] = [0x6f, 0x72, 0x69, 0x67, 0x3a];
        assert(cov@ =~= seq![0x2bu8, 0x63u8, 0x6fu8, 0x76u8]);
        assert(orig@ =~= seq![0x6fu8, 0x72u8, 0x69u8, 0x67u8, 0x3au8]);
        let new_coverage = bytes_end_with(name.as_slice(), cov.as_slice());
        let derived_from_seed = bytes_contain(name.as_slice(), orig.as_slice());
        TestcaseScore { new_coverage, derived_from_seed, file_size: -(size as i128), base_name: name }
    }

    /// Return the smallest possible score.
    pub fn minimum() -> (r: TestcaseScore)
        ensures
            r@ == (false, false, i128::MIN, Seq::<u8>::empty()),
            forall|s: ScoreView| !score_lt(s, r@),
    {
        let r = TestcaseScore {
            new_coverage: false,
            derived_from_seed: false,
            file_size: i128::MIN,
            base_name: Vec::new(),
        };
        assert forall|s: ScoreView| !score_lt(s, r@) by {
            assert(!bytes_lt(s.3, Seq::<u8>::empty()));
        }
        r
    }

    /// Whether this score ranks below `other`.
    pub fn is_below(&self, other: &TestcaseScore) -> (r: bool)
        ensures
            r == score_lt(self@, other@),
    {
        if self.new_coverage != other.new_coverage {
            return !self.new_coverage;
        }
        if self.derived_from_seed != other.derived_from_seed {
            return !self.derived_from_seed;
        }
        if self.file_size != other.file_size {
            return self.file_size < other.file_size;
        }
        let a = &self.base_name;
        let b = &other.base_name;
        let mut i: usize = 0;
        assert(a@.skip(0) =~= a@ && b@.skip(0) =~= b@);
        while i < a.len() && i < b.len() && a[i] == b[i]
            invariant
                i <= a@.len(),
                i <= b@.len(),
                bytes_lt(a@, b@) == bytes_lt(a@.skip(i as int), b@.skip(i as int)),
            decreases a@.len() - i,
        {
            assert(a@.skip(i as int).drop_first() =~= a@.skip(i + 1 as int));
            assert(b@.skip(i as int).drop_first() =~= b@.skip(i + 1 as int));
            i = i + 1;
        }
        if i == a.len() {
            i < b.len()
        } else if i == b.len() {
            false
        } else {
            a[i] < b[i]
        }
    }
}

/// The position of the best score: a score no other ranks above, and the
/// last such one; none when there is no score.
pub fn best_testcase(scores: &Vec<TestcaseScore>) -> (r: Option<usize>)
    ensures
        r is None <==> scores@.len() == 0,
        r matches Some(i) ==> {
            &&& i < scores@.len()
            &&& forall|j: int| 0 <= j < scores@.len() ==> !score_lt(scores@[i as int]@, #[trigger] scores@[j]@)
            &&& forall|j: int| i < j < scores@.len() ==> score_lt(#[trigger] scores@[j]@, scores@[i as int]@)
        },
{
    let n = scores.len();
    if n == 0 {
        return None;
    }
    let mut best: usize = 0;
    let mut j: usize = 1;
    proof {
        lemma_score_order(scores@[0]@, scores@[0]@, scores@[0]@);
    }
    while j < n
        invariant
            n == scores@.len(),
            1 <= j <= n,
            best < j,
            forall|k: int| 0 <= k < j ==> !score_lt(scores@[best as int]@, #[trigger] scores@[k]@),
            forall|k: int| best < k < j ==> score_lt(#[trigger] scores@[k]@, scores@[best as int]@),
        decreases n - j,
    {
        let below = scores[j].is_below(&scores[best]);
        if !below {
            proof {
                assert forall|k: int| 0 <= k < j + 1 implies !score_lt(scores@[j as int]@, #[trigger] scores@[k]@) by {
                    lemma_score_order(scores@[j as int]@, scores@[best as int]@, scores@[k]@);
                    lemma_score_order(scores@[best as int]@, scores@[j as int]@, scores@[k]@);
                    lemma_score_order(scores@[j as int]@, scores@[k]@, scores@[best as int]@);
                }
            }
            best = j;
        } else {
            proof {
                lemma_score_order(scores@[best as int]@, scores@[j as int]@, scores@[best as int]@);
            }
        }
        j = j + 1;
    }
    Some(best)
}

/// Why no name could be derived for a test case.
#[derive(Debug, PartialEq, Eq)]
pub enum NameError {
    /// The parent's name does not start with `id:`.
    NoIdPrefix,
    /// The parent's name does not hold six bytes of ID after `id:`.
    NoProperId,
}

/// The name of a new test case numbered `id` derived from the parent named
/// `parent` (as UTF-8 bytes): `id:`, `id` as six zero-padded digits, `,src:`,
/// then the parent's six bytes after `id:`.
pub open spec fn testcase_name(id: u64, parent: Seq<u8>) -> Result<Seq<u8>, NameError> {
    if !(parent.len() >= 3 && parent.take(3) == seq![0x69u8, 0x64u8, 0x3au8]) {
        Err(NameError::NoIdPrefix)
    } else if !(parent.len() >= 9 && vstd::utf8::is_char_boundary(parent, 3)
        && vstd::utf8::is_char_boundary(parent, 9)) {
        Err(NameError::NoProperId)
    } else {
        Ok(seq![0x69u8, 0x64u8, 0x3au8] + decimal_padded(id as nat, 6) + seq![
            0x2cu8,
            0x73u8,
            0x72u8,
            0x63u8,
            0x3au8,
        ] + parent.subrange(3, 9))
    }
}

/// A directory that we can write test cases to.
pub struct TestcaseDir {
    /// The path to the (existing) directory.
    pub path: PathBuf,
    /// The next free ID in this directory.
    current_id: u64,
}

impl TestcaseDir {
    /// The next free ID in this directory.
    pub closed spec fn next_id(&self) -> u64 {
        self.current_id
    }

    /// The directory's path.
    pub closed spec fn location(&self) -> PathBuf {
        self.path
    }

    /// A test-case directory at `path`, whose IDs start at zero.
    pub fn new(path: PathBuf) -> (r: TestcaseDir)
        ensures
            r.location() == path,
            r.next_id() == 0,
    {
        TestcaseDir { path, current_id: 0 }
    }

    /// The name under which the next test case derived from the test case
    /// named `parent` is stored here.
    pub fn testcase_name(&self, parent: &str) -> (r: Result<Vec<u8>, NameError>)
        ensures
            match r {
                Ok(v) => testcase_name(self.next_id(), parent.spec_bytes()) == Ok::<Seq<u8>, NameError>(v@),
                Err(e) => testcase_name(self.next_id(), parent.spec_bytes()) == Err::<Seq<u8>, NameError>(e),
            },
    {
        let b = parent.as_bytes();
        if !(b.len() >= 3 && b[0] == 0x69 && b[1] == 0x64 && b[2] == 0x3a) {
            proof {
                if b@.len() >= 3 && b@.take(3) == seq![0x69u8, 0x64u8, 0x3au8] {
                    assert(b@.take(3)[0] == b@[0] && b@.take(3)[1] == b@[1] && b@.take(3)[2] == b@[2]);
                }
            }
            return Err(NameError::NoIdPrefix);
        }
        assert(b@.take(3) =~= seq![0x69u8, 0x64u8, 0x3au8]);
        if !(b.len() >= 9 && parent.is_char_boundary(3) && parent.is_char_boundary(9)) {
            return Err(NameError::NoProperId);
        }
        let mut name: Vec<u8> = Vec::new();
        name.push(0x69);
        name.push(0x64);
        name.push(0x3a);
        let mut digits = decimal_digits_padded(self.current_id, 6);
        name.append(&mut digits);
        name.push(0x2c);
        name.push(0x73);
        name.push(0x72);
        name.push(0x63);
        name.push(0x3a);
        let mut k: usize = 3;
        let ghost prefix = name@;
        while k < 9
            invariant
                3 <= k <= 9,
                b@.len() >= 9,
                name@ == prefix + b@.subrange(3, k as int),
            decreases 9 - k,
        {
            name.push(b[k]);
            k = k + 1;
            assert(name@ =~= prefix + b@.subrange(3, k as int));
        }
        assert(name@ =~= seq![0x69u8, 0x64u8, 0x3au8] + decimal_padded(self.current_id as nat, 6) + seq![
            0x2cu8,
            0x73u8,
            0x72u8,
            0x63u8,
            0x3au8,
        ] + b@.subrange(3, 9));
        Ok(name)
    }

    /// Whether another ID can be taken.
    pub fn can_advance(&self) -> (r: bool)
        ensures
            r == (self.next_id() < u64::MAX),
    {
        self.current_id < u64::MAX
    }

    /// Takes the next ID after a test case was stored.
    pub fn advance(&mut self)
        requires
            old(self).next_id() < u64::MAX,
        ensures
            final(self).location() == old(self).location(),
            final(self).next_id() == old(self).next_id() + 1,
    {
        self.current_id = self.current_id + 1;
    }
}

/// The possible outcomes of test-case evaluation.
#[derive(Debug, PartialEq, Eq)]
pub enum TestcaseResult {
    Uninteresting,
    New,
    Hang,
    Crash,
}

/// A directory that a test case is copied to.
#[derive(Debug, PartialEq, Eq)]
pub enum Destination {
    /// The queue of new and useful test cases.
    Queue,
    /// The test cases that time out.
    Hangs,
    /// The test cases that crash.
    Crashes,
}

/// The directories that a test case with outcome `result` is copied to, in
/// order.
pub open spec fn destinations_of(result: TestcaseResult) -> Seq<Destination> {
    match result {
        TestcaseResult::Uninteresting => Seq::empty(),
        TestcaseResult::New => seq![Destination::Queue],
        TestcaseResult::Hang => seq![Destination::Hangs],
        TestcaseResult::Crash => seq![Destination::Crashes, Destination::Queue],
    }
}

/// Where a test case goes, given its outcome: a new one into the queue, one
/// that times out into the hangs, one that crashes into the crashes and
/// then the queue (it is probably interesting); an uninteresting one nowhere.
pub fn copy_destinations(result: &TestcaseResult) -> (r: Vec<Destination>)
    ensures
        r@ == destinations_of(*result),
{
    let mut r: Vec<Destination> = Vec::new();
    match result {
        TestcaseResult::Uninteresting => {},
        TestcaseResult::New => {
            r.push(Destination::Queue);
        },
        TestcaseResult::Hang => {
            r.push(Destination::Hangs);
        },
        TestcaseResult::Crash => {
            r.push(Destination::Crashes);
            r.push(Destination::Queue);
        },
    }
    assert(r@ =~= destinations_of(*result));
    r
}

/// The outcome for a test case given what afl-showmap reported and the
/// coverage known so far: new coverage makes it new, a crash a crash, a
/// timeout a hang; a successful run's map is merged into the coverage.
pub open spec fn evaluation(known: crate::afl::AflMapView, report: AflShowmapResult) -> (
    crate::afl::AflMapView,
    Result<TestcaseResult, MergeError>,
) {
    match report {
        AflShowmapResult::Success(m) => {
            let (merged, r) = merge_outcome(known, (*m)@);
            (
                merged,
                match r {
                    Ok(true) => Ok(TestcaseResult::New),
                    Ok(false) => Ok(TestcaseResult::Uninteresting),
                    Err(e) => Err(e),
                },
            )
        },
        AflShowmapResult::Hang => (known, Ok(TestcaseResult::Hang)),
        AflShowmapResult::Crash => (known, Ok(TestcaseResult::Crash)),
    }
}

/// Decides whether a test case provides new coverage, crashes, or times out,
/// from what afl-showmap reported on it; the coverage of a successful run is
/// merged into the state's cumulative coverage. New and crashing test cases
/// are the ones to keep.
pub fn process_new_testcase(state: &mut crate::state::State, report: AflShowmapResult) -> (r: Result<
    TestcaseResult,
    MergeError,
>)
    ensures
        (final(state).current_aflmap@, r) == evaluation(old(state).current_aflmap@, report),
        final(state).uncovered_edges == old(state).uncovered_edges,
        final(state).current_frontier_blocks == old(state).current_frontier_blocks,
{
    match report {
        AflShowmapResult::Success(testcase_map) => {
            match state.current_aflmap.merge(*testcase_map) {
                Ok(true) => Ok(TestcaseResult::New),
                Ok(false) => Ok(TestcaseResult::Uninteresting),
                Err(e) => Err(e),
            }
        },
        AflShowmapResult::Hang => Ok(TestcaseResult::Hang),
        AflShowmapResult::Crash => Ok(TestcaseResult::Crash),
    }
}

/// The placeholder AFL puts in a command line where the input file goes.
pub open spec fn input_placeholder() -> Seq<u8> {
    seq![0x40u8, 0x40u8]
}

/// The arguments of a command line as byte strings.
pub open spec fn args_view(command: Seq<Vec<u8>>) -> Seq<Seq<u8>> {
    command.map_values(|a: Vec<u8>| a@)
}

/// Whether argument `j` is the first input placeholder of the command line.
pub open spec fn is_first_placeholder(c: Seq<Seq<u8>>, j: int) -> bool {
    c[j] == input_placeholder() && forall|m: int| 0 <= m < j ==> c[m] != input_placeholder()
}

fn is_placeholder(arg: &Vec<u8>) -> (r: bool)
    ensures
        r == (arg@ == input_placeholder()),
{
    let r = arg.len() == 2 && arg[0] == 0x40 && arg[1] == 0x40;
    assert(r ==> arg@ =~= input_placeholder());
    r
}

/// A copy of a byte vector.
pub(crate) fn copy_bytes(v: &Vec<u8>) -> (r: Vec<u8>)
    ensures
        r@ == v@,
{
    let mut r: Vec<u8> = Vec::new();
    let mut i: usize = 0;
    while i < v.len()
        invariant
            i <= v@.len(),
            r@ == v@.take(i as int),
        decreases v@.len() - i,
    {
        r.push(v[i]);
        i = i + 1;
        assert(r@ =~= v@.take(i as int));
    }
    assert(v@.take(v@.len() as int) =~= v@);
    r
}

/// Replace the first `@@` in the given command line with the input file.
pub fn insert_input_file(command: &Vec<Vec<u8>>, input_file: &Vec<u8>) -> (r: Vec<Vec<u8>>)
    ensures
        r@.len() == command@.len(),
        forall|j: int|
            0 <= j < command@.len() ==> #[trigger] args_view(r@)[j] == if is_first_placeholder(
                args_view(command@),
                j,
            ) {
                input_file@
            } else {
                args_view(command@)[j]
            },
{
    let ghost c = args_view(command@);
    let mut fixed: Vec<Vec<u8>> = Vec::new();
    let mut replaced = false;
    let mut i: usize = 0;
    while i < command.len()
        invariant
            c == args_view(command@),
            c.len() == command@.len(),
            i <= c.len(),
            fixed@.len() == i,
            replaced <==> exists|k: int| 0 <= k < i && c[k] == input_placeholder(),
            forall|j: int|
                0 <= j < i ==> #[trigger] args_view(fixed@)[j] == if is_first_placeholder(c, j) {
                    input_file@
                } else {
                    c[j]
                },
        decreases c.len() - i,
    {
        assert(c[i as int] == command@[i as int]@);
        let hit = !replaced && is_placeholder(&command[i]);
        proof {
            if hit {
                assert forall|m: int| 0 <= m < i implies c[m] != input_placeholder() by {}
            } else if c[i as int] == input_placeholder() {
                let k = choose|k: int| 0 <= k < i && c[k] == input_placeholder();
                assert(!is_first_placeholder(c, i as int));
            }
        }
        let ghost before = fixed@;
        if hit {
            fixed.push(copy_bytes(input_file));
            replaced = true;
        } else {
            fixed.push(copy_bytes(&command[i]));
        }
        proof {
            assert forall|j: int| 0 <= j < i + 1 implies #[trigger] args_view(fixed@)[j] == if is_first_placeholder(c, j) {
                input_file@
            } else {
                c[j]
            } by {
                if j < i {
                    assert(fixed@[j] == before[j]);
                    assert(args_view(before)[j] == before[j]@);
                }
            }
        }
        i = i + 1;
    }
    fixed
}

/// Whether a target command reads its input from standard input: no
/// argument is the input placeholder `@@`.
pub fn uses_standard_input(command: &Vec<Vec<u8>>) -> (r: bool)
    ensures
        r == !(exists|k: int| 0 <= k < command@.len() && #[trigger] args_view(command@)[k] == input_placeholder()),
{
    let mut i: usize = 0;
    while i < command.len()
        invariant
            i <= command@.len(),
            forall|k: int| 0 <= k < i ==> #[trigger] args_view(command@)[k] != input_placeholder(),
        decreases command@.len() - i,
    {
        assert(args_view(command@)[i as int] == command@[i as int]@);
        if is_placeholder(&command[i]) {
            return false;
        }
        i = i + 1;
    }
    true
}

} // verus!

verus! {

/// A byte string ranks below another when, after a common part, its next
/// byte is smaller, or when it is a proper prefix of the other.
pub proof fn lemma_bytes_lt_lexicographic(a: Seq<u8>, b: Seq<u8>, i: int)
    requires
        0 <= i <= a.len(),
        i <= b.len(),
        a.take(i) == b.take(i),
    ensures
        i < a.len() && i < b.len() && a[i] < b[i] ==> bytes_lt(a, b),
        i < a.len() && i < b.len() && a[i] > b[i] ==> bytes_lt(b, a),
        i == a.len() && a.len() < b.len() ==> bytes_lt(a, b),
    decreases i,
{
    if i > 0 {
        assert(a[0] == a.take(i)[0] && b[0] == b.take(i)[0]);
        assert(a.drop_first().take(i - 1) =~= a.take(i).drop_first());
        assert(b.drop_first().take(i - 1) =~= b.take(i).drop_first());
        lemma_bytes_lt_lexicographic(a.drop_first(), b.drop_first(), i - 1);
    }
}

/// How scores rank, criterion by criterion: a score without new coverage
/// ranks below one with it, whatever else they hold; with equal coverage, one
/// not derived from a seed ranks below one that is; then the larger test
/// case (the smaller field, which holds the negated size) ranks below; and
/// only when all of these agree do the names decide.
pub proof fn lemma_score_criteria(a: ScoreView, b: ScoreView)
    ensures
        !a.0 && b.0 ==> score_lt(a, b),
        a.0 == b.0 && !a.1 && b.1 ==> score_lt(a, b),
        a.0 == b.0 && a.1 == b.1 && a.2 < b.2 ==> score_lt(a, b),
        a.0 == b.0 && a.1 == b.1 && a.2 == b.2 ==> score_lt(a, b) == bytes_lt(a.3, b.3),
        score_lt(a, b) ==> !score_lt(b, a),
{
    lemma_score_order(a, b, a);
}

/// The best score of a list has new coverage whenever any score of the list
/// has; and then, when any score with new coverage is derived from a seed,
/// so is the best.
pub proof fn lemma_best_prefers_coverage(scores: Seq<ScoreView>, i: int)
    requires
        0 <= i < scores.len(),
        forall|j: int| 0 <= j < scores.len() ==> !score_lt(scores[i], #[trigger] scores[j]),
    ensures
        (exists|j: int| 0 <= j < scores.len() && (#[trigger] scores[j]).0) ==> scores[i].0,
        (exists|j: int| 0 <= j < scores.len() && (#[trigger] scores[j]).0 && scores[j].1) ==> scores[i].1,
{
    if exists|j: int| 0 <= j < scores.len() && (#[trigger] scores[j]).0 {
        let j = choose|j: int| 0 <= j < scores.len() && (#[trigger] scores[j]).0;
        lemma_score_criteria(scores[i], scores[j]);
    }
    if exists|j: int| 0 <= j < scores.len() && (#[trigger] scores[j]).0 && scores[j].1 {
        let j = choose|j: int| 0 <= j < scores.len() && (#[trigger] scores[j]).0 && scores[j].1;
        lemma_score_criteria(scores[i], scores[j]);
    }
}

/// `s` ends with `t` exactly when `s` is some bytes followed by `t`.
pub proof fn lemma_ends_with_means_suffix(s: Seq<u8>, t: Seq<u8>)
    ensures
        ends_with(s, t) <==> exists|u: Seq<u8>| s == #[trigger] (u + t),
{
    if ends_with(s, t) {
        let u = s.take(s.len() - t.len());
        assert(s =~= u + t);
    }
    if exists|u: Seq<u8>| s == #[trigger] (u + t) {
        let u = choose|u: Seq<u8>| s == #[trigger] (u + t);
        assert(s.subrange(s.len() - t.len(), s.len() as int) =~= t);
    }
}

/// `t` occurs in `s` exactly when `s` is some bytes, then `t`, then some bytes.
pub proof fn lemma_contains_means_infix(s: Seq<u8>, t: Seq<u8>)
    ensures
        contains_bytes(s, t) <==> exists|u: Seq<u8>, v: Seq<u8>| s == #[trigger] (u + t + v),
{
    if contains_bytes(s, t) {
        let i = choose|i: int| 0 <= i <= s.len() - t.len() && #[trigger] s.subrange(i, i + t.len()) == t;
        let u = s.take(i);
        let v = s.skip(i + t.len());
        assert(s =~= u + t + v);
    }
    if exists|u: Seq<u8>, v: Seq<u8>| s == #[trigger] (u + t + v) {
        let (u, v) = choose|u: Seq<u8>, v: Seq<u8>| s == #[trigger] (u + t + v);
        let i = u.len() as int;
        assert(s.subrange(i, i + t.len()) =~= t);
    }
}

} // verus!

verus! {

proof fn lemma_decimal_digits_value(n: nat)
    ensures
        decimal(n).len() >= 1,
        crate::text::all_digits(decimal(n)),
        crate::text::digits_value(decimal(n)) == n,
    decreases n,
{
    if n >= 10 {
        lemma_decimal_digits_value(n / 10);
        let d = decimal(n);
        assert(d.drop_last() =~= decimal(n / 10));
        assert(d.last() == (0x30 + n % 10) as u8);
        assert(d.last() - 0x30 == n % 10);
        assert((n / 10) * 10 + n % 10 == n) by (nonlinear_arith);
        assert(crate::text::digits_value(d) == crate::text::digits_value(d.drop_last()) * 10 + (d.last() - 0x30));
        assert forall|i: int| 0 <= i < d.len() implies 0x30 <= #[trigger] d[i] <= 0x39 by {
            if i < d.len() - 1 {
                assert(d[i] == decimal(n / 10)[i]);
            }
        }
    } else {
        let d = decimal(n);
        assert(d.drop_last() =~= Seq::<u8>::empty());
        assert(d.last() - 0x30 == n);
        assert(crate::text::digits_value(d) == crate::text::digits_value(d.drop_last()) * 10 + (d.last() - 0x30));
    }
}

proof fn lemma_leading_zeros_value(z: Seq<u8>, d: Seq<u8>)
    requires
        forall|i: int| 0 <= i < z.len() ==> #[trigger] z[i] == 0x30u8,
    ensures
        crate::text::digits_value(z + d) == crate::text::digits_value(d),
    decreases d.len() + z.len(),
{
    if d.len() > 0 {
        assert((z + d).drop_last() =~= z + d.drop_last());
        assert((z + d).last() == d.last());
        lemma_leading_zeros_value(z, d.drop_last());
    } else if z.len() > 0 {
        assert(z + d =~= z);
        assert(z.drop_last() + Seq::<u8>::empty() =~= z.drop_last());
        lemma_leading_zeros_value(z.drop_last(), Seq::<u8>::empty());
        assert(z.drop_last() + d =~= z.drop_last());
    } else {
        assert(z + d =~= d);
    }
}

/// The number in a test case's name is its directory's next id, written with
/// at least six decimal digits: a name derived at id `id` is `id:`, then
/// digits that spell `id`, then `,src:` and the parent's six id bytes.
pub proof fn lemma_testcase_name_spells_id(id: u64, parent: Seq<u8>)
    requires
        testcase_name(id, parent) is Ok,
    ensures
        ({
            let name = testcase_name(id, parent)->Ok_0;
            let digits = name.subrange(3, name.len() - 11);
            &&& name.len() >= 20
            &&& name.take(3) == seq![0x69u8, 0x64u8, 0x3au8]
            &&& digits.len() >= 6
            &&& crate::text::all_digits(digits)
            &&& crate::text::digits_value(digits) == id
            &&& name.subrange(name.len() - 11, name.len() - 6) == seq![0x2cu8, 0x73u8, 0x72u8, 0x63u8, 0x3au8]
            &&& name.skip(name.len() - 6) == parent.subrange(3, 9)
        }),
{
    let name = testcase_name(id, parent)->Ok_0;
    let pre = seq![0x69u8, 0x64u8, 0x3au8];
    let sep = seq![0x2cu8, 0x73u8, 0x72u8, 0x63u8, 0x3au8];
    let tail = parent.subrange(3, 9);
    let p = decimal_padded(id as nat, 6);
    assert(name == pre + p + sep + tail);
    lemma_padded_digits(id);
    assert(p.len() >= 6);
    let digits = name.subrange(3, name.len() - 11);
    assert(digits =~= p);
    assert(name.take(3) =~= pre);
    assert(name.subrange(name.len() - 11, name.len() - 6) =~= sep);
    assert(name.skip(name.len() - 6) =~= tail);
}

proof fn lemma_padded_digits(id: u64)
    ensures
        decimal_padded(id as nat, 6).len() >= 6,
        crate::text::all_digits(decimal_padded(id as nat, 6)),
        crate::text::digits_value(decimal_padded(id as nat, 6)) == id,
{
    let d = decimal(id as nat);
    lemma_decimal_digits_value(id as nat);
    let p = decimal_padded(id as nat, 6);
    let z = if d.len() < 6 { Seq::new((6 - d.len()) as nat, |i: int| 0x30u8) } else { Seq::<u8>::empty() };
    assert(p =~= z + d);
    lemma_leading_zeros_value(z, d);
    assert forall|i: int| 0 <= i < p.len() implies 0x30 <= #[trigger] p[i] <= 0x39 by {
        if i >= z.len() {
            assert(p[i] == d[i - z.len()]);
        }
    }
}

/// Test cases named at different ids of a directory get different names.
pub proof fn lemma_testcase_names_differ(id1: u64, id2: u64, parent1: Seq<u8>, parent2: Seq<u8>)
    requires
        testcase_name(id1, parent1) is Ok,
        testcase_name(id2, parent2) is Ok,
        id1 != id2,
    ensures
        testcase_name(id1, parent1) != testcase_name(id2, parent2),
{
    lemma_testcase_name_spells_id(id1, parent1);
    lemma_testcase_name_spells_id(id2, parent2);
}

} // verus!
