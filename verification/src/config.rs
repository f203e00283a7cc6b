//! The AFL run-time configuration read from a fuzzer's `fuzzer_stats` file.
use crate::testcase::{args_view, copy_bytes, input_placeholder};
use crate::text::{chars_of, is_whitespace, parse_u64, parsed_u64, white_space};
use std::path::PathBuf;
use vstd::prelude::*;
use vstd::string::StringSliceAdditionalSpecFns;

verus! {

/// Whether `s` starts with `p`.
pub open spec fn starts_with_chars(s: Seq<char>, p: Seq<char>) -> bool {
    p.len() <= s.len() && s.take(p.len() as int) == p
}

/// The position of the first newline, or the length when there is none.
pub open spec fn line_end(cs: Seq<char>) -> int
    decreases cs.len(),
{
    if cs.len() == 0 {
        0
    } else if cs[0] == '\n' {
        0
    } else {
        1 + line_end(cs.drop_first())
    }
}

/// The key of the stats entry that holds AFL's command line.
pub open spec fn command_line_key() -> Seq<char> {
    seq!['c', 'o', 'm', 'm', 'a', 'n', 'd', '_', 'l', 'i', 'n', 'e']
}

/// The first line (lines end at `\n`, and a `\r` before it is dropped) that
/// starts with `command_line`.
pub open spec fn command_line_of(cs: Seq<char>) -> Option<Seq<char>>
    decreases cs.len(),
{
    let e = line_end(cs);
    let raw = cs.take(e);
    let line = if e < cs.len() && raw.len() > 0 && raw.last() == '\r' {
        raw.drop_last()
    } else {
        raw
    };
    if starts_with_chars(line, command_line_key()) {
        Some(line)
    } else if e >= cs.len() || e < 0 {
        None
    } else {
        command_line_of(cs.skip(e + 1))
    }
}

/// The position of the first colon, if any.
pub open spec fn colon_index(cs: Seq<char>) -> Option<int> {
    if exists|i: int| 0 <= i < cs.len() && cs[i] == ':' {
        Some(choose|i: int| 0 <= i < cs.len() && cs[i] == ':' && forall|j: int| 0 <= j < i ==> cs[j] != ':')
    } else {
        None
    }
}

/// The number of characters before the first whitespace character.
pub open spec fn token_len(cs: Seq<char>) -> int
    decreases cs.len(),
{
    if cs.len() == 0 || white_space(cs[0]) {
        0
    } else {
        1 + token_len(cs.drop_first())
    }
}

/// A token is a prefix, and a string that starts with a non-whitespace character starts with a token.
pub proof fn lemma_token_len_bounds(cs: Seq<char>)
    ensures
        0 <= token_len(cs) <= cs.len(),
        cs.len() > 0 && !white_space(cs[0]) ==> token_len(cs) > 0,
    decreases cs.len(),
{
    if cs.len() > 0 && !white_space(cs[0]) {
        lemma_token_len_bounds(cs.drop_first());
    }
}

/// The maximal runs of non-whitespace characters, in order.
pub open spec fn tokens_of(cs: Seq<char>) -> Seq<Seq<char>>
    decreases cs.len(),
{
    if cs.len() == 0 {
        Seq::empty()
    } else if white_space(cs[0]) {
        tokens_of(cs.drop_first())
    } else {
        proof {
            lemma_token_len_bounds(cs);
        }
        let t = token_len(cs);
        seq![cs.take(t)] + tokens_of(cs.skip(t))
    }
}

/// Why AFL's command line could not be read from its stats.
#[derive(Debug, PartialEq, Eq)]
pub enum StatsError {
    /// The fuzzer stats don't contain the command line.
    NoCommandLine,
    /// The command-line entry has no `:`.
    UnknownFormat,
}

/// The words of AFL's command line in its stats: the whitespace-separated
/// words after the first `:` of the first line that starts with `command_line`.
pub open spec fn afl_command_of(stats: Seq<char>) -> Result<Seq<Seq<char>>, StatsError> {
    match command_line_of(stats) {
        None => Err(StatsError::NoCommandLine),
        Some(line) => match colon_index(line) {
            None => Err(StatsError::UnknownFormat),
            Some(i) => Ok(tokens_of(line.skip(i + 1))),
        },
    }
}

fn first_line_with_key(cs: &Vec<char>) -> (r: Option<(usize, usize)>)
    ensures
        match r {
            Some((a, b)) => a <= b <= cs@.len() && command_line_of(cs@) == Some(cs@.subrange(a as int, b as int)),
            None => command_line_of(cs@) is None,
        },
{
    let n = cs.len();
    let key: [char; 12] = ['c', 'o', 'm', 'm', 'a', 'n', 'd', '_', 'l', 'i', 'n', 'e'];
    assert(key@ =~= command_line_key());
    let mut start: usize = 0;
    assert(cs@.skip(0) =~= cs@);
    loop
        invariant
            start <= n,
            n == cs@.len(),
            key@ == command_line_key(),
            command_line_of(cs@) == command_line_of(cs@.skip(start as int)),
        decreases n - start,
    {
        let ghost rest = cs@.skip(start as int);
        let mut e: usize = start;
        while e < n && cs[e] != '\n'
            invariant
                start <= e <= n,
                n == cs@.len(),
                rest == cs@.skip(start as int),
                line_end(rest) == (e - start) + line_end(cs@.skip(e as int)),
            decreases n - e,
        {
            assert(cs@.skip(e as int).drop_first() =~= cs@.skip(e + 1 as int));
            e = e + 1;
        }
        assert(line_end(cs@.skip(e as int)) == 0);
        let mut stop = e;
        if e < n && e > start && cs[e - 1] == '\r' {
            stop = e - 1;
        }
        let ghost line = cs@.subrange(start as int, stop as int);
        assert(rest.take(e - start) =~= cs@.subrange(start as int, e as int));
        assert(e > start ==> rest.take(e - start).last() == cs@[e - 1]);
        assert(e > start && e < n && cs@[e - 1] == '\r' ==> rest.take(e - start).drop_last() =~= line);
        let mut same = stop - start >= 12;
        let mut j: usize = 0;
        while same && j < 12
            invariant
                j <= 12,
                same ==> stop - start >= 12,
                stop <= n,
                n == cs@.len(),
                key@ == command_line_key(),
                same ==> forall|m: int| 0 <= m < j ==> cs@[start + m] == key@[m],
                !same ==> !starts_with_chars(cs@.subrange(start as int, stop as int), command_line_key()),
            decreases 12 - j + (if same { 1int } else { 0int }),
        {
            if cs[start + j] != key[j] {
                assert(cs@.subrange(start as int, stop as int).take(12)[j as int] != key@[j as int]);
                same = false;
            } else {
                j = j + 1;
            }
        }
        if same {
            assert(cs@.subrange(start as int, stop as int).take(12) =~= command_line_key());
            return Some((start, stop));
        }
        if e >= n {
            return None;
        }
        assert(rest.skip(e - start + 1) =~= cs@.skip(e + 1 as int));
        start = e + 1;
    }
}

/// The words of AFL's command line in its stats (see [`afl_command_of`]);
/// trimming the entry first changes nothing, as the words exclude whitespace.
pub fn parse_afl_command(stats: &str) -> (r: Result<Vec<Vec<char>>, StatsError>)
    ensures
        match r {
            Ok(words) => afl_command_of(stats@) == Ok::<Seq<Seq<char>>, StatsError>(
                words@.map_values(|w: Vec<char>| w@),
            ),
            Err(e) => afl_command_of(stats@) == Err::<Seq<Seq<char>>, StatsError>(e),
        },
{
    let cs = chars_of(stats);
    let (a, b) = match first_line_with_key(&cs) {
        Some(range) => range,
        None => return Err(StatsError::NoCommandLine),
    };
    let ghost line = cs@.subrange(a as int, b as int);
    let mut c: usize = a;
    while c < b && cs[c] != ':'
        invariant
            a <= c <= b <= cs@.len(),
            forall|j: int| a <= j < c ==> cs@[j] != ':',
        decreases b - c,
    {
        c = c + 1;
    }
    if c == b {
        assert forall|i: int| 0 <= i < line.len() implies line[i] != ':' by {
            assert(line[i] == cs@[a + i]);
        }
        return Err(StatsError::UnknownFormat);
    }
    proof {
        let i = c - a;
        assert(line[i] == ':');
        let chosen = colon_index(line)->0;
        assert(forall|j: int| 0 <= j < i ==> line[j] != ':') by {
            assert forall|j: int| 0 <= j < i implies line[j] != ':' by {
                assert(line[j] == cs@[a + j]);
            }
        }
        if chosen < i {
            assert(line[chosen] == ':');
        } else if chosen > i {
            assert(line[i] != ':');
        }
    }
    let mut words: Vec<Vec<char>> = Vec::new();
    let mut p: usize = c + 1;
    let ghost value = line.skip(c - a + 1);
    assert(value =~= cs@.subrange(c + 1, b as int));
    while p < b
        invariant
            c + 1 <= p <= b,
            b <= cs@.len(),
            value == cs@.subrange(c + 1, b as int),
            tokens_of(value) == words@.map_values(|w: Vec<char>| w@) + tokens_of(cs@.subrange(p as int, b as int)),
        decreases b - p,
    {
        let ghost rest = cs@.subrange(p as int, b as int);
        if is_whitespace(cs[p]) {
            assert(rest.drop_first() =~= cs@.subrange(p + 1, b as int));
            p = p + 1;
        } else {
            let mut q: usize = p;
            let mut word: Vec<char> = Vec::new();
            while q < b && !is_whitespace(cs[q])
                invariant
                    p <= q <= b,
                    b <= cs@.len(),
                    rest == cs@.subrange(p as int, b as int),
                    word@ == cs@.subrange(p as int, q as int),
                    token_len(rest) == (q - p) + token_len(cs@.subrange(q as int, b as int)),
                decreases b - q,
            {
                assert(cs@.subrange(q as int, b as int).drop_first() =~= cs@.subrange(q + 1, b as int));
                word.push(cs[q]);
                q = q + 1;
                assert(word@ =~= cs@.subrange(p as int, q as int));
            }
            assert(token_len(cs@.subrange(q as int, b as int)) == 0);
            assert(rest.take(q - p) =~= word@);
            assert(rest.skip(q - p) =~= cs@.subrange(q as int, b as int));
            let ghost before = words@.map_values(|w: Vec<char>| w@);
            words.push(word);
            assert(words@.map_values(|w: Vec<char>| w@) =~= before.push(rest.take(q - p)));
            p = q;
        }
    }
    assert(cs@.subrange(b as int, b as int) =~= Seq::<char>::empty());
    assert(words@.map_values(|w: Vec<char>| w@) + Seq::<Seq<char>>::empty() =~= words@.map_values(|w: Vec<char>| w@));
    Ok(words)
}

/// The argument AFL puts before the target's command.
pub open spec fn separator() -> Seq<u8> {
    seq![0x2du8, 0x2du8]
}

/// The argument that selects AFL's QEMU mode.
pub open spec fn qemu_flag() -> Seq<u8> {
    seq![0x2du8, 0x51u8]
}

/// The position of the first argument equal to `a`, or the length when there is none.
pub open spec fn first_index_of(c: Seq<Seq<u8>>, a: Seq<u8>) -> int
    decreases c.len(),
{
    if c.len() == 0 {
        0
    } else if c[0] == a {
        0
    } else {
        1 + first_index_of(c.drop_first(), a)
    }
}

proof fn lemma_first_index_of(c: Seq<Seq<u8>>, a: Seq<u8>)
    ensures
        0 <= first_index_of(c, a) <= c.len(),
        forall|i: int| 0 <= i < first_index_of(c, a) ==> c[i] != a,
        first_index_of(c, a) < c.len() ==> c[first_index_of(c, a)] == a,
    decreases c.len(),
{
    if c.len() > 0 && c[0] != a {
        lemma_first_index_of(c.drop_first(), a);
        assert forall|i: int| 0 <= i < first_index_of(c, a) implies c[i] != a by {
            if i > 0 {
                assert(c[i] == c.drop_first()[i - 1]);
            }
        }
    }
}

/// What `map_size` becomes for the setting `value`: the number it holds as
/// `usize::from_str` reads it, else 65536.
pub open spec fn map_size_from(value: Option<Seq<u8>>) -> usize {
    match value {
        Some(v) => match parsed_u64(v) {
            Some(n) => if n <= usize::MAX {
                n as usize
            } else {
                65536
            },
            None => 65536,
        },
        None => 65536,
    }
}

/// The map size for the value of the `AFL_MAP_SIZE` setting, if set: the
/// number it holds, or 65536 when it is unset or not a number.
pub fn map_size_setting(value: Option<&str>) -> (r: usize)
    ensures
        r == map_size_from(match value {
            Some(v) => Some(v.spec_bytes()),
            None => None,
        }),
{
    match value {
        Some(v) => match parse_u64(v) {
            Some(n) => if n <= usize::MAX as u64 {
                n as usize
            } else {
                65536
            },
            None => 65536,
        },
        None => 65536,
    }
}

fn same_arg(a: &Vec<u8>, b0: u8, b1: u8) -> (r: bool)
    ensures
        r == (a@ == seq![b0, b1]),
{
    let r = a.len() == 2 && a[0] == b0 && a[1] == b1;
    assert(r ==> a@ =~= seq![b0, b1]);
    r
}

/// Information on the run-time environment.
///
/// This should not change during execution.
pub struct AflConfig {
    /// The location of the afl-showmap program.
    pub show_map: PathBuf,
    /// The command that AFL uses to invoke the target program.
    pub target_command: Vec<Vec<u8>>,
    /// Do we need to pass data to standard input?
    pub use_standard_input: bool,
    /// Are we using AFL's QEMU mode?
    pub use_qemu_mode: bool,
    /// The fuzzer instance's queue of test cases.
    pub queue_dir: PathBuf,
    pub map_size: usize,
}

impl AflConfig {
    /// The configuration for a fuzzer run with command line `afl_command`:
    /// the target command is the part from the first `--` on (nothing when
    /// there is none), read from standard input unless it holds `@@`; QEMU
    /// mode is on when any argument is `-Q`.
    pub fn new(afl_command: &Vec<Vec<u8>>, show_map: PathBuf, queue_dir: PathBuf, map_size: usize) -> (r: AflConfig)
        ensures
            args_view(r.target_command@) == args_view(afl_command@).skip(
                first_index_of(args_view(afl_command@), separator()),
            ),
            r.use_standard_input == !args_view(r.target_command@).contains(input_placeholder()),
            r.use_qemu_mode == args_view(afl_command@).contains(qemu_flag()),
            r.show_map == show_map,
            r.queue_dir == queue_dir,
            r.map_size == map_size,
    {
        let ghost c = args_view(afl_command@);
        proof {
            lemma_first_index_of(c, separator());
        }
        let n = afl_command.len();
        let mut i: usize = 0;
        let mut qemu = false;
        let mut target: Vec<Vec<u8>> = Vec::new();
        let mut started = false;
        let mut stdin = true;
        while i < n
            invariant
                n == afl_command@.len(),
                c == args_view(afl_command@),
                i <= n,
                0 <= first_index_of(c, separator()) <= c.len(),
                forall|k: int| 0 <= k < first_index_of(c, separator()) ==> c[k] != separator(),
                first_index_of(c, separator()) < c.len() ==> c[first_index_of(c, separator())]
                    == separator(),
                started <==> first_index_of(c, separator()) < i,
                args_view(target@) == if started {
                    c.subrange(first_index_of(c, separator()), i as int)
                } else {
                    Seq::<Seq<u8>>::empty()
                },
                stdin <==> !args_view(target@).contains(input_placeholder()),
                qemu <==> c.take(i as int).contains(qemu_flag()),
            decreases n - i,
        {
            let arg = &afl_command[i];
            assert(c[i as int] == arg@);
            let ghost before = args_view(target@);
            if !started && same_arg(arg, 0x2d, 0x2d) {
                started = true;
            }
            if started {
                if same_arg(arg, 0x40, 0x40) {
                    stdin = false;
                }
                target.push(copy_bytes(arg));
                proof {
                    assert(args_view(target@) =~= before.push(arg@));
                    if !before.contains(input_placeholder()) && arg@ != input_placeholder() {
                        assert(!args_view(target@).contains(input_placeholder())) by {
                            if args_view(target@).contains(input_placeholder()) {
                                let k = choose|k: int| 0 <= k < args_view(target@).len() && args_view(target@)[k] == input_placeholder();
                                if k < before.len() {
                                    assert(before[k] == input_placeholder());
                                }
                            }
                        }
                    }
                    if arg@ == input_placeholder() {
                        assert(args_view(target@)[before.len() as int] == input_placeholder());
                    }
                    if before.contains(input_placeholder()) {
                        let k = choose|k: int| 0 <= k < before.len() && before[k] == input_placeholder();
                        assert(args_view(target@)[k] == input_placeholder());
                    }
                }
            }
            if same_arg(arg, 0x2d, 0x51) {
                qemu = true;
            }
            proof {
                let t0 = c.take(i as int);
                let t1 = c.take(i + 1 as int);
                assert(t1 =~= t0.push(c[i as int]));
                if t0.contains(qemu_flag()) {
                    let k = choose|k: int| 0 <= k < t0.len() && t0[k] == qemu_flag();
                    assert(t1[k] == qemu_flag());
                }
                if arg@ == qemu_flag() {
                    assert(t1[i as int] == qemu_flag());
                }
                if t1.contains(qemu_flag()) && !t0.contains(qemu_flag()) {
                    let k = choose|k: int| 0 <= k < t1.len() && t1[k] == qemu_flag();
                    if k < i {
                        assert(t0[k] == qemu_flag());
                    }
                }
                if started {
                    assert(c.subrange(first_index_of(c, separator()), i + 1 as int) =~= args_view(target@));
                }
            }
            i = i + 1;
        }
        proof {
            assert(c.take(n as int) =~= c);
            if !started {
                assert(c.skip(first_index_of(c, separator())) =~= Seq::<Seq<u8>>::empty());
            } else {
                assert(c.skip(first_index_of(c, separator())) =~= c.subrange(first_index_of(c, separator()), n as int));
            }
        }
        AflConfig {
            show_map,
            target_command: target,
            use_standard_input: stdin,
            use_qemu_mode: qemu,
            queue_dir,
            map_size,
        }
    }
}

} // verus!
