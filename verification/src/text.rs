//! Text helpers: UTF-8 decoding, whitespace, decimal numbers and the
//! solver-time pattern of the Qsym backend's log.
use regex::Regex;
use vstd::prelude::*;
use vstd::std_specs::iter::IteratorSpec;
use vstd::string::StringSliceAdditionalSpecFns;

verus! {

/// Whether `c` has the Unicode `White_Space` property: tab, line feed,
/// vertical tab, form feed, carriage return, space, next line, no-break
/// space, ogham space mark, the spaces U+2000 to U+200A, line separator,
/// paragraph separator, narrow no-break space, medium mathematical space and
/// ideographic space.
pub open spec fn white_space(c: char) -> bool {
    let u = c as u32;
    ||| 0x09 <= u <= 0x0d
    ||| u == 0x20
    ||| u == 0x85
    ||| u == 0xa0
    ||| u == 0x1680
    ||| 0x2000 <= u <= 0x200a
    ||| u == 0x2028
    ||| u == 0x2029
    ||| u == 0x202f
    ||| u == 0x205f
    ||| u == 0x3000
}

/// `char::is_whitespace`, which is true exactly of the characters with the
/// Unicode `White_Space` property, listed in [`white_space`].
#[verifier::external_body]
pub(crate) fn is_whitespace(c: char) -> (r: bool)
    ensures
        r == white_space(c),
{
    c.is_whitespace()
}

/// `std::str::from_utf8`: succeeds exactly on valid UTF-8, giving a string
/// with those bytes.
#[verifier::external_body]
pub(crate) fn utf8_str(bytes: &[u8]) -> (r: Option<&str>)
    ensures
        r is Some <==> vstd::utf8::valid_utf8(bytes@),
        r matches Some(s) ==> s.spec_bytes() == bytes@,
{
    std::str::from_utf8(bytes).ok()
}

/// The digits that the pattern `"solving_time": (\d+)` captures in its first
/// match in `line`, if it matches.
pub uninterp spec fn solving_time_group(line: Seq<char>) -> Option<Seq<char>>;

/// `Regex::new` on the pattern `"solving_time": (\d+)`, then `Regex::captures`
/// on `line`, giving the first capture group's text. What the pattern
/// matches (in particular `\d`, which matches every Unicode decimal digit)
/// is not restated here.
#[verifier::external_body]
pub(crate) fn capture_solving_time(line: &str) -> (r: Option<String>)
    ensures
        match r {
            Some(d) => solving_time_group(line@) == Some(d@),
            None => solving_time_group(line@) is None,
        },
{
    let re = Regex::new(r#""solving_time": (\d+)"#).unwrap();
    re.captures(line).and_then(|c| c.get(1)).map(|m| m.as_str().to_string())
}

/// The value of a decimal numeral: ASCII digits, most significant first.
pub open spec fn digits_value(d: Seq<u8>) -> int
    decreases d.len(),
{
    if d.len() == 0 {
        0
    } else {
        digits_value(d.drop_last()) * 10 + (d.last() - 0x30)
    }
}

/// Whether every byte is an ASCII digit.
pub open spec fn all_digits(d: Seq<u8>) -> bool {
    forall|i: int| 0 <= i < d.len() ==> 0x30 <= #[trigger] d[i] <= 0x39
}

/// What `u64::from_str` gives for a string with these bytes: an optional `+`
/// followed by one or more ASCII digits whose value fits in a `u64`.
pub open spec fn parsed_u64(s: Seq<u8>) -> Option<u64> {
    let d = numeral_part(s);
    if d.len() > 0 && all_digits(d) && digits_value(d) <= u64::MAX {
        Some(digits_value(d) as u64)
    } else {
        None
    }
}

/// The bytes after an optional leading `+`.
pub open spec fn numeral_part(s: Seq<u8>) -> Seq<u8> {
    if s.len() > 0 && s[0] == 0x2b {
        s.drop_first()
    } else {
        s
    }
}

/// Parses a decimal `u64` as `u64::from_str` does.
pub fn parse_u64(s: &str) -> (r: Option<u64>)
    ensures
        r == parsed_u64(s.spec_bytes()),
{
    let b = s.as_bytes();
    let start: usize = if b.len() > 0 && b[0] == 0x2b { 1 } else { 0 };
    let ghost d = numeral_part(b@);
    assert(d =~= b@.skip(start as int));
    if start >= b.len() {
        return None;
    }
    let mut value: u64 = 0;
    let mut i: usize = start;
    while i < b.len()
        invariant
            start <= i <= b@.len(),
            d == b@.skip(start as int),
            d == numeral_part(b@),
            b@ == s.spec_bytes(),
            all_digits(b@.subrange(start as int, i as int)),
            value as int == digits_value(b@.subrange(start as int, i as int)),
        decreases b@.len() - i,
    {
        let c = b[i];
        assert(b@.subrange(start as int, i + 1 as int).drop_last() =~= b@.subrange(start as int, i as int));
        if c < 0x30 || c > 0x39 {
            assert(d[i - start] == c);
            assert(!all_digits(d));
            assert(numeral_part(b@) == d);
            assert(!(d.len() > 0 && all_digits(d) && digits_value(d) <= u64::MAX));
            assert(parsed_u64(b@) is None);
            return None;
        }
        let digit = (c - 0x30) as u64;
        if value > (u64::MAX - digit) / 10 {
            proof {
                let sub = b@.subrange(start as int, i + 1 as int);
                assert(digits_value(sub) == value * 10 + digit);
                assert(digits_value(sub) > u64::MAX);
                lemma_digits_value_grows(d, i + 1 - start);
                assert(d.take(i + 1 - start) =~= sub);
                assert(parsed_u64(b@) is None);
            }
            return None;
        }
        value = value * 10 + digit;
        i = i + 1;
    }
    assert(b@.subrange(start as int, b@.len() as int) =~= d);
    Some(value)
}

proof fn lemma_digits_value_grows(d: Seq<u8>, k: int)
    requires
        0 <= k <= d.len(),
    ensures
        digits_value(d.take(k)) <= digits_value(d) || !all_digits(d),
    decreases d.len() - k,
{
    if k < d.len() && all_digits(d) {
        lemma_digits_value_grows(d, k + 1);
        assert(d.take(k + 1).drop_last() =~= d.take(k));
        assert(0x30 <= d[k] <= 0x39);
        assert(digits_value(d.take(k)) >= 0) by {
            lemma_digits_value_nonneg(d.take(k));
        }
    } else if k == d.len() {
        assert(d.take(k) =~= d);
    }
}

proof fn lemma_digits_value_nonneg(d: Seq<u8>)
    requires
        all_digits(d),
    ensures
        digits_value(d) >= 0,
    decreases d.len(),
{
    if d.len() > 0 {
        assert(all_digits(d.drop_last()));
        lemma_digits_value_nonneg(d.drop_last());
    }
}

/// The characters of a string.
pub(crate) fn chars_of(s: &str) -> (v: Vec<char>)
    ensures
        v@ == s@,
{
    let mut v: Vec<char> = Vec::new();
    let ghost whole = s@;
    for c in it: s.chars()
        invariant
            it.seq() == whole,
            whole == s@,
            v@.len() == it.index(),
            v@ == whole.take(it.index()),
    {
        assert(whole.take(it.index() + 1) =~= whole.take(it.index()).push(c));
        v.push(c);
    }
    assert(whole.take(whole.len() as int) =~= whole);
    v
}

} // verus!
