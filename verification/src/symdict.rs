use crate::buf::{
    bytes_contents, bytes_from_vec, bytes_get_u32_le, bytes_has_remaining, bytes_remaining,
    bytes_copy_to_vec, le_bytes_u32, le_u32_at, vec_put_slice, vec_put_u32_le, vec_put_u8,
};
use bytes::Bytes;
use vstd::prelude::*;

verus! {

/// The model of a dictionary word: its begin and end offsets and its bytes.
pub type WordView = (u32, u32, Seq<u8>);

/// A word found by SymCC: the input bytes from offset `begin` to offset `end`.
#[derive(Debug, PartialEq, Eq)]
pub struct DictWord {
    pub begin: u32,
    pub end: u32,
    pub data: Vec<u8>,
}

impl View for DictWord {
    type V = WordView;

    open spec fn view(&self) -> WordView {
        (self.begin, self.end, self.data@)
    }
}

/// Whether the raw bytes start with a complete word record, or are empty:
/// a little-endian begin, a little-endian end no smaller than begin, and
/// `end - begin + 1` bytes of data.
pub open spec fn raw_record_fits(s: Seq<u8>) -> bool {
    s.len() == 0 || (s.len() >= 8 && le_u32_at(s, 0) <= le_u32_at(s, 4) && s.len() >= 8
        + le_u32_at(s, 4) - le_u32_at(s, 0) + 1)
}

/// The number of bytes of the word record at the start of `s`.
pub open spec fn raw_record_len(s: Seq<u8>) -> int {
    8 + le_u32_at(s, 4) - le_u32_at(s, 0) + 1
}

/// The word record at the start of `s`.
pub open spec fn raw_record(s: Seq<u8>) -> WordView {
    (le_u32_at(s, 0) as u32, le_u32_at(s, 4) as u32, s.subrange(8, raw_record_len(s)))
}

/// Whether raw dictionary bytes are a sequence of complete word records.
pub open spec fn raw_well_formed(s: Seq<u8>) -> bool
    decreases s.len(),
{
    if s.len() == 0 {
        true
    } else if raw_record_fits(s) {
        raw_well_formed(s.skip(raw_record_len(s)))
    } else {
        false
    }
}

/// The words of raw dictionary bytes, in file order, up to the first incomplete record.
pub open spec fn raw_words(s: Seq<u8>) -> Seq<WordView>
    decreases s.len(),
{
    if s.len() == 0 || !raw_record_fits(s) {
        Seq::empty()
    } else {
        seq![raw_record(s)] + raw_words(s.skip(raw_record_len(s)))
    }
}

/// The trimmed encoding of one word: begin and end (little-endian), the low
/// byte of the data's length, then the data.
pub open spec fn encoded_word(w: WordView) -> Seq<u8> {
    le_bytes_u32(w.0) + le_bytes_u32(w.1) + seq![(w.2.len() % 0x100) as u8] + w.2
}

/// Whether a word is short enough to be kept in a trimmed dictionary.
pub open spec fn word_is_short(w: WordView) -> bool {
    w.1 - w.0 < 255
}

/// The trimmed encodings of the short words, in order.
pub open spec fn encoded_words(ws: Seq<WordView>) -> Seq<u8>
    decreases ws.len(),
{
    if ws.len() == 0 {
        Seq::empty()
    } else {
        let rest = encoded_words(ws.drop_last());
        if word_is_short(ws.last()) {
            rest + encoded_word(ws.last())
        } else {
            rest
        }
    }
}

/// A trimmed dictionary file: the number of words (all of them, modulo 2^32,
/// little-endian), then the encodings of the short words.
pub open spec fn dict_bytes(ws: Seq<WordView>) -> Seq<u8> {
    le_bytes_u32((ws.len() % 0x1_0000_0000) as u32) + encoded_words(ws)
}

/// Words are ordered by end, then by begin.
pub open spec fn key_lt(a: WordView, b: WordView) -> bool {
    a.1 < b.1 || (a.1 == b.1 && a.0 < b.0)
}

/// Two words with the same begin and end.
pub open spec fn same_key(a: WordView, b: WordView) -> bool {
    a.0 == b.0 && a.1 == b.1
}

/// Whether no word before position `j` has the same begin and end as the word at `j`.
pub open spec fn first_of_key(ws: Seq<WordView>, j: int) -> bool {
    forall|k: int| 0 <= k < j ==> !#[trigger] same_key(ws[k], ws[j])
}

/// Whether the words are strictly increasing by (end, begin).
pub open spec fn sorted_by_key(out: Seq<WordView>) -> bool {
    forall|i: int, j: int| 0 <= i < j < out.len() ==> key_lt(#[trigger] out[i], #[trigger] out[j])
}

/// Whether some word of `out` has the begin and end of `w`.
pub open spec fn has_key(out: Seq<WordView>, w: WordView) -> bool {
    exists|i: int| 0 <= i < out.len() && same_key(#[trigger] out[i], w)
}

/// Whether `v` occurs in `ws` as the first word with its begin and end.
pub open spec fn first_occurrence_in(ws: Seq<WordView>, v: WordView) -> bool {
    exists|j: int| 0 <= j < ws.len() && #[trigger] ws[j] == v && first_of_key(ws, j)
}

/// `out` is `ws` sorted by (end, begin) with one word per (begin, end): the
/// first such word of `ws`.
pub open spec fn sorted_dedup_of(out: Seq<WordView>, ws: Seq<WordView>) -> bool {
    &&& sorted_by_key(out)
    &&& forall|i: int| 0 <= i < out.len() ==> #[trigger] first_occurrence_in(ws, out[i])
    &&& forall|j: int| 0 <= j < ws.len() ==> #[trigger] has_key(out, ws[j])
}

impl DictWord {
    /// Reads the next word record from `reader`, or returns `None` when no
    /// byte is left.
    pub fn decode(reader: &mut Bytes) -> (r: Option<DictWord>)
        requires
            raw_record_fits(bytes_contents(*old(reader))),
        ensures
            ({
                let s = bytes_contents(*old(reader));
                if s.len() == 0 {
                    r is None && bytes_contents(*final(reader)) == s
                } else {
                    &&& r matches Some(w) && w@ == raw_record(s)
                    &&& bytes_contents(*final(reader)) == s.skip(raw_record_len(s))
                }
            }),
    {
        let ghost s = bytes_contents(*reader);
        if !bytes_has_remaining(reader) {
            return None;
        }
        let begin = bytes_get_u32_le(reader);
        let end = bytes_get_u32_le(reader);
        assert(bytes_contents(*reader) =~= s.skip(8));
        // The bytes left bound the record's length, which therefore fits in a `usize`.
        let left = bytes_remaining(reader);
        assert(left >= (end - begin) + 1);
        let len = (end - begin) as usize + 1;
        let data = bytes_copy_to_vec(reader, len);
        assert(data@ =~= s.subrange(8, raw_record_len(s)));
        assert(bytes_contents(*reader) =~= s.skip(raw_record_len(s)));
        Some(DictWord { begin, end, data })
    }

    /// The trimmed encoding of this word.
    pub fn encode(&self) -> (r: Vec<u8>)
        ensures
            r@ == encoded_word(self@),
    {
        let mut buf: Vec<u8> = Vec::new();
        vec_put_u32_le(&mut buf, self.begin);
        vec_put_u32_le(&mut buf, self.end);
        vec_put_u8(&mut buf, (self.data.len() % 256) as u8);
        vec_put_slice(&mut buf, self.data.as_slice());
        assert(buf@ =~= encoded_word(self@));
        buf
    }
}

/// A dictionary of words.
pub struct SymDict(pub Vec<DictWord>);

impl View for SymDict {
    type V = Seq<WordView>;

    open spec fn view(&self) -> Seq<WordView> {
        self.0@.map_values(|w: DictWord| w@)
    }
}

proof fn lemma_skip_skip(s: Seq<u8>, a: int, b: int)
    requires
        0 <= a,
        0 <= b,
        a + b <= s.len(),
    ensures
        s.skip(a).skip(b) == s.skip(a + b),
{
    assert(s.skip(a).skip(b) =~= s.skip(a + b));
}

impl SymDict {
    /// Whether raw dictionary bytes, as SymCC writes them, are a sequence of
    /// complete word records.
    pub fn raw_is_well_formed(raw: &[u8]) -> (r: bool)
        ensures
            r == raw_well_formed(raw@),
    {
        let n = raw.len();
        let mut pos: usize = 0;
        assert(raw@.skip(0) =~= raw@);
        while pos < n
            invariant
                n == raw@.len(),
                pos <= n,
                raw_well_formed(raw@) == raw_well_formed(raw@.skip(pos as int)),
            decreases n - pos,
        {
            let ghost t = raw@.skip(pos as int);
            if n - pos < 8 {
                return false;
            }
            let begin: u64 = raw[pos] as u64 + 0x100 * (raw[pos + 1] as u64) + 0x1_0000 * (raw[pos
                + 2] as u64) + 0x100_0000 * (raw[pos + 3] as u64);
            let end: u64 = raw[pos + 4] as u64 + 0x100 * (raw[pos + 5] as u64) + 0x1_0000 * (raw[pos
                + 6] as u64) + 0x100_0000 * (raw[pos + 7] as u64);
            assert(begin == le_u32_at(t, 0) && end == le_u32_at(t, 4));
            if begin > end {
                return false;
            }
            let need: u64 = 8 + (end - begin) + 1;
            if ((n - pos) as u64) < need {
                return false;
            }
            proof {
                lemma_skip_skip(raw@, pos as int, need as int);
            }
            pos = pos + need as usize;
        }
        true
    }

    /// The words of raw dictionary bytes as SymCC writes them, in file order.
    pub fn from_raw(raw: Vec<u8>) -> (r: SymDict)
        requires
            raw_well_formed(raw@),
        ensures
            r@ == raw_words(raw@),
    {
        let ghost s = raw@;
        let mut reader = bytes_from_vec(raw);
        let mut words: Vec<DictWord> = Vec::new();
        loop
            invariant
                raw_well_formed(bytes_contents(reader)),
                words@.map_values(|w: DictWord| w@) + raw_words(bytes_contents(reader)) == raw_words(s),
            ensures
                words@.map_values(|w: DictWord| w@) == raw_words(s),
            decreases bytes_contents(reader).len(),
        {
            let ghost before = bytes_contents(reader);
            let ghost done = words@.map_values(|w: DictWord| w@);
            match DictWord::decode(&mut reader) {
                Some(w) => {
                    let ghost wv = w@;
                    words.push(w);
                    assert(words@.map_values(|w: DictWord| w@) =~= done.push(wv));
                    assert(raw_words(before) =~= seq![wv] + raw_words(bytes_contents(reader)));
                    assert(done.push(wv) + raw_words(bytes_contents(reader)) =~= done + raw_words(before));
                },
                None => {
                    assert(raw_words(before) =~= Seq::<WordView>::empty());
                    assert(words@.map_values(|w: DictWord| w@) + raw_words(before) =~= words@.map_values(|w: DictWord| w@));
                    break;
                },
            }
        }
        SymDict(words)
    }
}

impl DictWord {
    /// Whether this word comes before `other`: by end, then by begin.
    pub fn precedes(&self, other: &DictWord) -> (r: bool)
        ensures
            r == key_lt(self@, other@),
    {
        self.end < other.end || (self.end == other.end && self.begin < other.begin)
    }
}

proof fn lemma_first_occurrence_extends(ws: Seq<WordView>, c: int, v: WordView)
    requires
        0 <= c < ws.len(),
        first_occurrence_in(ws.take(c), v),
    ensures
        first_occurrence_in(ws.take(c + 1), v),
{
    let t0 = ws.take(c);
    let t1 = ws.take(c + 1);
    let j = choose|j: int| 0 <= j < t0.len() && #[trigger] t0[j] == v && first_of_key(t0, j);
    assert(t1[j] == t0[j]);
    assert forall|k: int| 0 <= k < j implies !#[trigger] same_key(t1[k], t1[j]) by {
        assert(t1[k] == t0[k]);
        assert(!same_key(t0[k], t0[j]));
    }
}

proof fn lemma_insert_sorted(out: Seq<WordView>, w: WordView, p: int)
    requires
        0 <= p <= out.len(),
        sorted_by_key(out),
        forall|q: int| 0 <= q < p ==> key_lt(#[trigger] out[q], w),
        p < out.len() ==> !key_lt(out[p], w) && !same_key(out[p], w),
    ensures
        sorted_by_key(out.insert(p, w)),
        !has_key(out, w),
{
    let o = out.insert(p, w);
    assert forall|q: int| p <= q < out.len() implies key_lt(w, #[trigger] out[q]) by {
        if q > p {
            assert(key_lt(out[p], out[q]));
        }
    }
    assert forall|i: int, j: int| 0 <= i < j < o.len() implies key_lt(#[trigger] o[i], #[trigger] o[j]) by {
        if j < p {
            assert(key_lt(out[i], out[j]));
        } else if j == p {
            assert(key_lt(out[i], w));
        } else if i < p {
            assert(key_lt(out[i], w));
            assert(key_lt(w, out[j - 1]));
        } else if i == p {
            assert(key_lt(w, out[j - 1]));
        } else {
            assert(key_lt(out[i - 1], out[j - 1]));
        }
    }
    assert forall|q: int| 0 <= q < out.len() implies !same_key(#[trigger] out[q], w) by {
        if q < p {
            assert(key_lt(out[q], w));
        } else {
            assert(key_lt(w, out[q]));
        }
    }
}

proof fn lemma_insert_keeps_sorted_dedup(out: Seq<WordView>, ws: Seq<WordView>, c: int, p: int)
    requires
        0 <= c < ws.len(),
        0 <= p <= out.len(),
        sorted_dedup_of(out, ws.take(c)),
        forall|q: int| 0 <= q < p ==> key_lt(#[trigger] out[q], ws[c]),
        p < out.len() ==> !key_lt(out[p], ws[c]) && !same_key(out[p], ws[c]),
    ensures
        sorted_dedup_of(out.insert(p, ws[c]), ws.take(c + 1)),
{
    let w = ws[c];
    let t0 = ws.take(c);
    let t1 = ws.take(c + 1);
    let o = out.insert(p, w);
    lemma_insert_sorted(out, w, p);
    assert forall|i: int| 0 <= i < o.len() implies #[trigger] first_occurrence_in(t1, o[i]) by {
        if i == p {
            assert forall|k: int| 0 <= k < c implies !#[trigger] same_key(t1[k], t1[c]) by {
                assert(t1[k] == t0[k]);
                assert(has_key(out, t0[k]));
                if same_key(t1[k], t1[c]) {
                    let r = choose|r: int| 0 <= r < out.len() && same_key(#[trigger] out[r], t0[k]);
                    assert(same_key(out[r], w));
                    assert(has_key(out, w));
                }
            }
            assert(t1[c] == o[i]);
        } else if i < p {
            assert(o[i] == out[i]);
            assert(first_occurrence_in(t0, out[i]));
            lemma_first_occurrence_extends(ws, c, out[i]);
        } else {
            assert(o[i] == out[i - 1]);
            assert(first_occurrence_in(t0, out[i - 1]));
            lemma_first_occurrence_extends(ws, c, out[i - 1]);
        }
    }
    assert forall|j: int| 0 <= j < t1.len() implies #[trigger] has_key(o, t1[j]) by {
        if j == c {
            assert(same_key(o[p], t1[j]));
        } else {
            assert(t1[j] == t0[j]);
            assert(has_key(out, t0[j]));
            let r = choose|r: int| 0 <= r < out.len() && same_key(#[trigger] out[r], t0[j]);
            if r < p {
                assert(o[r] == out[r]);
                assert(same_key(o[r], t1[j]));
            } else {
                assert(o[r + 1] == out[r]);
                assert(same_key(o[r + 1], t1[j]));
            }
        }
    }
}

proof fn lemma_skip_duplicate_keeps_sorted_dedup(out: Seq<WordView>, ws: Seq<WordView>, c: int, p: int)
    requires
        0 <= c < ws.len(),
        0 <= p < out.len(),
        sorted_dedup_of(out, ws.take(c)),
        same_key(out[p], ws[c]),
    ensures
        sorted_dedup_of(out, ws.take(c + 1)),
{
    let t0 = ws.take(c);
    let t1 = ws.take(c + 1);
    assert forall|i: int| 0 <= i < out.len() implies #[trigger] first_occurrence_in(t1, out[i]) by {
        assert(first_occurrence_in(t0, out[i]));
        lemma_first_occurrence_extends(ws, c, out[i]);
    }
    assert forall|j: int| 0 <= j < t1.len() implies #[trigger] has_key(out, t1[j]) by {
        if j == c {
            assert(same_key(out[p], t1[j]));
        } else {
            assert(t1[j] == t0[j]);
            assert(has_key(out, t0[j]));
        }
    }
}

proof fn lemma_sorted_same_keys(a: Seq<WordView>, b: Seq<WordView>)
    requires
        sorted_by_key(a),
        sorted_by_key(b),
        forall|x: WordView| has_key(a, x) <==> has_key(b, x),
    ensures
        a.len() == b.len(),
        forall|i: int| 0 <= i < a.len() ==> same_key(#[trigger] a[i], b[i]),
    decreases a.len() + b.len(),
{
    if a.len() == 0 {
        if b.len() > 0 {
            assert(same_key(b[0], b[0]));
            assert(has_key(b, b[0]));
        }
    } else if b.len() == 0 {
        assert(same_key(a[0], a[0]));
        assert(has_key(a, a[0]));
    } else {
        assert(same_key(a[0], a[0]) && has_key(a, a[0]));
        assert(same_key(b[0], b[0]) && has_key(b, b[0]));
        let k = choose|k: int| 0 <= k < b.len() && same_key(#[trigger] b[k], a[0]);
        let m = choose|m: int| 0 <= m < a.len() && same_key(#[trigger] a[m], b[0]);
        if k > 0 {
            assert(key_lt(b[0], b[k]));
            if m > 0 {
                assert(key_lt(a[0], a[m]));
            }
        }
        assert(same_key(a[0], b[0]));
        let at = a.drop_first();
        let bt = b.drop_first();
        assert forall|x: WordView| has_key(at, x) <==> has_key(bt, x) by {
            if has_key(at, x) {
                let i = choose|i: int| 0 <= i < at.len() && same_key(#[trigger] at[i], x);
                assert(key_lt(a[0], a[i + 1]));
                assert(same_key(a[i + 1], x));
                assert(has_key(a, x));
                let j = choose|j: int| 0 <= j < b.len() && same_key(#[trigger] b[j], x);
                if j == 0 {
                    assert(false);
                }
                assert(same_key(bt[j - 1], x));
            }
            if has_key(bt, x) {
                let i = choose|i: int| 0 <= i < bt.len() && same_key(#[trigger] bt[i], x);
                assert(key_lt(b[0], b[i + 1]));
                assert(same_key(b[i + 1], x));
                assert(has_key(b, x));
                let j = choose|j: int| 0 <= j < a.len() && same_key(#[trigger] a[j], x);
                if j == 0 {
                    assert(false);
                }
                assert(same_key(at[j - 1], x));
            }
        }
        assert forall|i: int, j: int| 0 <= i < j < at.len() implies key_lt(#[trigger] at[i], #[trigger] at[j]) by {
            assert(key_lt(a[i + 1], a[j + 1]));
        }
        assert forall|i: int, j: int| 0 <= i < j < bt.len() implies key_lt(#[trigger] bt[i], #[trigger] bt[j]) by {
            assert(key_lt(b[i + 1], b[j + 1]));
        }
        lemma_sorted_same_keys(at, bt);
        assert forall|i: int| 0 <= i < a.len() implies same_key(#[trigger] a[i], b[i]) by {
            if i > 0 {
                assert(same_key(at[i - 1], bt[i - 1]));
            }
        }
    }
}

/// A sorted, deduplicated dictionary is determined by the words it was made
/// from: any two results of sorting the same words are equal.
pub proof fn lemma_sorted_dedup_unique(a: Seq<WordView>, b: Seq<WordView>, ws: Seq<WordView>)
    requires
        sorted_dedup_of(a, ws),
        sorted_dedup_of(b, ws),
    ensures
        a == b,
{
    assert forall|x: WordView| has_key(a, x) <==> has_key(b, x) by {
        if has_key(a, x) {
            let i = choose|i: int| 0 <= i < a.len() && same_key(#[trigger] a[i], x);
            assert(first_occurrence_in(ws, a[i]));
            let j = choose|j: int| 0 <= j < ws.len() && #[trigger] ws[j] == a[i] && first_of_key(ws, j);
            assert(has_key(b, ws[j]));
            let r = choose|r: int| 0 <= r < b.len() && same_key(#[trigger] b[r], ws[j]);
            assert(same_key(b[r], x));
        }
        if has_key(b, x) {
            let i = choose|i: int| 0 <= i < b.len() && same_key(#[trigger] b[i], x);
            assert(first_occurrence_in(ws, b[i]));
            let j = choose|j: int| 0 <= j < ws.len() && #[trigger] ws[j] == b[i] && first_of_key(ws, j);
            assert(has_key(a, ws[j]));
            let r = choose|r: int| 0 <= r < a.len() && same_key(#[trigger] a[r], ws[j]);
            assert(same_key(a[r], x));
        }
    }
    lemma_sorted_same_keys(a, b);
    assert forall|i: int| 0 <= i < a.len() implies #[trigger] a[i] == b[i] by {
        assert(same_key(a[i], b[i]));
        assert(first_occurrence_in(ws, a[i]));
        assert(first_occurrence_in(ws, b[i]));
        let j1 = choose|j: int| 0 <= j < ws.len() && #[trigger] ws[j] == a[i] && first_of_key(ws, j);
        let j2 = choose|j: int| 0 <= j < ws.len() && #[trigger] ws[j] == b[i] && first_of_key(ws, j);
        if j1 < j2 {
            assert(!same_key(ws[j1], ws[j2]));
        } else if j2 < j1 {
            assert(!same_key(ws[j2], ws[j1]));
        }
    }
    assert(a =~= b);
}

/// The dictionary that sorting `ws` yields.
pub open spec fn sorted_dictionary(ws: Seq<WordView>) -> Seq<WordView> {
    choose|out: Seq<WordView>| sorted_dedup_of(out, ws)
}

/// A sorted, deduplicated dictionary is its own sorted dictionary: sorting
/// twice gives what sorting once gives.
pub proof fn lemma_sort_idempotent(out: Seq<WordView>, ws: Seq<WordView>)
    requires
        sorted_dedup_of(out, ws),
    ensures
        sorted_dedup_of(out, out),
        sorted_dictionary(out) == out,
{
    assert forall|i: int| 0 <= i < out.len() implies #[trigger] first_occurrence_in(out, out[i]) by {
        assert forall|k: int| 0 <= k < i implies !#[trigger] same_key(out[k], out[i]) by {
            assert(key_lt(out[k], out[i]));
        }
        assert(out[i] == out[i]);
    }
    assert forall|j: int| 0 <= j < out.len() implies #[trigger] has_key(out, out[j]) by {
        assert(same_key(out[j], out[j]));
    }
    assert(sorted_dedup_of(out, out));
    assert(sorted_dedup_of(sorted_dictionary(out), out));
    lemma_sorted_dedup_unique(sorted_dictionary(out), out, out);
}

impl SymDict {
    /// Sorts the words by end, then by begin, keeping of the words with the
    /// same begin and end only the first.
    pub fn sort(&mut self)
        ensures
            sorted_dedup_of(final(self)@, old(self)@),
            final(self)@ == sorted_dictionary(old(self)@),
    {
        let mut input: Vec<DictWord> = Vec::new();
        std::mem::swap(&mut input, &mut self.0);
        let ghost ws = input@.map_values(|w: DictWord| w@);
        assert(ws == old(self)@);
        let n = input.len();
        let mut out: Vec<DictWord> = Vec::new();
        let mut c: usize = 0;
        assert(ws.take(0) =~= Seq::<WordView>::empty());
        while c < n
            invariant
                n == ws.len(),
                c <= n,
                input@.map_values(|w: DictWord| w@) == ws.skip(c as int),
                sorted_dedup_of(out@.map_values(|w: DictWord| w@), ws.take(c as int)),
            decreases n - c,
        {
            let ghost o = out@.map_values(|w: DictWord| w@);
            assert(input@.map_values(|w: DictWord| w@).len() == input@.len());
            assert(input@.len() == n - c);
            assert(input@.map_values(|w: DictWord| w@)[0] == input@[0]@);
            let ghost before = input@;
            let w = input.remove(0);
            assert(w@ == ws[c as int]);
            assert forall|i: int| 0 <= i < input@.len() implies #[trigger] input@[i]@ == ws.skip(c + 1 as int)[i] by {
                assert(input@[i] == before[i + 1]);
                assert(before.map_values(|w: DictWord| w@)[i + 1] == before[i + 1]@);
            }
            assert(input@.map_values(|w: DictWord| w@) =~= ws.skip(c + 1 as int));
            let mut p: usize = 0;
            while p < out.len() && out[p].precedes(&w)
                invariant
                    p <= out@.len(),
                    o == out@.map_values(|w: DictWord| w@),
                    forall|q: int| 0 <= q < p ==> key_lt(#[trigger] o[q], w@),
                decreases out@.len() - p,
            {
                p = p + 1;
            }
            if p < out.len() && out[p].begin == w.begin && out[p].end == w.end {
                proof {
                    lemma_skip_duplicate_keeps_sorted_dedup(o, ws, c as int, p as int);
                }
            } else {
                proof {
                    lemma_insert_keeps_sorted_dedup(o, ws, c as int, p as int);
                }
                out.insert(p, w);
                assert(out@.map_values(|w: DictWord| w@) =~= o.insert(p as int, ws[c as int]));
            }
            c = c + 1;
        }
        assert(ws.take(n as int) =~= ws);
        self.0 = out;
        proof {
            assert(sorted_dedup_of(sorted_dictionary(ws), ws));
            lemma_sorted_dedup_unique(self@, sorted_dictionary(ws), ws);
        }
    }
}

proof fn lemma_raw_words_ordered(s: Seq<u8>)
    ensures
        forall|i: int| 0 <= i < raw_words(s).len() ==> (#[trigger] raw_words(s)[i]).0 <= raw_words(s)[i].1,
    decreases s.len(),
{
    if s.len() != 0 && raw_record_fits(s) {
        let rest = s.skip(raw_record_len(s));
        lemma_raw_words_ordered(rest);
        assert forall|i: int| 0 <= i < raw_words(s).len() implies (#[trigger] raw_words(s)[i]).0 <= raw_words(s)[i].1 by {
            if i > 0 {
                assert(raw_words(s)[i] == raw_words(rest)[i - 1]);
            }
        }
    }
}

impl SymDict {
    /// The trimmed dictionary file for these words: the number of words, then
    /// the encodings of the words whose end lies less than 255 past their begin.
    pub fn to_bytes(&self) -> (r: Vec<u8>)
        requires
            forall|i: int| 0 <= i < self@.len() ==> (#[trigger] self@[i]).0 <= self@[i].1,
        ensures
            r@ == dict_bytes(self@),
    {
        let mut buf: Vec<u8> = Vec::new();
        let count = (self.0.len() as u64 % 0x1_0000_0000) as u32;
        vec_put_u32_le(&mut buf, count);
        let ghost header = buf@;
        let n = self.0.len();
        let mut i: usize = 0;
        assert(self@.take(0) =~= Seq::<WordView>::empty());
        while i < n
            invariant
                n == self@.len(),
                i <= n,
                forall|k: int| 0 <= k < self@.len() ==> (#[trigger] self@[k]).0 <= self@[k].1,
                buf@ == header + encoded_words(self@.take(i as int)),
            decreases n - i,
        {
            let word = &self.0[i];
            assert(self@[i as int] == word@);
            assert(self@.take(i + 1 as int).drop_last() =~= self@.take(i as int));
            assert(self@.take(i + 1 as int).last() == word@);
            if word.end - word.begin < 255 {
                let mut enc = word.encode();
                buf.append(&mut enc);
                assert(buf@ =~= header + encoded_words(self@.take(i + 1 as int)));
            }
            i = i + 1;
        }
        assert(self@.take(n as int) =~= self@);
        buf
    }

    /// Trims a raw dictionary as SymCC writes it: reads its words, sorts them
    /// by end and begin keeping the first word per (begin, end), and encodes
    /// the result as a trimmed dictionary file.
    pub fn trim_symdict(raw: Vec<u8>) -> (r: Vec<u8>)
        requires
            raw_well_formed(raw@),
        ensures
            r@ == dict_bytes(sorted_dictionary(raw_words(raw@))),
    {
        let ghost ws = raw_words(raw@);
        let mut dict = SymDict::from_raw(raw);
        dict.sort();
        proof {
            lemma_raw_words_ordered(raw@);
            assert(sorted_dedup_of(sorted_dictionary(ws), ws));
            lemma_sorted_dedup_unique(dict@, sorted_dictionary(ws), ws);
            assert forall|i: int| 0 <= i < dict@.len() implies (#[trigger] dict@[i]).0 <= dict@[i].1 by {
                assert(first_occurrence_in(ws, dict@[i]));
                let j = choose|j: int| 0 <= j < ws.len() && #[trigger] ws[j] == dict@[i] && first_of_key(ws, j);
                assert(ws[j].0 <= ws[j].1);
            }
        }
        dict.to_bytes()
    }
}

} // verus!

verus! {

proof fn lemma_le_bytes_round_trip(n: u32)
    ensures
        le_bytes_u32(n).len() == 4,
        le_u32_at(le_bytes_u32(n), 0) == n,
{
    let s = le_bytes_u32(n);
    let x = n as int;
    assert(s[0] == x % 0x100 && s[1] == (x / 0x100) % 0x100 && s[2] == (x / 0x1_0000) % 0x100 && s[3]
        == x / 0x100_0000);
    assert(x % 0x100 + 0x100 * ((x / 0x100) % 0x100) + 0x1_0000 * ((x / 0x1_0000) % 0x100)
        + 0x100_0000 * (x / 0x100_0000) == x) by (nonlinear_arith)
        requires
            0 <= x < 0x1_0000_0000,
    {
        assert(x == 0x100 * (x / 0x100) + x % 0x100);
        assert(x / 0x100 == 0x100 * (x / 0x1_0000) + (x / 0x100) % 0x100);
        assert(x / 0x1_0000 == 0x100 * (x / 0x100_0000) + (x / 0x1_0000) % 0x100);
    }
}

/// The encoding of a word reads back as the word: its begin and its end as
/// little-endian 32-bit numbers, then the low byte of the data's length, then
/// the data itself.
pub proof fn lemma_encoded_word_layout(w: WordView)
    ensures
        encoded_word(w).len() == 9 + w.2.len(),
        le_u32_at(encoded_word(w), 0) == w.0,
        le_u32_at(encoded_word(w), 4) == w.1,
        encoded_word(w)[8] as int == w.2.len() % 256,
        encoded_word(w).skip(9) == w.2,
{
    let e = encoded_word(w);
    lemma_le_bytes_round_trip(w.0);
    lemma_le_bytes_round_trip(w.1);
    let b = le_bytes_u32(w.0);
    let c = le_bytes_u32(w.1);
    assert(e[0] == b[0] && e[1] == b[1] && e[2] == b[2] && e[3] == b[3]);
    assert(e[4] == c[0] && e[5] == c[1] && e[6] == c[2] && e[7] == c[3]);
    assert(e.skip(9) =~= w.2);
}

/// A trimmed dictionary keeps a word exactly when its end lies less than 255
/// past its begin: encoding one more word appends its encoding if so, and
/// nothing otherwise.
pub proof fn lemma_trimmed_words_step(ws: Seq<WordView>, w: WordView)
    ensures
        encoded_words(Seq::<WordView>::empty()) == Seq::<u8>::empty(),
        encoded_words(ws.push(w)) == encoded_words(ws) + if w.1 - w.0 < 255 {
            encoded_word(w)
        } else {
            Seq::<u8>::empty()
        },
{
    assert(ws.push(w).drop_last() =~= ws);
    if !(w.1 - w.0 < 255) {
        assert(encoded_words(ws) + Seq::<u8>::empty() =~= encoded_words(ws));
    }
}

/// A trimmed dictionary file starts with the number of words (modulo 2^32,
/// little-endian), all of them, short or not, followed by the encodings of
/// the words it keeps.
pub proof fn lemma_dict_bytes_layout(ws: Seq<WordView>)
    ensures
        dict_bytes(ws).len() >= 4,
        le_u32_at(dict_bytes(ws), 0) == ws.len() % 0x1_0000_0000,
        dict_bytes(ws).skip(4) == encoded_words(ws),
{
    let n = (ws.len() % 0x1_0000_0000) as u32;
    lemma_le_bytes_round_trip(n);
    let d = dict_bytes(ws);
    let h = le_bytes_u32(n);
    assert(d[0] == h[0] && d[1] == h[1] && d[2] == h[2] && d[3] == h[3]);
    assert(d.skip(4) =~= encoded_words(ws));
}

} // verus!
