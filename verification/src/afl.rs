use vstd::prelude::*;
use crate::buf::{be_u32_at, bytes_contents, bytes_from_vec, bytes_get_u32};
use std::collections::{HashMap, HashSet};

verus! {

/// Why two coverage maps could not be merged.
#[derive(Debug, PartialEq, Eq)]
pub enum MergeError {
    /// The AFL edge maps have different sizes.
    CoverageMapSize { known: usize, new: usize },
    /// The basic-block bitmaps have different sizes.
    BitmapSize { known: usize, new: usize },
}

/// Whether bit `bit` (counted from the least significant end) of `word` is set.
pub open spec fn bit_is_set(word: u64, bit: u32) -> bool {
    (word >> bit) & 1u64 != 0
}

/// Membership of a block id in a word-packed bitmap: bit `index % 64` of word `index / 64`.
pub open spec fn bitmap_contains(words: Seq<u64>, index: u32) -> bool {
    &&& (index / 64) < words.len()
    &&& bit_is_set(words[(index / 64) as int], (index % 64) as u32)
}

/// The words after setting bit `index`; out-of-range indices leave the words alone.
pub open spec fn bitmap_with(words: Seq<u64>, index: u32) -> Seq<u64> {
    let w = (index / 64) as int;
    if w < words.len() {
        words.update(w, words[w] | (1u64 << ((index % 64) as u64)))
    } else {
        words
    }
}

/// The words after clearing bit `index`; out-of-range indices leave the words alone.
pub open spec fn bitmap_without(words: Seq<u64>, index: u32) -> Seq<u64> {
    let w = (index / 64) as int;
    if w < words.len() {
        words.update(w, words[w] & !(1u64 << ((index % 64) as u64)))
    } else {
        words
    }
}

/// Pointwise union of two word sequences of the same length.
pub open spec fn or_words(known: Seq<u64>, new: Seq<u64>) -> Seq<u64> {
    Seq::new(known.len(), |i: int| known[i] | new[i])
}

/// Whether `new` holds a bit that `known` lacks.
pub open spec fn words_gain(known: Seq<u64>, new: Seq<u64>) -> bool {
    exists|i: int| 0 <= i < known.len() && #[trigger] (known[i] | new[i]) != known[i]
}

/// The little-endian value of the eight bytes starting at `8 * i`.
pub open spec fn le_word(bytes: Seq<u8>, i: int) -> int {
    let b = 8 * i;
    bytes[b] + 0x100 * bytes[b + 1] + 0x1_0000 * bytes[b + 2] + 0x100_0000 * bytes[b + 3]
        + 0x1_0000_0000 * bytes[b + 4] + 0x100_0000_0000 * bytes[b + 5] + 0x1_0000_0000_0000
        * bytes[b + 6] + 0x100_0000_0000_0000 * bytes[b + 7]
}

proof fn lemma_bit_of_or(x: u64, y: u64, b: u32)
    requires
        b < 64,
    ensures
        bit_is_set(x | y, b) == (bit_is_set(x, b) || bit_is_set(y, b)),
{
    assert(((x | y) >> b) & 1u64 != 0 <==> ((x >> b) & 1u64 != 0 || (y >> b) & 1u64 != 0))
        by (bit_vector)
        requires
            b < 64,
    ;
}

proof fn lemma_bit_of_single(x: u64, a: u32, b: u32)
    requires
        a < 64,
        b < 64,
    ensures
        bit_is_set(x | (1u64 << (a as u64)), b) == (a == b || bit_is_set(x, b)),
        bit_is_set(x & !(1u64 << (a as u64)), b) == (a != b && bit_is_set(x, b)),
{
    assert(((x | (1u64 << (a as u64))) >> b) & 1u64 != 0 <==> (a == b || (x >> b) & 1u64 != 0))
        by (bit_vector)
        requires
            a < 64,
            b < 64,
    ;
    assert(((x & !(1u64 << (a as u64))) >> b) & 1u64 != 0 <==> (a != b && (x >> b) & 1u64 != 0))
        by (bit_vector)
        requires
            a < 64,
            b < 64,
    ;
}

/// Setting a block makes it present and clearing it makes it absent; neither
/// changes whether any other block is present.
pub proof fn lemma_set_and_unset(words: Seq<u64>, index: u32, other: u32)
    requires
        (index / 64) < words.len(),
    ensures
        bitmap_contains(bitmap_with(words, index), index),
        !bitmap_contains(bitmap_without(words, index), index),
        other != index ==> bitmap_contains(bitmap_with(words, index), other) == bitmap_contains(
            words,
            other,
        ),
        other != index ==> bitmap_contains(bitmap_without(words, index), other)
            == bitmap_contains(words, other),
{
    let w = (index / 64) as int;
    lemma_bit_of_single(words[w], (index % 64) as u32, (index % 64) as u32);
    if other / 64 == index / 64 {
        lemma_bit_of_single(words[w], (index % 64) as u32, (other % 64) as u32);
        if other != index {
            assert(other % 64 != index % 64);
        }
    }
}

/// The union of two bitmaps of the same size holds exactly the blocks held by either.
pub proof fn lemma_or_words_is_union(known: Seq<u64>, new: Seq<u64>, index: u32)
    requires
        known.len() == new.len(),
    ensures
        bitmap_contains(or_words(known, new), index) == (bitmap_contains(known, index)
            || bitmap_contains(new, index)),
{
    if (index / 64) < known.len() {
        lemma_bit_of_or(known[(index / 64) as int], new[(index / 64) as int], (index % 64) as u32);
    }
}

/// Merging reports a gain exactly when the union differs from what was known.
pub proof fn lemma_words_gain_iff_changed(known: Seq<u64>, new: Seq<u64>)
    requires
        known.len() == new.len(),
    ensures
        words_gain(known, new) <==> or_words(known, new) != known,
{
    if words_gain(known, new) {
        let i = choose|i: int| 0 <= i < known.len() && #[trigger] (known[i] | new[i]) != known[i];
        assert(or_words(known, new)[i] != known[i]);
    } else {
        assert(or_words(known, new) =~= known);
    }
}

/// A bitmap of basic blocks, packed into 64-bit words.
pub struct BitMap(pub Vec<u64>);

impl View for BitMap {
    type V = Seq<u64>;

    open spec fn view(&self) -> Seq<u64> {
        self.0@
    }
}

impl BitMap {
    /// An empty bitmap (no words yet) for a map of `map_size` bytes.
    pub fn new(map_size: usize) -> (r: Self)
        requires
            map_size % 8 == 0,
        ensures
            r@ == Seq::<u64>::empty(),
    {
        let inner = Vec::with_capacity(map_size / 64);
        BitMap(inner)
    }

    /// Reads a byte buffer as 64-bit words, eight little-endian bytes per word.
    pub fn from_u8(from: Vec<u8>) -> (r: Self)
        requires
            from.len() % 8 == 0,
        ensures
            r@.len() == from.len() / 8,
            forall|i: int| 0 <= i < r@.len() ==> #[trigger] r@[i] as int == le_word(from@, i),
    {
        let n = from.len() / 8;
        let mut words: Vec<u64> = Vec::with_capacity(n);
        let mut i: usize = 0;
        while i < n
            invariant
                n == from.len() / 8,
                from.len() % 8 == 0,
                i <= n,
                words@.len() == i,
                forall|j: int| 0 <= j < i ==> #[trigger] words@[j] as int == le_word(from@, j),
            decreases n - i,
        {
            let b = 8 * i;
            let w: u64 = from[b] as u64 + 0x100 * (from[b + 1] as u64) + 0x1_0000 * (
            from[b + 2] as u64) + 0x100_0000 * (from[b + 3] as u64) + 0x1_0000_0000 * (from[b
                + 4] as u64) + 0x100_0000_0000 * (from[b + 5] as u64) + 0x1_0000_0000_0000 * (
            from[b + 6] as u64) + 0x100_0000_0000_0000 * (from[b + 7] as u64);
            words.push(w);
            i = i + 1;
        }
        BitMap(words)
    }

    /// Merges `other` into this bitmap by bitwise union.
    ///
    /// Returns whether `other` held a bit that was not yet set here. Bitmaps of
    /// different sizes are refused, and this bitmap is then left unchanged.
    pub fn merge_vec(&mut self, other: Self) -> (r: Result<bool, MergeError>)
        ensures
            old(self)@.len() != other@.len() ==> {
                &&& r == Err::<bool, MergeError>(
                    MergeError::BitmapSize { known: old(self)@.len() as usize, new: other@.len() as usize },
                )
                &&& final(self)@ == old(self)@
            },
            old(self)@.len() == other@.len() ==> {
                &&& r == Ok::<bool, MergeError>(words_gain(old(self)@, other@))
                &&& final(self)@ == or_words(old(self)@, other@)
            },
    {
        if self.0.len() != other.0.len() {
            return Err(MergeError::BitmapSize { known: self.0.len(), new: other.0.len() });
        }
        let mut interesting = false;
        let n = self.0.len();
        let ghost start = self@;
        let mut i: usize = 0;
        while i < n
            invariant
                n == self@.len(),
                n == other@.len(),
                n == start.len(),
                start == old(self)@,
                i <= n,
                forall|j: int| 0 <= j < i ==> #[trigger] self@[j] == start[j] | other@[j],
                forall|j: int| i <= j < n ==> #[trigger] self@[j] == start[j],
                interesting <==> exists|j: int|
                    0 <= j < i && #[trigger] (start[j] | other@[j]) != start[j],
            decreases n - i,
        {
            let known = self.0[i];
            let new = other.0[i];
            if known != (known | new) {
                self.0.set(i, known | new);
                interesting = true;
            }
            i = i + 1;
        }
        assert(self@ =~= or_words(old(self)@, other@));
        Ok(interesting)
    }

    /// Whether block `index` is set.
    ///
    /// An index past the end of the words reads as unset. The index whose
    /// word lies exactly one past the end is not accepted.
    pub fn contains(&self, index: u32) -> (r: bool)
        requires
            (index / 64) != self@.len(),
        ensures
            r == bitmap_contains(self@, index),
    {
        let word = index >> 6;
        let bit = index & 63;
        assert(index >> 6u32 == index / 64 && index & 63u32 == index % 64) by (bit_vector);
        if word as usize > self.0.len() {
            return false;
        }
        let x = self.0[word as usize];
        (x >> bit) & 1 != 0
    }

    /// Sets block `index`; an index past the end of the words is ignored.
    /// The index whose word lies exactly one past the end is not accepted.
    pub fn set(&mut self, index: u32)
        requires
            (index / 64) != old(self)@.len(),
        ensures
            final(self)@ == bitmap_with(old(self)@, index),
    {
        let word = index >> 6;
        let bit = index & 63;
        assert(index >> 6u32 == index / 64 && index & 63u32 == index % 64) by (bit_vector);
        if word as usize > self.0.len() {
            return;
        }
        let x = self.0[word as usize];
        self.0.set(word as usize, x | (1u64 << bit));
    }

    /// Clears block `index`; an index past the end of the words is ignored.
    /// The index whose word lies exactly one past the end is not accepted.
    pub fn unset(&mut self, index: u32)
        requires
            (index / 64) != old(self)@.len(),
        ensures
            final(self)@ == bitmap_without(old(self)@, index),
    {
        let word = index >> 6;
        let bit = index & 63;
        assert(index >> 6u32 == index / 64 && index & 63u32 == index % 64) by (bit_vector);
        if word as usize > self.0.len() {
            return;
        }
        let x = self.0[word as usize];
        self.0.set(word as usize, x & !(1u64 << bit));
    }
}

} // verus!

verus! {

/// Pointwise union of two byte maps of the same length.
pub open spec fn or_bytes(known: Seq<u8>, new: Seq<u8>) -> Seq<u8> {
    Seq::new(known.len(), |i: int| known[i] | new[i])
}

/// Whether `new` holds a bit that `known` lacks.
pub open spec fn bytes_gain(known: Seq<u8>, new: Seq<u8>) -> bool {
    exists|i: int| 0 <= i < known.len() && #[trigger] (known[i] | new[i]) != known[i]
}

/// The model of an [`AflMap`]: the edge map and the basic-block bitmap, each possibly absent.
pub type AflMapView = (Option<Seq<u8>>, Option<Seq<u64>>);

/// Outcome of merging basic-block bitmaps: the new bitmap and the reported gain.
pub open spec fn bitmap_merge_outcome(known: Option<Seq<u64>>, new: Option<Seq<u64>>) -> (
    Option<Seq<u64>>,
    Result<bool, MergeError>,
) {
    match (known, new) {
        (Some(k), Some(n)) => if k.len() == n.len() {
            (Some(or_words(k, n)), Ok(words_gain(k, n)))
        } else {
            (known, Err(MergeError::BitmapSize { known: k.len() as usize, new: n.len() as usize }))
        },
        _ => (known, Ok(false)),
    }
}

/// Outcome of merging coverage map `other` into `known`: the new map and the result.
///
/// Edge maps are united bytewise, then bitmaps are united. When the edge maps
/// have different sizes nothing changes; when only the bitmaps differ in size,
/// the edge maps have already been united. A map without an edge map is
/// replaced wholesale by `other`.
pub open spec fn merge_outcome(known: AflMapView, other: AflMapView) -> (
    AflMapView,
    Result<bool, MergeError>,
) {
    match (known.0, other.0) {
        (Some(d), Some(n)) => if d.len() == n.len() {
            let (bb, rb) = bitmap_merge_outcome(known.1, other.1);
            (
                (Some(or_bytes(d, n)), bb),
                match rb {
                    Ok(g) => Ok(bytes_gain(d, n) || g),
                    Err(e) => Err(e),
                },
            )
        } else {
            (known, Err(MergeError::CoverageMapSize { known: d.len() as usize, new: n.len() as usize }))
        },
        (None, Some(n)) => (other, Ok(true)),
        _ => (known, Ok(false)),
    }
}

/// The edge-map slot that AFL assigns to the transition between two blocks.
pub open spec fn spec_edge_hash(from: u32, to: u32) -> usize {
    ((from >> 1u32) ^ to) as usize
}

/// A coverage map as used by AFL.
pub struct AflMap {
    pub data: Option<Vec<u8>>,
    pub bb_bitmap: Option<BitMap>,
}

impl View for AflMap {
    type V = AflMapView;

    open spec fn view(&self) -> AflMapView {
        (
            match self.data {
                Some(d) => Some(d@),
                None => None,
            },
            match self.bb_bitmap {
                Some(b) => Some(b@),
                None => None,
            },
        )
    }
}

fn or_into_bytes(known: &mut Vec<u8>, new: &Vec<u8>) -> (gain: bool)
    requires
        old(known)@.len() == new@.len(),
    ensures
        final(known)@ == or_bytes(old(known)@, new@),
        gain == bytes_gain(old(known)@, new@),
{
    let mut interesting = false;
    let n = known.len();
    let ghost start = known@;
    let mut i: usize = 0;
    while i < n
        invariant
            n == known@.len(),
            n == new@.len(),
            n == start.len(),
            start == old(known)@,
            i <= n,
            forall|j: int| 0 <= j < i ==> #[trigger] known@[j] == start[j] | new@[j],
            forall|j: int| i <= j < n ==> #[trigger] known@[j] == start[j],
            interesting <==> exists|j: int| 0 <= j < i && #[trigger] (start[j] | new@[j]) != start[j],
        decreases n - i,
    {
        let k = known[i];
        let m = new[i];
        if k != (k | m) {
            known.set(i, k | m);
            interesting = true;
        }
        i = i + 1;
    }
    assert(known@ =~= or_bytes(start, new@));
    interesting
}

impl AflMap {
    /// Create an empty map.
    pub fn new() -> (r: AflMap)
        ensures
            r@ == (None::<Seq<u8>>, None::<Seq<u64>>),
    {
        AflMap { data: None, bb_bitmap: None }
    }

    /// A map built from the contents of the two files that afl-showmap writes:
    /// the edge map and the basic-block bitmap (read as little-endian words).
    pub fn from_contents(data: Vec<u8>, bb_bitmap: Vec<u8>, map_size: usize) -> (r: AflMap)
        requires
            data.len() <= map_size,
            bb_bitmap.len() % 8 == 0,
        ensures
            r@.0 == Some(data@),
            r@.1 matches Some(words) && words.len() == bb_bitmap.len() / 8 && forall|i: int|
                0 <= i < words.len() ==> #[trigger] words[i] as int == le_word(bb_bitmap@, i),
    {
        let bb = BitMap::from_u8(bb_bitmap);
        AflMap { data: Some(data), bb_bitmap: Some(bb) }
    }

    /// Merge an edge map into this one in place; a map without an edge map is left alone.
    fn merge_vec(&mut self, new_data: Vec<u8>) -> (r: Result<bool, MergeError>)
        ensures
            final(self).bb_bitmap == old(self).bb_bitmap,
            match old(self)@.0 {
                None => r == Ok::<bool, MergeError>(false) && final(self)@ == old(self)@,
                Some(d) => if d.len() == new_data@.len() {
                    &&& r == Ok::<bool, MergeError>(bytes_gain(d, new_data@))
                    &&& final(self)@.0 == Some(or_bytes(d, new_data@))
                } else {
                    &&& r == Err::<bool, MergeError>(
                        MergeError::CoverageMapSize { known: d.len() as usize, new: new_data@.len() as usize },
                    )
                    &&& final(self)@ == old(self)@
                },
            },
    {
        let mut data = match self.data.take() {
            Some(d) => d,
            None => return Ok(false),
        };
        if data.len() != new_data.len() {
            let known = data.len();
            self.data = Some(data);
            return Err(MergeError::CoverageMapSize { known, new: new_data.len() });
        }
        let gain = or_into_bytes(&mut data, &new_data);
        self.data = Some(data);
        Ok(gain)
    }

    /// Merge a basic-block bitmap into this map's bitmap in place.
    fn merge_bitmap(&mut self, new_data: Option<BitMap>) -> (r: Result<bool, MergeError>)
        ensures
            final(self).data == old(self).data,
            (final(self)@.1, r) == bitmap_merge_outcome(
                old(self)@.1,
                match new_data {
                    Some(b) => Some(b@),
                    None => None,
                },
            ),
    {
        let new_bitmap = match new_data {
            Some(b) => b,
            None => return Ok(false),
        };
        let mut bitmap = match self.bb_bitmap.take() {
            Some(b) => b,
            None => return Ok(false),
        };
        let r = bitmap.merge_vec(new_bitmap);
        self.bb_bitmap = Some(bitmap);
        r
    }

    /// Merge with another coverage map in place.
    ///
    /// Return true if the map has changed, i.e., if the other map yielded new
    /// coverage.
    pub fn merge(&mut self, other: AflMap) -> (r: Result<bool, MergeError>)
        ensures
            (final(self)@, r) == merge_outcome(old(self)@, other@),
    {
        let AflMap { data: other_data, bb_bitmap: other_bitmap } = other;
        match other_data {
            Some(new_data) => {
                if self.data.is_some() {
                    let g1 = match self.merge_vec(new_data) {
                        Ok(g) => g,
                        Err(e) => return Err(e),
                    };
                    let g2 = match self.merge_bitmap(other_bitmap) {
                        Ok(g) => g,
                        Err(e) => return Err(e),
                    };
                    Ok(g1 || g2)
                } else {
                    self.data = Some(new_data);
                    self.bb_bitmap = other_bitmap;
                    Ok(true)
                }
            },
            None => Ok(false),
        }
    }

    /// The edge-map slot that AFL assigns to the transition from `from` to `to`.
    pub fn edge_hash(from: &u32, to: &u32) -> (r: usize)
        ensures
            r == spec_edge_hash(*from, *to),
    {
        ((*from >> 1) ^ *to) as usize
    }

    /// Whether the transition from `from` to `to` is covered; a map without an
    /// edge map covers nothing. The transition's slot must lie within the edge map.
    pub fn is_covered(&self, from: &u32, to: &u32) -> (r: bool)
        requires
            self@.0 matches Some(d) ==> spec_edge_hash(*from, *to) < d.len(),
        ensures
            r == (self@.0 matches Some(d) && d[spec_edge_hash(*from, *to) as int] != 0),
    {
        match &self.data {
            Some(inner) => inner[Self::edge_hash(from, to)] != 0,
            None => false,
        }
    }
}

} // verus!

verus! {

proof fn lemma_bytes_gain_iff_changed(known: Seq<u8>, new: Seq<u8>)
    requires
        known.len() == new.len(),
    ensures
        bytes_gain(known, new) <==> or_bytes(known, new) != known,
{
    if bytes_gain(known, new) {
        let i = choose|i: int| 0 <= i < known.len() && #[trigger] (known[i] | new[i]) != known[i];
        assert(or_bytes(known, new)[i] != known[i]);
    } else {
        assert(or_bytes(known, new) =~= known);
    }
}

proof fn lemma_or_bytes_absorbs(known: Seq<u8>, new: Seq<u8>)
    requires
        known.len() == new.len(),
    ensures
        or_bytes(or_bytes(known, new), new) == or_bytes(known, new),
        !bytes_gain(or_bytes(known, new), new),
{
    let m = or_bytes(known, new);
    assert forall|i: int| 0 <= i < m.len() implies #[trigger] (m[i] | new[i]) == m[i] by {
        let a = known[i];
        let b = new[i];
        assert(((a | b) | b) == (a | b)) by (bit_vector);
    }
    assert(or_bytes(m, new) =~= m);
}

proof fn lemma_or_words_absorbs(known: Seq<u64>, new: Seq<u64>)
    requires
        known.len() == new.len(),
    ensures
        or_words(or_words(known, new), new) == or_words(known, new),
        !words_gain(or_words(known, new), new),
{
    let m = or_words(known, new);
    assert forall|i: int| 0 <= i < m.len() implies #[trigger] (m[i] | new[i]) == m[i] by {
        let a = known[i];
        let b = new[i];
        assert(((a | b) | b) == (a | b)) by (bit_vector);
    }
    assert(or_words(m, new) =~= m);
}

/// `merge` returns true exactly when it changes the map.
pub proof fn lemma_merge_reports_change(known: AflMapView, other: AflMapView)
    ensures
        merge_outcome(known, other).1 matches Ok(changed) ==> (changed <==> merge_outcome(
            known,
            other,
        ).0 != known),
{
    if let (Some(d), Some(n)) = (known.0, other.0) {
        if d.len() == n.len() {
            lemma_bytes_gain_iff_changed(d, n);
            if let (Some(k), Some(b)) = (known.1, other.1) {
                if k.len() == b.len() {
                    lemma_words_gain_iff_changed(k, b);
                }
            }
        }
    }
}

/// Merging the same map a second time yields no new coverage and changes nothing.
pub proof fn lemma_merge_idempotent(known: AflMapView, other: AflMapView)
    requires
        merge_outcome(known, other).1 is Ok,
    ensures
        merge_outcome(merge_outcome(known, other).0, other) == (
            merge_outcome(known, other).0,
            Ok::<bool, MergeError>(false),
        ),
{
    let once = merge_outcome(known, other).0;
    match (known.0, other.0) {
        (Some(d), Some(n)) => {
            lemma_or_bytes_absorbs(d, n);
            if let (Some(k), Some(b)) = (known.1, other.1) {
                lemma_or_words_absorbs(k, b);
            }
        },
        (None, Some(n)) => {
            lemma_or_bytes_absorbs(n, n);
            assert(or_bytes(n, n) =~= n) by {
                assert forall|i: int| 0 <= i < n.len() implies #[trigger] (n[i] | n[i]) == n[i] by {
                    let a = n[i];
                    assert((a | a) == a) by (bit_vector);
                }
            }
            if let Some(b) = other.1 {
                lemma_or_words_absorbs(b, b);
                assert(or_words(b, b) =~= b) by {
                    assert forall|i: int| 0 <= i < b.len() implies #[trigger] (b[i] | b[i]) == b[i] by {
                        let a = b[i];
                        assert((a | a) == a) by (bit_vector);
                    }
                }
            }
        },
        _ => {},
    }
}

/// After a successful merge of two edge maps, a transition slot is covered
/// exactly when either map covered it.
pub proof fn lemma_merge_covers_union(known: AflMapView, other: AflMapView, i: int)
    requires
        known.0 is Some,
        other.0 is Some,
        merge_outcome(known, other).1 is Ok,
        0 <= i < known.0->0.len(),
    ensures
        merge_outcome(known, other).0.0 is Some,
        merge_outcome(known, other).0.0->0[i] != 0 <==> (known.0->0[i] != 0 || other.0->0[i]
            != 0),
{
    let a = known.0->0[i];
    let b = other.0->0[i];
    assert((a | b) != 0 <==> (a != 0 || b != 0)) by (bit_vector);
}

} // verus!

verus! {

broadcast use vstd::std_specs::hash::group_hash_axioms;

/// The sons listed in an edge-file line: the big-endian words after the
/// parent and the count, `count` of them.
pub open spec fn line_sons(line: Seq<u8>, count: int) -> Set<u32> {
    Set::new(|x: u32| exists|k: int| 0 <= k < count && #[trigger] be_u32_at(line, 8 + 4 * k) == x)
}

/// Whether an edge-file line holds a parent, a count, and as many sons as the count says.
pub open spec fn line_is_complete(line: Seq<u8>) -> bool {
    line.len() >= 8 && line.len() >= 8 + 4 * be_u32_at(line, 4)
}

/// The conditional-branch edges of the program: for each block, the blocks it may branch to.
pub struct EdgeMap(pub HashMap<u32, HashSet<u32>>);

impl EdgeMap {
    /// The edges as a map from a block to the set of its successors.
    pub open spec fn edges(&self) -> Map<u32, Set<u32>> {
        Map::new(|k: u32| self.0@.contains_key(k), |k: u32| self.0@[k]@)
    }

    /// A map without any edge.
    pub fn new() -> (r: EdgeMap)
        ensures
            r.edges() == Map::<u32, Set<u32>>::empty(),
    {
        let r = EdgeMap(HashMap::new());
        assert(r.edges() =~= Map::<u32, Set<u32>>::empty());
        r
    }

    /// Whether `line` can be read by [`EdgeMap::add_line`].
    pub fn line_is_complete(line: &Vec<u8>) -> (r: bool)
        ensures
            r == line_is_complete(line@),
    {
        if line.len() < 8 {
            return false;
        }
        let count: u64 = 0x100_0000 * (line[4] as u64) + 0x1_0000 * (line[5] as u64) + 0x100 * (
        line[6] as u64) + line[7] as u64;
        (line.len() as u64) >= 8 + 4 * count
    }

    /// Reads one line of the edge file: a big-endian parent id, a big-endian
    /// count, then that many big-endian son ids. The parent's successors
    /// become exactly those sons, replacing any earlier entry; bytes after the
    /// last son are ignored.
    pub fn add_line(&mut self, line: Vec<u8>)
        requires
            line_is_complete(line@),
        ensures
            final(self).edges() == old(self).edges().insert(
                be_u32_at(line@, 0) as u32,
                line_sons(line@, be_u32_at(line@, 4)),
            ),
    {
        let ghost s = line@;
        let mut buf = bytes_from_vec(line);
        let parent_id = bytes_get_u32(&mut buf);
        let num_son = bytes_get_u32(&mut buf);
        assert(bytes_contents(buf) =~= s.skip(8));
        let mut sons: HashSet<u32> = HashSet::new();
        let mut k: u32 = 0;
        while k < num_son
            invariant
                num_son as int == be_u32_at(s, 4),
                s.len() >= 8 + 4 * num_son,
                k <= num_son,
                bytes_contents(buf) == s.skip(8 + 4 * k),
                sons@ == line_sons(s, k as int),
            decreases num_son - k,
        {
            let ghost before = bytes_contents(buf);
            let son_id = bytes_get_u32(&mut buf);
            assert(be_u32_at(before, 0) == be_u32_at(s, 8 + 4 * k));
            sons.insert(son_id);
            proof {
                assert(bytes_contents(buf) =~= s.skip(8 + 4 * (k + 1)));
                assert(sons@ =~= line_sons(s, k + 1)) by {
                    assert forall|x: u32| sons@.contains(x) implies line_sons(s, k + 1).contains(x) by {
                        if x != son_id {
                            let j = choose|j: int| 0 <= j < k && #[trigger] be_u32_at(s, 8 + 4 * j) == x;
                            assert(be_u32_at(s, 8 + 4 * j) == x);
                        } else {
                            assert(be_u32_at(s, 8 + 4 * k) == x);
                        }
                    }
                    assert forall|x: u32| line_sons(s, k + 1).contains(x) implies sons@.contains(x) by {
                        let j = choose|j: int| 0 <= j < k + 1 && #[trigger] be_u32_at(s, 8 + 4 * j) == x;
                        if j < k {
                            assert(line_sons(s, k as int).contains(x));
                        }
                    }
                }
            }
            k = k + 1;
        }
        self.0.insert(parent_id, sons);
        assert(self.edges() =~= old(self).edges().insert(parent_id, line_sons(s, num_son as int)));
    }
}

} // verus!

verus! {

/// Possible results of afl-showmap.
pub enum AflShowmapResult {
    /// The map was created successfully.
    Success(Box<AflMap>),
    /// The target timed out or failed to execute.
    Hang,
    /// The target crashed.
    Crash,
}

/// What afl-showmap's exit status says of a run.
#[derive(Debug, PartialEq, Eq)]
pub enum ShowmapExit {
    /// The map was written (status 0).
    Success,
    /// The target timed out or failed to execute (status 1).
    Hang,
    /// The target crashed (status 2).
    Crash,
}

/// The meaning of afl-showmap's exit status `code`; any status other than
/// 0, 1 and 2 is unexpected.
pub fn showmap_exit(code: i32) -> (r: Option<ShowmapExit>)
    ensures
        r == (if code == 0 {
            Some(ShowmapExit::Success)
        } else if code == 1 {
            Some(ShowmapExit::Hang)
        } else if code == 2 {
            Some(ShowmapExit::Crash)
        } else {
            None::<ShowmapExit>
        }),
{
    match code {
        0 => Some(ShowmapExit::Success),
        1 => Some(ShowmapExit::Hang),
        2 => Some(ShowmapExit::Crash),
        _ => None,
    }
}

} // verus!

verus! {

/// The edge slot of a transition keeps every bit of both ids: xoring the
/// target back out gives the source id shifted right by one, and the slot
/// fits in 32 bits.
pub proof fn lemma_edge_hash_recovers_source(from: u32, to: u32)
    ensures
        spec_edge_hash(from, to) < 0x1_0000_0000,
        (spec_edge_hash(from, to) as u32) ^ to == from >> 1u32,
        (spec_edge_hash(from, to) as u32) ^ (from >> 1u32) == to,
{
    let x: u32 = (from >> 1u32) ^ to;
    assert((x as usize) < 0x1_0000_0000 && ((x as usize) as u32) == x) by (bit_vector);
    assert((x ^ to) == from >> 1u32 && (x ^ (from >> 1u32)) == to) by (bit_vector)
        requires
            x == (from >> 1u32) ^ to,
    ;
}

} // verus!

verus! {

/// Whether bit `bit` (counted from the least significant end) of byte `x` is set.
pub open spec fn byte_bit(x: u8, bit: u8) -> bool {
    (x >> bit) & 1u8 == 1u8
}

proof fn lemma_byte_or_bits(k: u8, n: u8, b: u8)
    requires
        b < 8,
    ensures
        byte_bit(k | n, b) == (byte_bit(k, b) || byte_bit(n, b)),
{
    assert(((k | n) >> b) & 1u8 == 1u8 <==> ((k >> b) & 1u8 == 1u8 || (n >> b) & 1u8 == 1u8))
        by (bit_vector)
        requires
            b < 8,
    ;
}

proof fn lemma_byte_gain(k: u8, n: u8)
    ensures
        ((k | n) != k) <==> exists|b: u8| b < 8 && #[trigger] byte_bit(n, b) && !byte_bit(k, b),
{
    if (k | n) != k {
        assert(((n >> 0u8) & 1u8 == 1u8 && (k >> 0u8) & 1u8 != 1u8) || ((n >> 1u8) & 1u8 == 1u8
            && (k >> 1u8) & 1u8 != 1u8) || ((n >> 2u8) & 1u8 == 1u8 && (k >> 2u8) & 1u8 != 1u8)
            || ((n >> 3u8) & 1u8 == 1u8 && (k >> 3u8) & 1u8 != 1u8) || ((n >> 4u8) & 1u8 == 1u8
            && (k >> 4u8) & 1u8 != 1u8) || ((n >> 5u8) & 1u8 == 1u8 && (k >> 5u8) & 1u8 != 1u8)
            || ((n >> 6u8) & 1u8 == 1u8 && (k >> 6u8) & 1u8 != 1u8) || ((n >> 7u8) & 1u8 == 1u8
            && (k >> 7u8) & 1u8 != 1u8)) by (bit_vector)
            requires
                (k | n) != k,
        ;
        if byte_bit(n, 0) && !byte_bit(k, 0) {
        } else if byte_bit(n, 1) && !byte_bit(k, 1) {
        } else if byte_bit(n, 2) && !byte_bit(k, 2) {
        } else if byte_bit(n, 3) && !byte_bit(k, 3) {
        } else if byte_bit(n, 4) && !byte_bit(k, 4) {
        } else if byte_bit(n, 5) && !byte_bit(k, 5) {
        } else if byte_bit(n, 6) && !byte_bit(k, 6) {
        } else {
            assert(byte_bit(n, 7) && !byte_bit(k, 7));
        }
    } else {
        assert forall|b: u8| b < 8 && #[trigger] byte_bit(n, b) implies byte_bit(k, b) by {
            lemma_byte_or_bits(k, n, b);
        }
    }
}

proof fn lemma_word_gain(k: u64, n: u64)
    ensures
        ((k | n) != k) <==> exists|b: u32| b < 64 && #[trigger] bit_is_set(n, b) && !bit_is_set(k, b),
{
    if (k | n) != k {
        let x = n & !k;
        assert(x != 0u64) by (bit_vector)
            requires
                (k | n) != k,
                x == n & !k,
        ;
        let b = lemma_some_bit(x);
        assert(((n & !k) >> b) & 1u64 != 0u64 ==> (n >> b) & 1u64 != 0u64 && (k >> b) & 1u64 == 0u64)
            by (bit_vector)
            requires
                b < 64,
        ;
        assert(bit_is_set(n, b) && !bit_is_set(k, b));
    } else {
        assert forall|b: u32| b < 64 && #[trigger] bit_is_set(n, b) implies bit_is_set(k, b) by {
            lemma_bit_of_or(k, n, b);
        }
    }
}

proof fn lemma_some_bit(x: u64) -> (b: u32)
    requires
        x != 0u64,
    ensures
        b < 64,
        bit_is_set(x, b),
{
    assert((x >> 0u32) == x) by (bit_vector);
    lemma_some_bit_from(x, 0)
}

proof fn lemma_some_bit_from(x: u64, b: u32) -> (r: u32)
    requires
        b < 64,
        (x >> b) != 0u64,
    ensures
        r < 64,
        bit_is_set(x, r),
    decreases 64 - b,
{
    if (x >> b) & 1u64 != 0u64 {
        b
    } else {
        let c: u32 = (b + 1) as u32;
        assert(c < 64 && (x >> c) != 0u64) by (bit_vector)
            requires
                b < 64,
                c == b + 1,
                (x >> b) != 0u64,
                (x >> b) & 1u64 == 0u64,
        ;
        lemma_some_bit_from(x, c)
    }
}

/// Merging edge maps of the same length unites them bit by bit: a bit of a
/// slot is set afterwards exactly when it was set in either map.
pub proof fn lemma_merge_unites_edge_bits(known: AflMapView, other: AflMapView, i: int, b: u8)
    requires
        known.0 is Some,
        other.0 is Some,
        known.0->0.len() == other.0->0.len(),
        0 <= i < known.0->0.len(),
        b < 8,
    ensures
        merge_outcome(known, other).0.0 is Some,
        merge_outcome(known, other).0.0->0.len() == known.0->0.len(),
        byte_bit(merge_outcome(known, other).0.0->0[i], b) == (byte_bit(known.0->0[i], b)
            || byte_bit(other.0->0[i], b)),
{
    lemma_byte_or_bits(known.0->0[i], other.0->0[i], b);
}

/// Merging bitmaps of the same length (alongside edge maps of the same
/// length) unites them bit by bit.
pub proof fn lemma_merge_unites_block_bits(known: AflMapView, other: AflMapView, j: int, b: u32)
    requires
        known.0 is Some,
        other.0 is Some,
        known.0->0.len() == other.0->0.len(),
        known.1 is Some,
        other.1 is Some,
        known.1->0.len() == other.1->0.len(),
        0 <= j < known.1->0.len(),
        b < 64,
    ensures
        merge_outcome(known, other).0.1 is Some,
        merge_outcome(known, other).0.1->0.len() == known.1->0.len(),
        bit_is_set(merge_outcome(known, other).0.1->0[j], b) == (bit_is_set(known.1->0[j], b)
            || bit_is_set(other.1->0[j], b)),
{
    lemma_bit_of_or(known.1->0[j], other.1->0[j], b);
}

/// Whether some slot of `new` has a bit that the same slot of `known` lacks.
pub open spec fn has_new_edge_bit(known: Seq<u8>, new: Seq<u8>) -> bool {
    exists|i: int, b: u8|
        0 <= i < known.len() && b < 8 && #[trigger] byte_bit(new[i], b) && !byte_bit(known[i], b)
}

/// Whether some word of `new` has a bit that the same word of `known` lacks.
pub open spec fn has_new_block_bit(known: Seq<u64>, new: Seq<u64>) -> bool {
    exists|j: int, b: u32|
        0 <= j < known.len() && b < 64 && #[trigger] bit_is_set(new[j], b) && !bit_is_set(known[j], b)
}

/// When a test case's edge map (and bitmap, if both maps have one) has the
/// size of the known coverage, the merge reports new coverage exactly when
/// the test case sets a bit of some edge slot or some block word that the
/// known coverage lacks.
pub proof fn lemma_merge_gain_is_new_bit(known: AflMapView, other: AflMapView)
    requires
        known.0 is Some,
        other.0 is Some,
        known.0->0.len() == other.0->0.len(),
        known.1 is Some && other.1 is Some ==> known.1->0.len() == other.1->0.len(),
    ensures
        merge_outcome(known, other).1 == Ok::<bool, MergeError>(
            has_new_edge_bit(known.0->0, other.0->0) || (known.1 is Some && other.1 is Some
                && has_new_block_bit(known.1->0, other.1->0)),
        ),
{
    let d = known.0->0;
    let n = other.0->0;
    assert(bytes_gain(d, n) == has_new_edge_bit(d, n)) by {
        if bytes_gain(d, n) {
            let i = choose|i: int| 0 <= i < d.len() && #[trigger] (d[i] | n[i]) != d[i];
            lemma_byte_gain(d[i], n[i]);
            let b = choose|b: u8| b < 8 && #[trigger] byte_bit(n[i], b) && !byte_bit(d[i], b);
            assert(byte_bit(n[i], b) && !byte_bit(d[i], b));
        }
        if has_new_edge_bit(d, n) {
            let (i, b) = choose|i: int, b: u8|
                0 <= i < d.len() && b < 8 && #[trigger] byte_bit(n[i], b) && !byte_bit(d[i], b);
            lemma_byte_gain(d[i], n[i]);
            assert((d[i] | n[i]) != d[i]);
        }
    }
    if known.1 is Some && other.1 is Some {
        let k = known.1->0;
        let w = other.1->0;
        assert(words_gain(k, w) == has_new_block_bit(k, w)) by {
            if words_gain(k, w) {
                let j = choose|j: int| 0 <= j < k.len() && #[trigger] (k[j] | w[j]) != k[j];
                lemma_word_gain(k[j], w[j]);
                let b = choose|b: u32| b < 64 && #[trigger] bit_is_set(w[j], b) && !bit_is_set(k[j], b);
                assert(bit_is_set(w[j], b) && !bit_is_set(k[j], b));
            }
            if has_new_block_bit(k, w) {
                let (j, b) = choose|j: int, b: u32|
                    0 <= j < k.len() && b < 64 && #[trigger] bit_is_set(w[j], b) && !bit_is_set(k[j], b);
                lemma_word_gain(k[j], w[j]);
                assert((k[j] | w[j]) != k[j]);
            }
        }
    }
}

} // verus!
