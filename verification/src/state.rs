use crate::afl::{merge_outcome, spec_edge_hash, AflMap, AflMapView, AflShowmapResult, EdgeMap, MergeError};
use vstd::std_specs::iter::IteratorSpec;
use std::collections::HashSet;
use vstd::prelude::*;

verus! {

broadcast use vstd::std_specs::hash::group_hash_axioms;

/// The elements of a set of block ids, each once, in the set's iteration order.
fn ids_of(s: &HashSet<u32>) -> (v: Vec<u32>)
    ensures
        v@.to_set() == s@,
        v@.no_duplicates(),
        v@.len() == s@.len(),
{
    let mut v: Vec<u32> = Vec::new();
    let ghost whole = s.iter().remaining();
    for x in it: s.iter()
        invariant
            it.seq() == whole,
            v@.len() == it.index(),
            v@ == whole.take(it.index()).unref(),
    {
        assert(whole.take(it.index() + 1) =~= whole.take(it.index()).push(x));
        v.push(*x);
    }
    assert(v@.len() == whole.len());
    assert(whole.take(whole.len() as int) =~= whole);
    v
}

} // verus!

verus! {

/// Whether AFL's edge map records the transition from `from` to `to` as taken.
pub open spec fn slot_covered(aflmap: Seq<u8>, from: u32, to: u32) -> bool {
    let e = spec_edge_hash(from, to) as int;
    e < aflmap.len() && aflmap[e] > 0
}

/// A frontier block has known successors, at least one of which the edge map
/// does not record as reached from it.
pub open spec fn frontier_block(edges: Map<u32, Set<u32>>, id: u32, aflmap: Seq<u8>) -> bool {
    &&& edges.contains_key(id)
    &&& exists|son: u32| #[trigger] edges[id].contains(son) && !slot_covered(aflmap, id, son)
}

/// Whether bit number `i` of a word-packed bitmap is set (bit `i % 64` of word `i / 64`).
pub open spec fn block_bit(words: Seq<u64>, i: int) -> bool {
    crate::afl::bit_is_set(words[i / 64], (i % 64) as u32)
}

/// The 32-bit block id of bit number `i` (bit numbers wrap around at 2^32).
pub open spec fn block_id(i: int) -> u32 {
    (i % 0x1_0000_0000) as u32
}

/// The frontier blocks among the blocks of the first `n` bits of `words`.
pub open spec fn frontier_upto(edges: Map<u32, Set<u32>>, words: Seq<u64>, aflmap: Seq<u8>, n: int) -> Set<u32> {
    Set::new(
        |id: u32|
            frontier_block(edges, id, aflmap) && exists|i: int|
                0 <= i < n && #[trigger] block_bit(words, i) && block_id(i) == id,
    )
}

/// The frontier of a test case: the blocks its bitmap covers that are frontier blocks.
pub open spec fn frontier_of(edges: Map<u32, Set<u32>>, words: Seq<u64>, aflmap: Seq<u8>) -> Set<u32> {
    frontier_upto(edges, words, aflmap, 64 * words.len() as int)
}

/// The edges after pruning: each frontier block keeps only the successors
/// that the test case's bitmap covers.
pub open spec fn pruned_edges(edges: Map<u32, Set<u32>>, frontier: Set<u32>, words: Seq<u64>) -> Map<u32, Set<u32>> {
    Map::new(
        |k: u32| edges.contains_key(k),
        |k: u32|
            if frontier.contains(k) {
                edges[k].filter(|s: u32| crate::afl::bitmap_contains(words, s))
            } else {
                edges[k]
            },
    )
}

/// Whether pruning the frontier's successors against `words` reads only
/// bitmap words that exist or lie beyond the one-past-the-end word.
pub open spec fn prunable(edges: Map<u32, Set<u32>>, frontier: Set<u32>, words: Seq<u64>) -> bool {
    forall|k: u32, s: u32|
        frontier.contains(k) && edges.contains_key(k) && #[trigger] edges[k].contains(s) ==> (s / 64)
            != words.len()
}

/// What [`State::update_frontier`] needs of a test case's map: pruning against
/// its bitmap reads no word exactly one past the bitmap's end.
pub open spec fn frontier_update_allowed(edges: Map<u32, Set<u32>>, m: AflMapView) -> bool {
    match (m.0, m.1) {
        (Some(d), Some(w)) => prunable(edges, frontier_of(edges, w, d), w),
        _ => true,
    }
}

/// How the frontier and the uncovered edges change with a test case's map:
/// the frontier becomes the test case's frontier and the frontier blocks'
/// successors are pruned; a map lacking its edge map or bitmap changes nothing.
pub open spec fn frontier_updated(
    edges: Map<u32, Set<u32>>,
    frontier: Set<u32>,
    m: AflMapView,
    new_edges: Map<u32, Set<u32>>,
    new_frontier: Set<u32>,
) -> bool {
    match (m.0, m.1) {
        (Some(d), Some(w)) => {
            &&& new_frontier == frontier_of(edges, w, d)
            &&& new_edges == pruned_edges(edges, frontier_of(edges, w, d), w)
        },
        _ => new_frontier == frontier && new_edges == edges,
    }
}

/// Pruning never adds a block or a successor, and every successor that a
/// frontier block keeps is covered by the bitmap pruned against.
pub proof fn lemma_pruning_only_removes(
    edges: Map<u32, Set<u32>>,
    frontier: Set<u32>,
    words: Seq<u64>,
    k: u32,
    s: u32,
)
    ensures
        pruned_edges(edges, frontier, words).dom() == edges.dom(),
        pruned_edges(edges, frontier, words).contains_key(k) && pruned_edges(
            edges,
            frontier,
            words,
        )[k].contains(s) ==> edges[k].contains(s),
        frontier.contains(k) && pruned_edges(edges, frontier, words).contains_key(k)
            && pruned_edges(edges, frontier, words)[k].contains(s) ==> crate::afl::bitmap_contains(
            words,
            s,
        ),
{
    assert(pruned_edges(edges, frontier, words).dom() =~= edges.dom());
}

/// Every block of a test case's frontier is covered by its bitmap and is a
/// frontier block of the edge map.
pub proof fn lemma_frontier_blocks_are_covered(
    edges: Map<u32, Set<u32>>,
    words: Seq<u64>,
    aflmap: Seq<u8>,
    id: u32,
)
    requires
        frontier_of(edges, words, aflmap).contains(id),
    ensures
        frontier_block(edges, id, aflmap),
        exists|i: int| 0 <= i < 64 * words.len() && #[trigger] block_bit(words, i) && block_id(i) == id,
{
}

proof fn lemma_frontier_step(edges: Map<u32, Set<u32>>, words: Seq<u64>, aflmap: Seq<u8>, n: int)
    requires
        n >= 0,
    ensures
        frontier_upto(edges, words, aflmap, n + 1) == if block_bit(words, n) && frontier_block(
            edges,
            block_id(n),
            aflmap,
        ) {
            frontier_upto(edges, words, aflmap, n).insert(block_id(n))
        } else {
            frontier_upto(edges, words, aflmap, n)
        },
{
    let a = frontier_upto(edges, words, aflmap, n + 1);
    let b = frontier_upto(edges, words, aflmap, n);
    assert forall|id: u32| a.contains(id) implies (b.contains(id) || (id == block_id(n)
        && block_bit(words, n) && frontier_block(edges, id, aflmap))) by {
        let i = choose|i: int| 0 <= i < n + 1 && #[trigger] block_bit(words, i) && block_id(i) == id;
        if i < n {
            assert(b.contains(id));
        }
    }
    assert forall|id: u32| b.contains(id) implies a.contains(id) by {
        let i = choose|i: int| 0 <= i < n && #[trigger] block_bit(words, i) && block_id(i) == id;
        assert(0 <= i < n + 1);
    }
    if block_bit(words, n) && frontier_block(edges, block_id(n), aflmap) {
        assert(a.contains(block_id(n)));
        assert(a =~= b.insert(block_id(n)));
    } else {
        assert(a =~= b);
    }
}

proof fn lemma_frontier_skip_empty_word(
    edges: Map<u32, Set<u32>>,
    words: Seq<u64>,
    aflmap: Seq<u8>,
    w: int,
)
    requires
        0 <= w < words.len(),
        words[w] == 0,
    ensures
        frontier_upto(edges, words, aflmap, 64 * w + 64) == frontier_upto(edges, words, aflmap, 64 * w),
{
    let a = frontier_upto(edges, words, aflmap, 64 * w + 64);
    let b = frontier_upto(edges, words, aflmap, 64 * w);
    assert forall|id: u32| a.contains(id) implies b.contains(id) by {
        let i = choose|i: int| 0 <= i < 64 * w + 64 && #[trigger] block_bit(words, i) && block_id(i) == id;
        if i >= 64 * w {
            assert(i / 64 == w);
            let bit = (i % 64) as u32;
            assert((0u64 >> bit) & 1u64 == 0) by (bit_vector);
        }
    }
    assert forall|id: u32| b.contains(id) implies a.contains(id) by {
        let i = choose|i: int| 0 <= i < 64 * w && #[trigger] block_bit(words, i) && block_id(i) == id;
        assert(0 <= i < 64 * w + 64);
    }
    assert(a =~= b);
}

/// The members of `sons` that the bitmap `bb` holds.
fn kept_sons(sons: &HashSet<u32>, bb: &crate::afl::BitMap) -> (r: HashSet<u32>)
    requires
        forall|s: u32| #[trigger] sons@.contains(s) ==> (s / 64) != bb@.len(),
    ensures
        r@ == sons@.filter(|s: u32| crate::afl::bitmap_contains(bb@, s)),
{
    let son_ids = ids_of(sons);
    let n = son_ids.len();
    let mut kept: HashSet<u32> = HashSet::new();
    let mut j: usize = 0;
    while j < n
        invariant
            n == son_ids@.len(),
            j <= n,
            son_ids@.to_set() == sons@,
            forall|s: u32| #[trigger] sons@.contains(s) ==> (s / 64) != bb@.len(),
            kept@ == Set::new(
                |s: u32|
                    crate::afl::bitmap_contains(bb@, s) && exists|i: int|
                        0 <= i < j && #[trigger] son_ids@[i] == s,
            ),
        decreases n - j,
    {
        let s = son_ids[j];
        assert(son_ids@.to_set().contains(s));
        let keep = bb.contains(s);
        if keep {
            kept.insert(s);
        }
        proof {
            let next = Set::new(
                |t: u32|
                    crate::afl::bitmap_contains(bb@, t) && exists|i: int|
                        0 <= i < j + 1 && #[trigger] son_ids@[i] == t,
            );
            assert forall|t: u32| next.contains(t) implies kept@.contains(t) by {
                let i = choose|i: int| 0 <= i < j + 1 && #[trigger] son_ids@[i] == t;
                if i < j {
                    assert(0 <= i < j && son_ids@[i] == t);
                }
            }
            assert forall|t: u32| kept@.contains(t) implies next.contains(t) by {
                if t != s {
                    let i = choose|i: int| 0 <= i < j && #[trigger] son_ids@[i] == t;
                    assert(0 <= i < j + 1 && son_ids@[i] == t);
                } else {
                    assert(son_ids@[j as int] == t);
                }
            }
            assert(kept@ =~= next);
        }
        j = j + 1;
    }
    proof {
        let target = sons@.filter(|s: u32| crate::afl::bitmap_contains(bb@, s));
        assert forall|t: u32| target.contains(t) implies kept@.contains(t) by {
            assert(son_ids@.to_set().contains(t));
            let i = choose|i: int| 0 <= i < son_ids@.len() && son_ids@[i] == t;
            assert(son_ids@[i] == t);
        }
        assert forall|t: u32| kept@.contains(t) implies target.contains(t) by {
            let i = choose|i: int| 0 <= i < n && #[trigger] son_ids@[i] == t;
            assert(son_ids@.to_set().contains(son_ids@[i]));
        }
        assert(kept@ =~= target);
    }
    kept
}

/// The part of the run-time state that decides what to explore next.
pub struct State {
    /// The cumulative coverage of all test cases generated so far.
    pub current_aflmap: AflMap,
    /// All edges of conditional branches not yet known to be covered.
    pub uncovered_edges: EdgeMap,
    /// Frontier blocks of the current seed.
    pub current_frontier_blocks: HashSet<u32>,
}

impl State {
    /// Fresh state: no coverage, the given uncovered edges, no frontier.
    pub fn new(uncovered_edges: EdgeMap) -> (r: State)
        ensures
            r.current_aflmap@ == (None::<Seq<u8>>, None::<Seq<u64>>),
            r.uncovered_edges.edges() == uncovered_edges.edges(),
            r.current_frontier_blocks@ == Set::<u32>::empty(),
    {
        State { current_aflmap: AflMap::new(), uncovered_edges, current_frontier_blocks: HashSet::new() }
    }

    /// A block is a frontier block of the test case whose edge map is `aflmap`
    /// when it has uncovered edges of which `aflmap` does not cover all.
    pub fn is_frontier(&self, id: u32, aflmap: &[u8]) -> (r: bool)
        ensures
            r == frontier_block(self.uncovered_edges.edges(), id, aflmap@),
    {
        match self.uncovered_edges.0.get(&id) {
            Some(sons) => {
                let ids = ids_of(sons);
                let n = ids.len();
                let mut new_covered: usize = 0;
                let mut j: usize = 0;
                while j < n
                    invariant
                        n == ids@.len(),
                        j <= n,
                        new_covered <= j,
                        new_covered == j <==> forall|k: int|
                            0 <= k < j ==> #[trigger] slot_covered(aflmap@, id, ids@[k]),
                    decreases n - j,
                {
                    let son = ids[j];
                    let edge = AflMap::edge_hash(&id, &son);
                    if edge < aflmap.len() && aflmap[edge] > 0 {
                        new_covered = new_covered + 1;
                    } else {
                        assert(!slot_covered(aflmap@, id, ids@[j as int]));
                    }
                    j = j + 1;
                }
                proof {
                    let edges = self.uncovered_edges.edges();
                    assert(edges[id] == sons@);
                    if new_covered < n {
                        let k = choose|k: int| 0 <= k < n && !#[trigger] slot_covered(aflmap@, id, ids@[k]);
                        assert(ids@.to_set().contains(ids@[k]));
                    } else {
                        assert forall|son: u32| #[trigger] edges[id].contains(son) implies slot_covered(
                            aflmap@,
                            id,
                            son,
                        ) by {
                            assert(ids@.to_set().contains(son));
                            let k = choose|k: int| 0 <= k < ids@.len() && ids@[k] == son;
                            assert(slot_covered(aflmap@, id, ids@[k]));
                        }
                    }
                }
                new_covered < sons.len()
            },
            None => false,
        }
    }
    /// The frontier blocks among the blocks that `bb` covers, judged against `aflmap`.
    fn frontier_blocks_of(&self, aflmap: &Vec<u8>, bb: &crate::afl::BitMap) -> (f: HashSet<u32>)
        ensures
            f@ == frontier_of(self.uncovered_edges.edges(), bb@, aflmap@),
    {
        let ghost edges = self.uncovered_edges.edges();
        let ghost words = bb@;
        let mut frontier_blocks: HashSet<u32> = HashSet::new();
        let n = bb.0.len();
        let mut word: usize = 0;
        let mut id: u32 = 0;
        assert(frontier_upto(edges, words, aflmap@, 0) =~= Set::<u32>::empty());
        while word < n
            invariant
                n == words.len(),
                words == bb@,
                word <= n,
                id as int == (64 * word) % 0x1_0000_0000,
                frontier_blocks@ == frontier_upto(edges, words, aflmap@, 64 * word),
                self.uncovered_edges.edges() == edges,
            decreases n - word,
        {
            let x = bb.0[word];
            if x == 0 {
                proof {
                    lemma_frontier_skip_empty_word(edges, words, aflmap@, word as int);
                }
                id = id.wrapping_add(64);
            } else {
                let mut bit: u32 = 0;
                while bit < 64
                    invariant
                        n == words.len(),
                        words == bb@,
                        word < n,
                        x == words[word as int],
                        bit <= 64,
                        id as int == (64 * word + bit) % 0x1_0000_0000,
                        frontier_blocks@ == frontier_upto(edges, words, aflmap@, 64 * word + bit),
                        self.uncovered_edges.edges() == edges,
                    decreases 64 - bit,
                {
                    let ghost i = 64 * word + bit;
                    assert(i / 64 == word && i % 64 == bit);
                    assert((x & (1u64 << bit) != 0) == ((x >> bit) & 1u64 != 0)) by (bit_vector)
                        requires
                            bit < 64,
                    ;
                    proof {
                        lemma_frontier_step(edges, words, aflmap@, i);
                    }
                    if x & (1u64 << bit) != 0 {
                        if self.is_frontier(id, aflmap.as_slice()) {
                            frontier_blocks.insert(id);
                        }
                    }
                    id = id.wrapping_add(1);
                    bit = bit + 1;
                }
            }
            word = word + 1;
        }
        frontier_blocks
    }

    /// Whether [`State::update_frontier`] accepts `new_map`: pruning the
    /// frontier's successors against its bitmap reads no word exactly one past
    /// the bitmap's end.
    pub fn can_update_frontier(&self, new_map: &AflMap) -> (r: bool)
        ensures
            r == frontier_update_allowed(self.uncovered_edges.edges(), new_map@),
    {
        let aflmap: &Vec<u8> = match &new_map.data {
            Some(d) => d,
            None => return true,
        };
        let bb: &crate::afl::BitMap = match &new_map.bb_bitmap {
            Some(b) => b,
            None => return true,
        };
        let ghost edges = self.uncovered_edges.edges();
        let frontier = self.frontier_blocks_of(aflmap, bb);
        let ghost f = frontier@;
        assert(f == frontier_of(edges, bb@, aflmap@));
        assert(new_map@.0 == Some(aflmap@) && new_map@.1 == Some(bb@));
        let ids = ids_of(&frontier);
        let m = ids.len();
        let mut k: usize = 0;
        while k < m
            invariant
                m == ids@.len(),
                k <= m,
                ids@.to_set() == f,
                f == frontier_of(edges, bb@, aflmap@),
                new_map@.0 == Some(aflmap@) && new_map@.1 == Some(bb@),
                edges == self.uncovered_edges.edges(),
                forall|i: int, s: u32|
                    0 <= i < k && edges.contains_key(ids@[i]) && #[trigger] edges[ids@[i]].contains(s)
                        ==> (s / 64) != bb@.len(),
            decreases m - k,
        {
            let key = ids[k];
            if let Some(sons) = self.uncovered_edges.0.get(&key) {
                let sons_list = ids_of(sons);
                assert(edges.contains_key(key) && edges[key] == sons@);
                let mut j: usize = 0;
                while j < sons_list.len()
                    invariant
                        k < m,
                        m == ids@.len(),
                        key == ids@[k as int],
                        ids@.to_set() == f,
                        f == frontier_of(edges, bb@, aflmap@),
                        new_map@.0 == Some(aflmap@) && new_map@.1 == Some(bb@),
                        edges == self.uncovered_edges.edges(),
                        edges.contains_key(key),
                        edges[key] == sons@,
                        sons_list@.to_set() == sons@,
                        j <= sons_list@.len(),
                        forall|t: int| 0 <= t < j ==> (#[trigger] sons_list@[t] / 64) != bb@.len(),
                    decreases sons_list@.len() - j,
                {
                    if (sons_list[j] / 64) as usize == bb.0.len() {
                        proof {
                            assert(sons_list@.to_set().contains(sons_list@[j as int]));
                            assert(ids@.to_set().contains(key));
                            assert(f.contains(key));
                            assert(edges[key].contains(sons_list@[j as int]));
                            assert(!prunable(edges, f, bb@));
                            assert(new_map@.0 == Some(aflmap@) && new_map@.1 == Some(bb@));
                        }
                        return false;
                    }
                    j = j + 1;
                }
                proof {
                    assert forall|s: u32| edges[key].contains(s) implies (s / 64) != bb@.len() by {
                        assert(sons_list@.to_set().contains(s));
                        let t = choose|t: int| 0 <= t < sons_list@.len() && sons_list@[t] == s;
                        assert((sons_list@[t] / 64) != bb@.len());
                    }
                }
            }
            k = k + 1;
        }
        proof {
            assert forall|kk: u32, s: u32|
                f.contains(kk) && edges.contains_key(kk) && #[trigger] edges[kk].contains(s) implies (s / 64)
                    != bb@.len() by {
                assert(ids@.to_set().contains(kk));
                let i = choose|i: int| 0 <= i < ids@.len() && ids@[i] == kk;
                assert(edges.contains_key(ids@[i]) && edges[ids@[i]].contains(s));
            }
        }
        true
    }

    /// Recomputes the frontier from a test case's coverage: the blocks its
    /// basic-block bitmap covers that are frontier blocks of its edge map.
    /// Each frontier block then keeps only the successors that the bitmap
    /// covers. A map that lacks its edge map or its bitmap changes nothing.
    pub fn update_frontier(&mut self, new_map: &AflMap)
        requires
            frontier_update_allowed(old(self).uncovered_edges.edges(), new_map@),
        ensures
            final(self).current_aflmap == old(self).current_aflmap,
            frontier_updated(
                old(self).uncovered_edges.edges(),
                old(self).current_frontier_blocks@,
                new_map@,
                final(self).uncovered_edges.edges(),
                final(self).current_frontier_blocks@,
            ),
    {
        let aflmap: &Vec<u8> = match &new_map.data {
            Some(d) => d,
            None => return ,
        };
        let bb: &crate::afl::BitMap = match &new_map.bb_bitmap {
            Some(b) => b,
            None => return ,
        };
        let ghost edges = self.uncovered_edges.edges();
        let ghost words = bb@;
        let frontier_blocks = self.frontier_blocks_of(aflmap, bb);
        let ghost f = frontier_blocks@;
        let ids = ids_of(&frontier_blocks);
        let m = ids.len();
        let mut k: usize = 0;
        while k < m
            invariant
                m == ids@.len(),
                k <= m,
                ids@.to_set() == f,
                ids@.no_duplicates(),
                words == bb@,
                f == frontier_of(edges, words, aflmap@),
                prunable(edges, f, words),
                self.current_aflmap == old(self).current_aflmap,
                self.uncovered_edges.edges() == Map::new(
                    |key: u32| edges.contains_key(key),
                    |key: u32|
                        if ids@.take(k as int).contains(key) {
                            edges[key].filter(|s: u32| crate::afl::bitmap_contains(words, s))
                        } else {
                            edges[key]
                        },
                ),
            decreases m - k,
        {
            let key = ids[k];
            let ghost before = self.uncovered_edges.edges();
            assert(!ids@.take(k as int).contains(key)) by {
                if ids@.take(k as int).contains(key) {
                    let i = choose|i: int| 0 <= i < k && ids@.take(k as int)[i] == key;
                    assert(ids@[i] == ids@[k as int]);
                }
            }
            assert(ids@.to_set().contains(key));
            assert(f.contains(key));
            assert(edges.contains_key(key));
            assert(before[key] == edges[key]);
            let pruned = match self.uncovered_edges.0.get(&key) {
                Some(sons) => {
                    assert(edges[key] == sons@);
                    Some(kept_sons(sons, bb))
                },
                None => None,
            };
            if let Some(kept) = pruned {
                self.uncovered_edges.0.insert(key, kept);
            }
            proof {
                let t0 = ids@.take(k as int);
                let t1 = ids@.take(k + 1 as int);
                assert(t1 =~= t0.push(key));
                let target = Map::new(
                    |kk: u32| edges.contains_key(kk),
                    |kk: u32|
                        if t1.contains(kk) {
                            edges[kk].filter(|s: u32| crate::afl::bitmap_contains(words, s))
                        } else {
                            edges[kk]
                        },
                );
                let now = self.uncovered_edges.edges();
                assert forall|kk: u32| #[trigger] now.contains_key(kk) <==> target.contains_key(kk) by {
                    assert(now.contains_key(kk) == (kk == key || before.contains_key(kk)));
                }
                assert forall|kk: u32| now.contains_key(kk) implies #[trigger] now[kk] == target[kk] by {
                    if kk == key {
                        assert(t1[k as int] == key);
                        assert(t1.contains(kk));
                    } else {
                        assert(t1.contains(kk) == t0.contains(kk));
                        assert(now[kk] == before[kk]);
                    }
                }
                assert(now =~= target);
            }
            k = k + 1;
        }
        proof {
            assert(ids@.take(m as int) =~= ids@);
            assert(self.uncovered_edges.edges() =~= pruned_edges(edges, f, words));
        }
        self.current_frontier_blocks = frontier_blocks;
    }
    /// Updates the frontier from a test case's map, then merges the map into
    /// the cumulative coverage; returns whether that coverage grew.
    pub fn merge_maps(&mut self, testcase_map: AflMap) -> (r: Result<bool, MergeError>)
        requires
            frontier_update_allowed(old(self).uncovered_edges.edges(), testcase_map@),
        ensures
            frontier_updated(
                old(self).uncovered_edges.edges(),
                old(self).current_frontier_blocks@,
                testcase_map@,
                final(self).uncovered_edges.edges(),
                final(self).current_frontier_blocks@,
            ),
            (final(self).current_aflmap@, r) == merge_outcome(old(self).current_aflmap@, testcase_map@),
    {
        self.update_frontier(&testcase_map);
        self.current_aflmap.merge(testcase_map)
    }
}

} // verus!

verus! {

impl State {
    /// Takes in what afl-showmap reported on a seed before SymCC runs on it:
    /// the coverage of a successful run updates the frontier and is merged
    /// into the cumulative coverage (the result says whether that grew); a
    /// seed on which afl-showmap hangs or crashes leaves no frontier.
    pub fn preprocess_coverage(&mut self, report: AflShowmapResult) -> (r: Result<bool, MergeError>)
        requires
            report matches AflShowmapResult::Success(m) ==> frontier_update_allowed(
                old(self).uncovered_edges.edges(),
                (*m)@,
            ),
        ensures
            match report {
                AflShowmapResult::Success(m) => {
                    &&& frontier_updated(
                        old(self).uncovered_edges.edges(),
                        old(self).current_frontier_blocks@,
                        (*m)@,
                        final(self).uncovered_edges.edges(),
                        final(self).current_frontier_blocks@,
                    )
                    &&& (final(self).current_aflmap@, r) == merge_outcome(old(self).current_aflmap@, (*m)@)
                },
                _ => {
                    &&& r == Ok::<bool, MergeError>(false)
                    &&& final(self).current_frontier_blocks@ == Set::<u32>::empty()
                    &&& final(self).uncovered_edges == old(self).uncovered_edges
                    &&& final(self).current_aflmap == old(self).current_aflmap
                },
            },
    {
        match report {
            AflShowmapResult::Success(m) => self.merge_maps(*m),
            _ => {
                self.current_frontier_blocks = HashSet::new();
                Ok(false)
            },
        }
    }

    /// Whether SymCC should run on the current seed: only when the seed has
    /// frontier blocks to direct it to.
    pub fn should_run_symcc(&self) -> (r: bool)
        ensures
            r == (self.current_frontier_blocks@.len() > 0),
    {
        self.current_frontier_blocks.len() > 0
    }
}

} // verus!
