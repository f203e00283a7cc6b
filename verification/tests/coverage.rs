use std::collections::{HashMap, HashSet};
use symcc_fuzzing_helper::afl::{showmap_exit, AflMap, AflShowmapResult, BitMap, EdgeMap, MergeError, ShowmapExit};
use symcc_fuzzing_helper::state::State;

fn map(data: Vec<u8>, words: Vec<u64>) -> AflMap {
    AflMap { data: Some(data), bb_bitmap: Some(BitMap(words)) }
}

#[test]
fn bitmap_set_unset_contains() {
    let mut b = BitMap(vec![0, 0]);
    b.set(70);
    assert!(b.contains(70));
    assert!(!b.contains(71));
    assert_eq!(b.0, vec![0, 1 << 6]);
    b.set(3);
    assert_eq!(b.0, vec![8, 1 << 6]);
    b.unset(70);
    assert!(!b.contains(70));
    assert!(b.contains(3));
    assert_eq!(b.0, vec![8, 0]);
}

#[test]
fn bitmap_out_of_range_is_ignored() {
    let mut b = BitMap(vec![1]);
    assert!(!b.contains(200));
    b.set(200);
    b.unset(200);
    assert_eq!(b.0, vec![1]);
}

#[test]
fn bitmap_new_is_empty() {
    let b = BitMap::new(65536);
    assert!(b.0.is_empty());
}

#[test]
fn bitmap_from_u8_reads_little_endian_words() {
    let b = BitMap::from_u8(vec![1, 2, 0, 0, 0, 0, 0, 0x80, 0xff, 0, 0, 0, 0, 0, 0, 0]);
    assert_eq!(b.0, vec![0x8000_0000_0000_0201, 0xff]);
}

#[test]
fn bitmap_merge_reports_new_bits() {
    let mut b = BitMap(vec![1, 4]);
    assert_eq!(b.merge_vec(BitMap(vec![1, 0])), Ok(false));
    assert_eq!(b.merge_vec(BitMap(vec![2, 4])), Ok(true));
    assert_eq!(b.0, vec![3, 4]);
    assert_eq!(
        b.merge_vec(BitMap(vec![1])),
        Err(MergeError::BitmapSize { known: 2, new: 1 })
    );
    assert_eq!(b.0, vec![3, 4]);
}

#[test]
fn aflmap_merge_into_empty_takes_other() {
    let mut m = AflMap::new();
    assert_eq!(m.merge(map(vec![0, 1], vec![5])), Ok(true));
    assert_eq!(m.data, Some(vec![0, 1]));
    assert_eq!(m.bb_bitmap.as_ref().unwrap().0, vec![5]);
    assert_eq!(m.merge(AflMap::new()), Ok(false));
    let mut e = AflMap::new();
    assert_eq!(e.merge(AflMap::new()), Ok(false));
    assert!(e.data.is_none());
}

#[test]
fn aflmap_merge_unites_and_is_idempotent() {
    let mut m = map(vec![1, 0, 0], vec![1]);
    assert_eq!(m.merge(map(vec![0, 2, 0], vec![2])), Ok(true));
    assert_eq!(m.data, Some(vec![1, 2, 0]));
    assert_eq!(m.bb_bitmap.as_ref().unwrap().0, vec![3]);
    assert_eq!(m.merge(map(vec![0, 2, 0], vec![2])), Ok(false));
    assert_eq!(m.data, Some(vec![1, 2, 0]));
    // new basic blocks alone count as new coverage
    assert_eq!(m.merge(map(vec![0, 0, 0], vec![8])), Ok(true));
}

#[test]
fn aflmap_merge_size_errors() {
    let mut m = map(vec![1, 0], vec![1]);
    assert_eq!(
        m.merge(map(vec![0, 0, 4], vec![1])),
        Err(MergeError::CoverageMapSize { known: 2, new: 3 })
    );
    assert_eq!(m.data, Some(vec![1, 0]));
    assert_eq!(
        m.merge(map(vec![0, 4], vec![1, 2])),
        Err(MergeError::BitmapSize { known: 1, new: 2 })
    );
    // the edge map was already merged when the bitmaps were found to differ
    assert_eq!(m.data, Some(vec![1, 4]));
    assert_eq!(m.bb_bitmap.as_ref().unwrap().0, vec![1]);
}

#[test]
fn aflmap_edge_hash_and_coverage() {
    assert_eq!(AflMap::edge_hash(&6, &1), 2);
    assert_eq!(AflMap::edge_hash(&7, &8), 11);
    let m = map(vec![0, 0, 9, 0], vec![]);
    assert!(m.is_covered(&6, &1));
    assert!(!m.is_covered(&6, &0));
    assert!(!AflMap::new().is_covered(&6, &1));
}

#[test]
fn aflmap_from_contents() {
    let m = AflMap::from_contents(vec![1, 2], vec![3, 0, 0, 0, 0, 0, 0, 0], 4);
    assert_eq!(m.data, Some(vec![1, 2]));
    assert_eq!(m.bb_bitmap.unwrap().0, vec![3]);
}

fn line(parent: u32, sons: &[u32]) -> Vec<u8> {
    let mut v = parent.to_be_bytes().to_vec();
    v.extend_from_slice(&(sons.len() as u32).to_be_bytes());
    for s in sons {
        v.extend_from_slice(&s.to_be_bytes());
    }
    v
}

#[test]
fn edgemap_reads_big_endian_lines() {
    let mut e = EdgeMap::new();
    let l = line(0x0102_0304, &[5, 6, 5]);
    assert!(EdgeMap::line_is_complete(&l));
    e.add_line(l);
    let expected: HashSet<u32> = [5, 6].into_iter().collect();
    assert_eq!(e.0.get(&0x0102_0304), Some(&expected));
    e.add_line(line(0x0102_0304, &[9]));
    assert_eq!(e.0.len(), 1);
    assert_eq!(e.0[&0x0102_0304], [9].into_iter().collect::<HashSet<u32>>());
    assert!(!EdgeMap::line_is_complete(&vec![0, 0, 0, 1, 0, 0, 0, 2, 0, 0, 0, 3]));
    assert!(!EdgeMap::line_is_complete(&vec![0, 0, 0]));
}

fn edges(list: &[(u32, &[u32])]) -> EdgeMap {
    let mut m = HashMap::new();
    for (k, v) in list {
        m.insert(*k, v.iter().copied().collect::<HashSet<u32>>());
    }
    EdgeMap(m)
}

#[test]
fn frontier_detection() {
    // block 2 branches to 3 and 4; edge 2->3 lands in slot (2>>1)^3 = 2, 2->4 in slot 5
    let state = State::new(edges(&[(2, &[3, 4]), (9, &[])]));
    let mut aflmap = vec![0u8; 8];
    assert!(state.is_frontier(2, &aflmap));
    aflmap[2] = 1;
    assert!(state.is_frontier(2, &aflmap));
    aflmap[5] = 1;
    assert!(!state.is_frontier(2, &aflmap));
    assert!(!state.is_frontier(9, &aflmap));
    assert!(!state.is_frontier(1, &aflmap));
}

#[test]
fn frontier_update_and_pruning() {
    let mut state = State::new(edges(&[(2, &[3, 4, 70]), (5, &[6]), (64, &[2])]));
    // covered blocks: 2, 3, 64
    let bitmap = vec![(1u64 << 2) | (1u64 << 3), 1u64];
    let testcase = map(vec![0u8; 128], bitmap);
    state.update_frontier(&testcase);
    let frontier: HashSet<u32> = [2, 64].into_iter().collect();
    assert_eq!(state.current_frontier_blocks, frontier);
    assert_eq!(state.uncovered_edges.0[&2], [3].into_iter().collect::<HashSet<u32>>());
    assert_eq!(state.uncovered_edges.0[&64], [2].into_iter().collect::<HashSet<u32>>());
    assert_eq!(state.uncovered_edges.0[&5], [6].into_iter().collect::<HashSet<u32>>());
    // a map without a bitmap changes nothing
    let before = state.current_frontier_blocks.clone();
    state.update_frontier(&AflMap { data: Some(vec![0; 128]), bb_bitmap: None });
    assert_eq!(state.current_frontier_blocks, before);
}

#[test]
fn merge_maps_updates_frontier_and_coverage() {
    let mut state = State::new(edges(&[(2, &[3])]));
    let testcase = map(vec![0u8, 1, 0, 0], vec![1u64 << 2]);
    assert_eq!(state.merge_maps(testcase), Ok(true));
    assert_eq!(state.current_frontier_blocks, [2].into_iter().collect::<HashSet<u32>>());
    assert_eq!(state.current_aflmap.data, Some(vec![0, 1, 0, 0]));
    assert!(state.uncovered_edges.0[&2].is_empty());
}

#[test]
fn showmap_exit_codes() {
    assert_eq!(showmap_exit(0), Some(ShowmapExit::Success));
    assert_eq!(showmap_exit(1), Some(ShowmapExit::Hang));
    assert_eq!(showmap_exit(2), Some(ShowmapExit::Crash));
    assert_eq!(showmap_exit(3), None);
    assert_eq!(showmap_exit(-1), None);
}

#[test]
fn seed_preprocessing() {
    let mut state = State::new(edges(&[(2, &[3])]));
    assert!(!state.should_run_symcc());
    let seed = AflShowmapResult::Success(Box::new(map(vec![0u8, 1, 0, 0], vec![1u64 << 2])));
    assert_eq!(state.preprocess_coverage(seed), Ok(true));
    assert_eq!(state.current_frontier_blocks, [2].into_iter().collect::<HashSet<u32>>());
    assert!(state.should_run_symcc());
    assert_eq!(state.preprocess_coverage(AflShowmapResult::Hang), Ok(false));
    assert!(state.current_frontier_blocks.is_empty());
    assert!(!state.should_run_symcc());
    assert_eq!(state.current_aflmap.data, Some(vec![0, 1, 0, 0]));
    assert_eq!(state.preprocess_coverage(AflShowmapResult::Crash), Ok(false));
    assert!(state.current_frontier_blocks.is_empty());
}
