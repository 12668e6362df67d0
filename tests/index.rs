use std::collections::VecDeque;
use std::sync::Arc;

use hnsw_build::{HNSWBuilder, HnswError, InMemoryVectorStorage, HNSW};
use rand::rngs::StdRng;
use rand::{Rng, SeedableRng};

fn storage(vectors: Vec<Vec<i32>>) -> Arc<InMemoryVectorStorage> {
    Arc::new(InMemoryVectorStorage::try_new(vectors).unwrap())
}

fn random_vectors(n: usize, dim: usize, seed: u64) -> Vec<Vec<i32>> {
    let mut rng = StdRng::seed_from_u64(seed);
    (0..n)
        .map(|_| (0..dim).map(|_| rng.gen_range(-1000..1000)).collect())
        .collect()
}

fn edges(h: &HNSW) -> Vec<Vec<Vec<u32>>> {
    (0..h.num_levels())
        .map(|l| {
            let layer = h.level(l);
            (0..layer.present.len() as u32).map(|i| layer.neighbors(i).clone()).collect()
        })
        .collect()
}

#[test]
fn single_vector_gives_one_node_and_no_edges() {
    let mut b = HNSWBuilder::new(storage(vec![vec![1, 2, 3]])).seed(1);
    let h = b.build().unwrap();
    assert_eq!(h.num_levels(), 8);
    let base = h.level(0);
    assert_eq!(base.len(), 1);
    assert!(base.contains(0));
    assert!(base.neighbors(0).is_empty());
    assert_eq!(h.entry_point(), 0);
}

#[test]
fn two_vectors_are_joined_by_one_edge() {
    let mut b = HNSWBuilder::new(storage(vec![vec![0, 0], vec![3, 4]]))
        .seed(7)
        .max_num_edges(1)
        .ef_construction(1);
    let h = b.build().unwrap();
    let base = h.level(0);
    assert_eq!(base.len(), 2);
    assert_eq!(base.neighbors(0), &vec![1]);
    assert_eq!(base.neighbors(1), &vec![0]);
}

#[test]
fn fifty_random_vectors_stay_within_degree_and_connected() {
    let vectors = random_vectors(50, 8, 42);
    let mut b = HNSWBuilder::new(storage(vectors)).seed(3).max_level(3).max_num_edges(8);
    let h = b.build().unwrap();
    assert_eq!(h.num_levels(), 3);
    let base = h.level(0);
    assert_eq!(base.len(), 50);
    for i in 0..50u32 {
        let d = base.neighbors(i).len();
        assert!(d >= 1 && d <= 8, "node {} has degree {}", i, d);
    }
    let mut seen = vec![false; 50];
    let mut queue = VecDeque::new();
    seen[h.entry_point() as usize] = true;
    queue.push_back(h.entry_point());
    while let Some(x) = queue.pop_front() {
        for &y in base.neighbors(x) {
            if !seen[y as usize] {
                seen[y as usize] = true;
                queue.push_back(y);
            }
        }
    }
    assert!(seen.iter().all(|&s| s));
}

#[test]
fn zero_search_width_builds_without_edges() {
    let vectors = random_vectors(30, 4, 5);
    let mut b = HNSWBuilder::new(storage(vectors)).seed(11).ef_construction(0);
    let h = b.build().unwrap();
    for layer in edges(&h) {
        for list in layer {
            assert!(list.is_empty());
        }
    }
    assert_eq!(h.level(0).len(), 30);
}

#[test]
fn same_seed_gives_same_edges() {
    let vectors = random_vectors(60, 6, 9);
    let mut b1 = HNSWBuilder::new(storage(vectors.clone())).seed(123).max_num_edges(6);
    let mut b2 = HNSWBuilder::new(storage(vectors)).seed(123).max_num_edges(6);
    let h1 = b1.build().unwrap();
    let h2 = b2.build().unwrap();
    assert_eq!(edges(&h1), edges(&h2));
    assert_eq!(h1.heights, h2.heights);
}

#[test]
fn nodes_sit_in_the_layers_up_to_their_height() {
    let vectors = random_vectors(120, 3, 17);
    let mut b = HNSWBuilder::new(storage(vectors)).seed(5).max_level(4);
    let h = b.build().unwrap();
    for i in 0..120u32 {
        let top = h.height(i) as usize;
        for l in 0..h.num_levels() {
            assert_eq!(h.level(l).contains(i), l <= top);
        }
    }
    assert_eq!(h.height(0), 3);
}

#[test]
fn degrees_stay_within_bound_on_every_layer() {
    let vectors = random_vectors(150, 4, 23);
    let mut b = HNSWBuilder::new(storage(vectors)).seed(8).max_level(4).max_num_edges(5);
    let h = b.build().unwrap();
    for layer in edges(&h) {
        for list in layer {
            assert!(list.len() <= 5);
        }
    }
}

#[test]
fn plain_selection_builds_within_bound() {
    let vectors = random_vectors(80, 5, 31);
    let mut b = HNSWBuilder::new(storage(vectors))
        .seed(2)
        .use_select_heuristic(false)
        .extend_candidates(true)
        .max_num_edges(4);
    let h = b.build().unwrap();
    let base = h.level(0);
    for i in 0..80u32 {
        assert!(base.neighbors(i).len() <= 4);
        assert!(!base.neighbors(i).is_empty());
    }
}

#[test]
fn most_nodes_stay_in_the_base_layer() {
    let vectors = random_vectors(500, 2, 41);
    let mut b = HNSWBuilder::new(storage(vectors)).seed(77);
    let h = b.build().unwrap();
    let base_only = (1..500u32).filter(|&i| h.height(i) == 0).count();
    let higher = (1..500u32).filter(|&i| h.height(i) > 0).count();
    assert!(base_only > 350, "{} nodes in the base layer only", base_only);
    assert!(higher > 0);
    assert_eq!(h.level(7).len(), 1);
}

#[test]
fn default_settings() {
    let b = HNSWBuilder::new(storage(vec![vec![0]]));
    assert_eq!(b.max_level, 8);
    assert_eq!(b.m_max, 64);
    assert_eq!(b.ef_construction, 100);
    assert!(!b.extend_candidates);
    assert!(b.use_select_heuristic);
    assert_eq!(b.log_base, 10);
}

#[test]
fn empty_storage_builds_empty_layers() {
    let mut b = HNSWBuilder::new(storage(vec![])).max_level(2);
    let h = b.build_with(storage(vec![])).unwrap();
    assert_eq!(h.num_levels(), 2);
    assert_eq!(h.level(0).len(), 0);
}

#[test]
fn mismatched_dimensions_are_refused() {
    let r = InMemoryVectorStorage::try_new(vec![vec![1, 2], vec![3]]);
    assert!(matches!(r, Err(HnswError::DimensionMismatch)));
}
