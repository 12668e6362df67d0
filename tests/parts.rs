use hnsw_build::{
    ceil_log, level_for_draw, select_neighbors, select_neighbors_heuristic, GraphBuilder,
    HnswError, InMemoryVectorStorage,
};

fn line(points: &[i32]) -> InMemoryVectorStorage {
    InMemoryVectorStorage::try_new(points.iter().map(|&p| vec![p]).collect()).unwrap()
}

#[test]
fn distance_is_squared_euclidean() {
    let s = InMemoryVectorStorage::try_new(vec![vec![0, 0], vec![3, 4]]).unwrap();
    assert_eq!(s.distance(0, 1), 25);
    assert_eq!(s.distance(1, 1), 0);
    assert_eq!(s.len(), 2);
}

#[test]
fn distance_saturates() {
    let s = InMemoryVectorStorage::try_new(vec![vec![i32::MIN], vec![i32::MAX]]).unwrap();
    assert_eq!(s.distance(0, 1), 18446744065119617025);
    let t = InMemoryVectorStorage::try_new(vec![vec![i32::MIN, i32::MIN], vec![i32::MAX, i32::MAX]])
        .unwrap();
    assert_eq!(t.distance(0, 1), u64::MAX);
}

#[test]
fn plain_selection_takes_closest_with_id_tie_break() {
    let c = vec![(5, 1), (3, 9), (3, 4), (7, 2)];
    assert_eq!(select_neighbors(&c, 2), vec![(3, 4), (3, 9)]);
    assert_eq!(select_neighbors(&c, 10), vec![(3, 4), (3, 9), (5, 1), (7, 2)]);
    assert_eq!(select_neighbors(&c, 0), vec![]);
}

#[test]
fn heuristic_prefers_spread_then_fills_up() {
    // query 0 at x=0; nodes 1, 2, 3 at x=10, 11, -12
    let s = line(&[0, 10, 11, -12]);
    let g = GraphBuilder::new(4);
    let c = vec![(100, 1), (121, 2), (144, 3)];
    // node 2 is closer to node 1 than to the query: rejected; node 3 accepted
    assert_eq!(select_neighbors_heuristic(&g, &s, 0, &c, 2, false), vec![(100, 1), (144, 3)]);
    // with room for three, the rejected one fills the last place
    assert_eq!(
        select_neighbors_heuristic(&g, &s, 0, &c, 3, false),
        vec![(100, 1), (144, 3), (121, 2)]
    );
    assert_eq!(select_neighbors_heuristic(&g, &s, 0, &c, 1, false), vec![(100, 1)]);
}

#[test]
fn heuristic_with_extension_stays_in_pool() {
    let s = line(&[0, 10, 11, -12, 3]);
    let mut g = GraphBuilder::new(5);
    for i in 0..5 {
        g.insert(i);
    }
    g.connect(1, 4).unwrap();
    let c = vec![(100, 1), (121, 2)];
    let r = select_neighbors_heuristic(&g, &s, 0, &c, 3, true);
    assert!(r.len() <= 3);
    assert!(r.contains(&(9, 4)));
    for x in &r {
        assert!(c.contains(x) || *x == (9, 4));
    }
    let plain = select_neighbors_heuristic(&g, &s, 0, &c, 3, false);
    assert!(!plain.iter().any(|x| x.1 == 4));
}

#[test]
fn prune_keeps_closest() {
    let s = line(&[0, 5, -1, 3, 9]);
    let mut g = GraphBuilder::new(5);
    for i in 0..5 {
        g.insert(i);
    }
    for i in 1..5 {
        g.connect(0, i).unwrap();
    }
    assert_eq!(g.neighbors(0), &vec![1, 2, 3, 4]);
    g.prune(0, 2, &s).unwrap();
    assert_eq!(g.neighbors(0), &vec![2, 3]);
    assert_eq!(g.neighbors(1), &vec![0]);
}

#[test]
fn prune_within_bound_changes_nothing() {
    let s = line(&[0, 5, -1, 3]);
    let mut g = GraphBuilder::new(4);
    for i in 0..4 {
        g.insert(i);
    }
    g.connect(0, 1).unwrap();
    g.connect(0, 3).unwrap();
    g.connect(0, 2).unwrap();
    g.prune(0, 3, &s).unwrap();
    assert_eq!(g.neighbors(0), &vec![1, 3, 2]);
    g.prune(0, 5, &s).unwrap();
    assert_eq!(g.neighbors(0), &vec![1, 3, 2]);
}

#[test]
fn invalid_node_ids_are_refused() {
    let s = line(&[0, 1]);
    let mut g = GraphBuilder::new(2);
    assert_eq!(g.connect(0, 5), Err(HnswError::InvalidNode));
    assert_eq!(g.prune(2, 1, &s), Err(HnswError::InvalidNode));
    assert!(g.neighbors(0).is_empty());
    // node 1 is not a member yet
    g.insert(0);
    assert_eq!(g.connect(0, 1), Err(HnswError::InvalidNode));
    g.insert(1);
    assert_eq!(g.connect(0, 1), Ok(()));
    assert_eq!(g.neighbors(1), &vec![0]);
}

#[test]
fn connect_is_symmetric_and_ignores_repeats() {
    let mut g = GraphBuilder::new(3);
    for i in 0..3 {
        g.insert(i);
    }
    g.connect(0, 2).unwrap();
    g.connect(2, 0).unwrap();
    g.connect(1, 1).unwrap();
    assert_eq!(g.neighbors(0), &vec![2]);
    assert_eq!(g.neighbors(2), &vec![0]);
    assert!(g.neighbors(1).is_empty());
}

#[test]
fn layer_len_counts_members() {
    let mut g = GraphBuilder::new(4);
    assert_eq!(g.len(), 0);
    g.insert(2);
    g.insert(0);
    g.insert(2);
    assert_eq!(g.len(), 2);
    assert!(g.contains(2) && !g.contains(1));
}

#[test]
fn beam_search_finds_closest_along_a_path() {
    let s = line(&[0, 10, 20, 30, 40]);
    let mut g = GraphBuilder::new(5);
    for i in 0..5 {
        g.insert(i);
    }
    for i in 0..4 {
        g.connect(i, i + 1).unwrap();
    }
    let r = hnsw_build::beam_search(&g, &s, &vec![0], 4, 2);
    assert_eq!(r, vec![(0, 4), (100, 3)]);
    assert!(hnsw_build::beam_search(&g, &s, &vec![0], 4, 0).is_empty());
}

#[test]
fn ceil_log_values() {
    assert_eq!(ceil_log(10, 1000), 3);
    assert_eq!(ceil_log(10, 1001), 4);
    assert_eq!(ceil_log(10, 1), 0);
    assert_eq!(ceil_log(10, 0), 0);
    assert_eq!(ceil_log(2, u64::MAX), 64);
}

#[test]
fn level_formula_values() {
    assert_eq!(level_for_draw(1000, 0, 10, 8), 3);
    assert_eq!(level_for_draw(1000, 5, 10, 8), 2);
    assert_eq!(level_for_draw(1000, 999, 10, 8), 0);
    assert_eq!(level_for_draw(1000, 0, 10, 2), 2);
    assert_eq!(level_for_draw(50, 4, 10, 3), 1);
}
