use dijkstra_paths::graph::Graph;
use dijkstra_paths::query::{all_pairs, multi_source, single_source, PathError};

// Weights are in tenths: 11 stands for 1.1.
fn sample_graph() -> Graph {
    let mut g = Graph::new(3, true, false);
    g.add_edge(0, 1, Some(10));
    g.add_edge(1, 0, Some(20));
    g.add_edge(0, 2, Some(30));
    g.add_edge(1, 2, Some(11));
    g
}

fn diamond(directed: bool) -> Graph {
    let mut g = Graph::new(4, directed, false);
    g.add_edge(0, 1, Some(1));
    g.add_edge(1, 3, Some(1));
    g.add_edge(0, 2, Some(1));
    g.add_edge(2, 3, Some(1));
    g
}

#[test]
fn single_source_to_target() {
    let g = sample_graph();
    let r = single_source(&g, true, 0, Some(2), None, false).unwrap();
    assert_eq!(r.len(), 1);
    let info = r.get(&2).unwrap();
    assert_eq!(info.distance, 21);
    assert_eq!(info.paths, vec![vec![0, 1, 2]]);
}

#[test]
fn multi_source_to_target() {
    let g = sample_graph();
    let r = multi_source(&g, true, vec![0, 1], Some(2), None, false).unwrap();
    assert_eq!(r.len(), 1);
    let info = r.get(&2).unwrap();
    assert_eq!(info.distance, 11);
    assert_eq!(info.paths, vec![vec![1, 2]]);
}

#[test]
fn single_source_all_targets() {
    let g = sample_graph();
    let r = single_source(&g, true, 0, None, None, false).unwrap();
    assert_eq!(r.len(), 3);
    assert_eq!(r.get(&0).unwrap().distance, 0);
    assert_eq!(r.get(&0).unwrap().paths, vec![vec![0]]);
    assert_eq!(r.get(&1).unwrap().distance, 10);
    assert_eq!(r.get(&1).unwrap().paths, vec![vec![0, 1]]);
    assert_eq!(r.get(&2).unwrap().distance, 21);
}

#[test]
fn all_pairs_sample() {
    let g = sample_graph();
    let r = all_pairs(&g, true, None, false).unwrap();
    assert_eq!(r.len(), 3);
    assert_eq!(r.get(&0).unwrap().get(&2).unwrap().distance, 21);
    assert_eq!(r.get(&1).unwrap().get(&0).unwrap().distance, 20);
    assert_eq!(r.get(&1).unwrap().get(&2).unwrap().distance, 11);
    assert_eq!(r.get(&2).unwrap().len(), 1);
    let one = single_source(&g, true, 1, Some(0), None, false).unwrap();
    assert_eq!(
        one.get(&0).unwrap().paths,
        r.get(&1).unwrap().get(&0).unwrap().paths
    );
}

#[test]
fn equal_cost_paths_all() {
    let g = diamond(true);
    let r = single_source(&g, true, 0, Some(3), None, false).unwrap();
    let info = r.get(&3).unwrap();
    assert_eq!(info.distance, 2);
    assert_eq!(info.paths.len(), 2);
    assert!(info.paths.contains(&vec![0, 1, 3]));
    assert!(info.paths.contains(&vec![0, 2, 3]));
}

#[test]
fn equal_cost_paths_first_only() {
    let g = diamond(true);
    let r = single_source(&g, true, 0, Some(3), None, true).unwrap();
    let info = r.get(&3).unwrap();
    assert_eq!(info.distance, 2);
    assert_eq!(info.paths.len(), 1);
    assert!(info.paths[0] == vec![0, 1, 3] || info.paths[0] == vec![0, 2, 3]);
}

#[test]
fn undirected_equal_cost_paths() {
    let g = diamond(false);
    let r = single_source(&g, true, 3, Some(0), None, false).unwrap();
    let info = r.get(&0).unwrap();
    assert_eq!(info.distance, 2);
    assert_eq!(info.paths.len(), 2);
}

#[test]
fn negative_edge_contradiction() {
    let mut g = Graph::new(3, true, false);
    g.add_edge(0, 1, Some(1));
    g.add_edge(0, 2, Some(5));
    g.add_edge(2, 1, Some(-10));
    let r = single_source(&g, true, 0, None, None, false);
    assert_eq!(r.err(), Some(PathError::ContradictoryPaths));
    let all = all_pairs(&g, true, None, false);
    assert_eq!(all.err(), Some(PathError::ContradictoryPaths));
}

#[test]
fn missing_weight_rejected() {
    let mut g = Graph::new(2, true, false);
    g.add_edge(0, 1, None);
    let r = single_source(&g, true, 0, None, None, false);
    assert_eq!(r.err(), Some(PathError::EdgeWeightNotSpecified));
    let all = all_pairs(&g, true, None, false);
    assert_eq!(all.err(), Some(PathError::EdgeWeightNotSpecified));
    let unweighted = single_source(&g, false, 0, None, None, false).unwrap();
    assert_eq!(unweighted.get(&1).unwrap().distance, 1);
}

#[test]
fn unweighted_counts_edges() {
    let g = sample_graph();
    let r = single_source(&g, false, 0, None, None, false).unwrap();
    let info = r.get(&2).unwrap();
    assert_eq!(info.distance, 1);
    assert_eq!(info.paths, vec![vec![0, 2]]);
}

#[test]
fn unweighted_matches_unit_weights() {
    let g = sample_graph();
    let mut unit = Graph::new(3, true, false);
    unit.add_edge(0, 1, Some(1));
    unit.add_edge(1, 0, Some(1));
    unit.add_edge(0, 2, Some(1));
    unit.add_edge(1, 2, Some(1));
    for s in 0..3usize {
        let a = single_source(&g, false, s, None, None, false).unwrap();
        let b = single_source(&unit, true, s, None, None, false).unwrap();
        assert_eq!(a.len(), b.len());
        for (t, info) in a.iter() {
            assert_eq!(info.distance, b.get(t).unwrap().distance);
            assert_eq!(info.paths, b.get(t).unwrap().paths);
        }
    }
}

#[test]
fn cutoff_prunes_far_nodes() {
    let g = sample_graph();
    let small = single_source(&g, true, 0, None, Some(15), false).unwrap();
    assert_eq!(small.len(), 2);
    assert!(small.get(&2).is_none());
    let large = single_source(&g, true, 0, None, Some(25), false).unwrap();
    assert_eq!(large.len(), 3);
    for t in small.keys() {
        assert!(large.contains_key(t));
    }
}

#[test]
fn multigraph_uses_cheapest_edge() {
    let mut g = Graph::new(2, true, true);
    g.add_edge(0, 1, Some(7));
    g.add_edge(0, 1, Some(3));
    g.add_edge(0, 1, Some(5));
    let r = single_source(&g, true, 0, Some(1), None, false).unwrap();
    assert_eq!(r.get(&1).unwrap().distance, 3);
    assert_eq!(r.get(&1).unwrap().paths, vec![vec![0, 1]]);
}

#[test]
fn plain_graph_keeps_last_weight() {
    let mut g = Graph::new(2, true, false);
    g.add_edge(0, 1, Some(7));
    g.add_edge(0, 1, Some(9));
    let r = single_source(&g, true, 0, Some(1), None, false).unwrap();
    assert_eq!(r.get(&1).unwrap().distance, 9);
}

#[test]
fn unreachable_target_is_absent() {
    let g = sample_graph();
    let r = single_source(&g, true, 2, Some(0), None, false).unwrap();
    assert!(r.is_empty());
}

#[test]
fn source_is_its_own_target() {
    let g = sample_graph();
    let r = single_source(&g, true, 1, Some(1), None, false).unwrap();
    assert_eq!(r.get(&1).unwrap().distance, 0);
    assert_eq!(r.get(&1).unwrap().paths, vec![vec![1]]);
}

#[test]
fn non_negative_distances() {
    let g = diamond(false);
    let r = all_pairs(&g, true, None, false).unwrap();
    for (_, inner) in r.iter() {
        for (_, info) in inner.iter() {
            assert!(info.distance >= 0);
            for p in info.paths.iter() {
                assert_eq!(p.len() as i64 - 1, info.distance);
            }
        }
    }
}
