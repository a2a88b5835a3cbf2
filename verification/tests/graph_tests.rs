use zonemap::graph::add_neighbor;
use zonemap::graph::NeighborGraph;

fn pairs(graph: &NeighborGraph, ids: &[u32]) -> Vec<(u32, u32)> {
    let mut found = Vec::new();
    for &a in ids {
        for &b in ids {
            if graph.are_neighbors(a, b) {
                found.push((a, b));
            }
        }
    }
    found
}

#[test]
fn new_graph_has_no_edges() {
    let graph = NeighborGraph::new();
    assert_eq!(graph.len(), 0);
    assert_eq!(graph.neighbor_count(1), 0);
    assert!(!graph.are_neighbors(1, 2));
}

#[test]
fn add_neighbor_links_both_directions() {
    let mut graph = NeighborGraph::new();
    add_neighbor(&mut graph, 3, 9);
    assert!(graph.are_neighbors(3, 9));
    assert!(graph.are_neighbors(9, 3));
    assert_eq!(graph.neighbor_count(3), 1);
    assert_eq!(graph.neighbor_count(9), 1);
    assert_eq!(graph.len(), 2);
}

#[test]
fn add_neighbor_ignores_sentinel() {
    let mut graph = NeighborGraph::new();
    add_neighbor(&mut graph, 0, 9);
    add_neighbor(&mut graph, 9, 0);
    add_neighbor(&mut graph, 0, 0);
    assert_eq!(graph.len(), 0);
    assert_eq!(graph.neighbor_count(0), 0);
    assert_eq!(graph.neighbor_count(9), 0);
    assert!(!graph.are_neighbors(0, 9));
    assert!(!graph.are_neighbors(9, 0));
}

#[test]
fn add_neighbor_ignores_self_loop() {
    let mut graph = NeighborGraph::new();
    add_neighbor(&mut graph, 7, 7);
    assert_eq!(graph.len(), 0);
    assert!(!graph.are_neighbors(7, 7));
}

#[test]
fn add_neighbor_twice_changes_nothing() {
    let mut once = NeighborGraph::new();
    add_neighbor(&mut once, 1, 2);
    add_neighbor(&mut once, 2, 5);
    let mut twice = NeighborGraph::new();
    add_neighbor(&mut twice, 1, 2);
    add_neighbor(&mut twice, 2, 5);
    add_neighbor(&mut twice, 1, 2);
    add_neighbor(&mut twice, 2, 1);
    let ids = [0, 1, 2, 5];
    assert_eq!(pairs(&once, &ids), pairs(&twice, &ids));
    assert_eq!(once.len(), twice.len());
    assert_eq!(twice.neighbor_count(1), 1);
    assert_eq!(twice.neighbor_count(2), 2);
    assert_eq!(twice.neighbor_count(5), 1);
}

#[test]
fn graph_is_symmetric_after_many_insertions() {
    let mut graph = NeighborGraph::new();
    let inserted = [(1u32, 2u32), (2, 3), (3, 1), (4, 1), (0, 4), (5, 5), (6, 2), (2, 6)];
    for &(a, b) in inserted.iter() {
        add_neighbor(&mut graph, a, b);
    }
    for a in 0..8u32 {
        assert!(!graph.are_neighbors(a, a));
        assert!(!graph.are_neighbors(0, a));
        assert!(!graph.are_neighbors(a, 0));
        for b in 0..8u32 {
            assert_eq!(graph.are_neighbors(a, b), graph.are_neighbors(b, a));
        }
    }
    assert_eq!(graph.neighbor_count(1), 3);
    assert_eq!(graph.neighbor_count(2), 3);
    assert_eq!(graph.len(), 5);
}
