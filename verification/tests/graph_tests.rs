use kambo_graph::Graph;
use kambo_graph::GraphError;
use kambo_graph::GraphMut;
use kambo_graph::SimpleGraph;

#[test]
fn directed_add_edge_and_degrees() {
    // Scenario: directed graph with vertices 1, 2, 3 and one edge.
    let mut g: SimpleGraph<u64> = SimpleGraph::new_directed();
    assert!(g.is_directed());
    assert!(g.add_vertex(1).is_ok());
    assert!(g.add_vertex(2).is_ok());
    assert!(g.add_vertex(3).is_ok());
    assert!(g.add_edge(&1, &2).is_ok());
    assert_eq!(g.degree(&1), Some(1));
    assert_eq!(g.degree(&2), Some(0));
    assert_eq!(g.edge_count(), 1);
    assert_eq!(g.order(), 3);
    assert!(g.contains_edge(&1, &2));
    assert!(!g.contains_edge(&2, &1));
}

#[test]
fn undirected_string_edge_is_mirrored() {
    // Scenario: undirected graph over string vertices.
    let mut g: SimpleGraph<String> = SimpleGraph::new_undirected();
    assert!(!g.is_directed());
    assert!(g.add_vertex("a".to_string()).is_ok());
    assert!(g.add_vertex("b".to_string()).is_ok());
    assert!(g.add_edge(&"a".to_string(), &"b".to_string()).is_ok());
    assert!(g.contains_edge(&"b".to_string(), &"a".to_string()));
    assert!(g.contains_edge(&"a".to_string(), &"b".to_string()));
    assert_eq!(g.edge_count(), 1);
}

#[test]
fn add_edge_missing_endpoint_is_vertex_not_found() {
    // Scenario: adding an edge whose source is absent.
    let mut g: SimpleGraph<u64> = SimpleGraph::new_directed();
    assert!(g.add_vertex(2).is_ok());
    assert!(matches!(g.add_edge(&1, &2), Err(GraphError::VertexNotFound)));
    let mut h: SimpleGraph<u64> = SimpleGraph::new_directed();
    assert!(h.add_vertex(1).is_ok());
    assert!(matches!(h.add_edge(&1, &2), Err(GraphError::VertexNotFound)));
}

#[test]
fn remove_isolated_vertices_empties_edgeless_graph() {
    // Scenario: two edgeless vertices, pruned in one call.
    let mut g: SimpleGraph<u64> = SimpleGraph::new_undirected();
    assert!(g.add_vertex(1).is_ok());
    assert!(g.add_vertex(2).is_ok());
    assert!(g.remove_isolated_vertices().is_ok());
    assert_eq!(g.order(), 0);
    assert!(!g.contains_vertex(&1));
    assert!(!g.contains_vertex(&2));
    assert!(matches!(
        g.remove_isolated_vertices(),
        Err(GraphError::VertexNotFound)
    ));
}

#[test]
fn duplicate_vertex_is_vertex_already_exists() {
    let mut g: SimpleGraph<u64> = SimpleGraph::new_directed();
    assert!(g.add_vertex(7).is_ok());
    assert!(matches!(
        g.add_vertex(7),
        Err(GraphError::VertexAlreadyExists)
    ));
    assert_eq!(g.order(), 1);
}

#[test]
fn duplicate_edge_is_edge_already_exists() {
    let mut g: SimpleGraph<u64> = SimpleGraph::new_undirected();
    assert!(g.add_vertex(1).is_ok());
    assert!(g.add_vertex(2).is_ok());
    assert!(g.add_edge(&1, &2).is_ok());
    assert!(matches!(g.add_edge(&1, &2), Err(GraphError::EdgeAlreadyExists)));
    // The mirrored direction counts as the same undirected edge.
    assert!(matches!(g.add_edge(&2, &1), Err(GraphError::EdgeAlreadyExists)));
    assert_eq!(g.edge_count(), 1);
}

#[test]
fn remove_absent_edge_is_edge_not_found_and_changes_nothing() {
    let mut g: SimpleGraph<u64> = SimpleGraph::new_undirected();
    assert!(g.add_vertex(1).is_ok());
    assert!(g.add_vertex(2).is_ok());
    assert!(g.add_vertex(3).is_ok());
    assert!(g.add_edge(&1, &2).is_ok());
    assert!(matches!(g.remove_edge(&1, &3), Err(GraphError::EdgeNotFound)));
    assert!(matches!(g.remove_edge(&9, &1), Err(GraphError::EdgeNotFound)));
    assert_eq!(g.order(), 3);
    assert_eq!(g.edge_count(), 1);
    assert!(g.contains_edge(&1, &2));
    assert!(g.contains_edge(&2, &1));
}

#[test]
fn remove_edge_unlinks_both_directions_when_undirected() {
    let mut g: SimpleGraph<u64> = SimpleGraph::new_undirected();
    assert!(g.add_vertex(1).is_ok());
    assert!(g.add_vertex(2).is_ok());
    assert!(g.add_edge(&1, &2).is_ok());
    assert!(g.remove_edge(&2, &1).is_ok());
    assert!(!g.contains_edge(&1, &2));
    assert!(!g.contains_edge(&2, &1));
    assert_eq!(g.edge_count(), 0);
}

#[test]
fn remove_edge_keeps_direction_when_directed() {
    let mut g: SimpleGraph<u64> = SimpleGraph::new_directed();
    assert!(g.add_vertex(1).is_ok());
    assert!(g.add_vertex(2).is_ok());
    assert!(g.add_edge(&1, &2).is_ok());
    assert!(g.add_edge(&2, &1).is_ok());
    assert!(g.remove_edge(&1, &2).is_ok());
    assert!(!g.contains_edge(&1, &2));
    assert!(g.contains_edge(&2, &1));
    assert_eq!(g.edge_count(), 1);
}

#[test]
fn remove_vertex_cascades_through_neighbors() {
    let mut g: SimpleGraph<u64> = SimpleGraph::new_directed();
    for x in [1, 2, 3] {
        assert!(g.add_vertex(x).is_ok());
    }
    assert!(g.add_edge(&1, &2).is_ok());
    assert!(g.add_edge(&2, &3).is_ok());
    assert!(g.add_edge(&3, &2).is_ok());
    assert!(g.remove_vertex(&2).is_ok());
    assert!(!g.contains_vertex(&2));
    assert_eq!(g.order(), 2);
    assert_eq!(g.degree(&1), Some(0));
    assert_eq!(g.degree(&3), Some(0));
    let n1 = g.neighbors(&1).unwrap();
    assert!(n1.is_empty());
    assert_eq!(g.edge_count(), 0);
    assert!(matches!(g.remove_vertex(&2), Err(GraphError::VertexNotFound)));
}

#[test]
fn vertices_and_order_agree() {
    let mut g: SimpleGraph<u64> = SimpleGraph::new_undirected();
    for x in [5, 3, 9, 12] {
        assert!(g.add_vertex(x).is_ok());
    }
    let mut vs = g.vertices();
    vs.sort();
    assert_eq!(vs, vec![3, 5, 9, 12]);
    assert_eq!(g.order(), 4);
    assert_eq!(g.vertices().len(), g.order());
}

#[test]
fn neighbors_of_absent_vertex_is_none() {
    let g: SimpleGraph<u64> = SimpleGraph::new_directed();
    assert!(g.neighbors(&4).is_none());
    assert!(g.degree(&4).is_none());
    assert!(!g.contains_vertex(&4));
    assert!(!g.contains_edge(&4, &5));
}

#[test]
fn neighbors_lists_each_neighbor_once() {
    let mut g: SimpleGraph<u64> = SimpleGraph::new_undirected();
    for x in [1, 2, 3] {
        assert!(g.add_vertex(x).is_ok());
    }
    assert!(g.add_edge(&1, &2).is_ok());
    assert!(g.add_edge(&1, &3).is_ok());
    let mut n1 = g.neighbors(&1).unwrap();
    n1.sort();
    assert_eq!(n1, vec![2, 3]);
    let n2 = g.neighbors(&2).unwrap();
    assert_eq!(n2, vec![1]);
}

#[test]
fn isolated_vertices_are_detected_until_touched() {
    let mut g: SimpleGraph<u64> = SimpleGraph::new_undirected();
    for x in [1, 2, 3] {
        assert!(g.add_vertex(x).is_ok());
    }
    assert!(g.has_isolated_vertex());
    let mut iso = g.get_isolated_vertices();
    iso.sort();
    assert_eq!(iso, vec![1, 2, 3]);
    assert!(g.add_edge(&1, &2).is_ok());
    let iso2 = g.get_isolated_vertices();
    assert_eq!(iso2, vec![3]);
    assert!(g.has_isolated_vertex());
    assert!(g.add_edge(&2, &3).is_ok());
    assert!(!g.has_isolated_vertex());
    assert!(g.get_isolated_vertices().is_empty());
}

#[test]
fn undirected_edges_stay_symmetric_through_mutations() {
    let mut g: SimpleGraph<u64> = SimpleGraph::new_undirected();
    for x in [1, 2, 3, 4] {
        assert!(g.add_vertex(x).is_ok());
    }
    assert!(g.add_edge(&1, &2).is_ok());
    assert!(g.add_edge(&2, &3).is_ok());
    assert!(g.add_edge(&3, &4).is_ok());
    assert!(g.remove_edge(&2, &3).is_ok());
    for a in 1..=4u64 {
        for b in 1..=4u64 {
            assert_eq!(g.contains_edge(&a, &b), g.contains_edge(&b, &a));
        }
    }
}

#[test]
fn undirected_edge_count_counts_unordered_pairs() {
    let mut g: SimpleGraph<u64> = SimpleGraph::new_undirected();
    for x in [1, 2, 3] {
        assert!(g.add_vertex(x).is_ok());
    }
    assert!(g.add_edge(&1, &2).is_ok());
    assert!(g.add_edge(&2, &3).is_ok());
    assert!(g.add_edge(&3, &1).is_ok());
    // Three distinct unordered pairs carry an edge.
    assert_eq!(g.edge_count(), 3);
}

#[test]
fn default_graph_is_empty_and_undirected() {
    let g: SimpleGraph<u64> = SimpleGraph::default();
    assert!(!g.is_directed());
    assert_eq!(g.order(), 0);
    assert_eq!(g.edge_count(), 0);
    assert!(g.vertices().is_empty());
}

#[test]
fn self_loops_follow_the_adjacency_representation() {
    // A self-loop is not rejected; it occupies one neighbor slot, so
    // the halved undirected count does not see it as a full edge.
    let mut d: SimpleGraph<u64> = SimpleGraph::new_directed();
    assert!(d.add_vertex(1).is_ok());
    assert!(d.add_edge(&1, &1).is_ok());
    assert!(d.contains_edge(&1, &1));
    assert_eq!(d.degree(&1), Some(1));
    assert_eq!(d.edge_count(), 1);
    assert!(matches!(d.add_edge(&1, &1), Err(GraphError::EdgeAlreadyExists)));

    let mut u: SimpleGraph<u64> = SimpleGraph::new_undirected();
    assert!(u.add_vertex(1).is_ok());
    assert!(u.add_edge(&1, &1).is_ok());
    assert!(u.contains_edge(&1, &1));
    assert_eq!(u.degree(&1), Some(1));
    assert_eq!(u.edge_count(), 0);
}
