use kambo_graph::Graph;
use kambo_graph::GraphError;
use kambo_graph::GraphMut;
use kambo_graph::SimpleGraph;
use kambo_graph::traits::weighted::WeightedGraph;
use kambo_graph::traits::weighted::WeightedGraphMut;

#[test]
fn set_edge_weight_mirrors_when_undirected() {
    // Scenario: weighted undirected graph; one weight stored both ways.
    let mut g: SimpleGraph<u64, i32> = SimpleGraph::new_weighted_undirected();
    assert!(g.add_vertex(1).is_ok());
    assert!(g.add_vertex(2).is_ok());
    assert!(g.set_edge_weight(&1, &2, 10).is_ok());
    assert_eq!(g.edge_weight(&1, &2), Some(&10));
    assert_eq!(g.edge_weight(&2, &1), Some(&10));
    // Setting a weight also creates the adjacency relation.
    assert!(g.contains_edge(&1, &2));
    assert!(g.contains_edge(&2, &1));
    assert_eq!(g.edge_count(), 1);
}

#[test]
fn set_edge_weight_is_one_way_when_directed() {
    let mut g: SimpleGraph<u64, i32> = SimpleGraph::new_weighted_directed();
    assert!(g.add_vertex(1).is_ok());
    assert!(g.add_vertex(2).is_ok());
    assert!(g.set_edge_weight(&1, &2, 5).is_ok());
    assert_eq!(g.edge_weight(&1, &2), Some(&5));
    assert_eq!(g.edge_weight(&2, &1), None);
    assert!(g.contains_edge(&1, &2));
    assert!(!g.contains_edge(&2, &1));
}

#[test]
fn set_edge_weight_missing_endpoint_is_vertex_not_found() {
    let mut g: SimpleGraph<u64, i32> = SimpleGraph::new_weighted_undirected();
    assert!(g.add_vertex(1).is_ok());
    assert!(matches!(
        g.set_edge_weight(&1, &2, 3),
        Err(GraphError::VertexNotFound)
    ));
    assert!(matches!(
        g.set_edge_weight(&9, &1, 3),
        Err(GraphError::VertexNotFound)
    ));
    assert_eq!(g.edge_weight(&1, &2), None);
}

#[test]
fn set_edge_weight_overwrites() {
    let mut g: SimpleGraph<u64, i32> = SimpleGraph::new_weighted_undirected();
    assert!(g.add_vertex(1).is_ok());
    assert!(g.add_vertex(2).is_ok());
    assert!(g.set_edge_weight(&1, &2, 10).is_ok());
    assert!(g.set_edge_weight(&1, &2, 42).is_ok());
    assert_eq!(g.edge_weight(&1, &2), Some(&42));
    assert_eq!(g.edge_weight(&2, &1), Some(&42));
    assert_eq!(g.edge_count(), 1);
}

#[test]
fn plain_edges_carry_no_weight() {
    // The weight channel is independent keying: `add_edge` records none.
    let mut g: SimpleGraph<u64, i32> = SimpleGraph::new_weighted_undirected();
    assert!(g.add_vertex(1).is_ok());
    assert!(g.add_vertex(2).is_ok());
    assert!(g.add_edge(&1, &2).is_ok());
    assert_eq!(g.edge_weight(&1, &2), None);
    assert_eq!(g.edge_weight(&2, &1), None);
}

#[test]
fn remove_edge_discards_the_weight() {
    let mut g: SimpleGraph<u64, i32> = SimpleGraph::new_weighted_undirected();
    assert!(g.add_vertex(1).is_ok());
    assert!(g.add_vertex(2).is_ok());
    assert!(g.set_edge_weight(&1, &2, 10).is_ok());
    assert!(g.remove_edge(&1, &2).is_ok());
    assert_eq!(g.edge_weight(&1, &2), None);
    assert_eq!(g.edge_weight(&2, &1), None);
    assert!(!g.contains_edge(&1, &2));
    assert!(!g.contains_edge(&2, &1));
}

#[test]
fn remove_vertex_discards_incident_weights() {
    let mut g: SimpleGraph<u64, i32> = SimpleGraph::new_weighted_undirected();
    for x in [1, 2, 3] {
        assert!(g.add_vertex(x).is_ok());
    }
    assert!(g.set_edge_weight(&1, &2, 7).is_ok());
    assert!(g.set_edge_weight(&2, &3, 8).is_ok());
    assert!(g.remove_vertex(&2).is_ok());
    assert!(!g.contains_vertex(&2));
    assert_eq!(g.edge_weight(&1, &2), None);
    assert_eq!(g.edge_weight(&2, &1), None);
    assert_eq!(g.edge_weight(&2, &3), None);
    assert_eq!(g.edge_weight(&3, &2), None);
    assert_eq!(g.degree(&1), Some(0));
    assert_eq!(g.degree(&3), Some(0));
}

#[test]
fn weighted_graph_over_string_vertices() {
    let mut g: SimpleGraph<String, i64> = SimpleGraph::new_weighted_directed();
    assert!(g.add_vertex("x".to_string()).is_ok());
    assert!(g.add_vertex("y".to_string()).is_ok());
    assert!(g.set_edge_weight(&"x".to_string(), &"y".to_string(), -4).is_ok());
    assert_eq!(g.edge_weight(&"x".to_string(), &"y".to_string()), Some(&-4));
    assert_eq!(g.edge_weight(&"y".to_string(), &"x".to_string()), None);
}
