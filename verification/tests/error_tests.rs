use kambo_graph::GraphError;

#[test]
fn each_error_kind_has_its_sentence() {
    assert_eq!(GraphError::VertexNotFound.message(), "Vertex not found.");
    assert_eq!(
        GraphError::VertexAlreadyExists.message(),
        "Vertex already exists."
    );
    assert_eq!(GraphError::EdgeAlreadyExists.message(), "Edge already exists.");
    assert_eq!(GraphError::EdgeNotFound.message(), "Edge not found.");
}

#[test]
fn invalid_operation_carries_its_reason() {
    let e = GraphError::InvalidOperation("bad line 3".to_string());
    assert_eq!(e.message(), "Invalid operation: bad line 3");
}

#[test]
fn error_kinds_are_comparable() {
    assert_eq!(GraphError::EdgeNotFound, GraphError::EdgeNotFound);
    assert_ne!(GraphError::EdgeNotFound, GraphError::VertexNotFound);
    let e = GraphError::InvalidOperation("x".to_string());
    assert_eq!(e.clone(), e);
}
