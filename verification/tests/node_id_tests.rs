use core_needle::representation::node_id::NodeId;

#[test]
fn test_node_id_creation() {
    let id = NodeId::new("test");
    assert_eq!(id.0, "test");
}

#[test]
fn test_node_id_display() {
    let id = NodeId::new("test");
    assert_eq!(id.to_string(), "test");
}

#[test]
fn test_node_id_from_str() {
    let id: NodeId = "test".into();
    assert_eq!(id.0, "test");
}

#[test]
fn test_node_id_from_string() {
    let id: NodeId = String::from("test").into();
    assert_eq!(id.0, "test");
}

#[test]
fn test_node_id_as_ref() {
    let id = NodeId::new("test");
    assert_eq!(id.as_ref(), "test");
}

#[test]
fn node_id_equality_is_by_text() {
    assert_eq!(NodeId::new("a"), NodeId::new("a"));
    assert_ne!(NodeId::new("a"), NodeId::new("b"));
}
