use core_needle::representation::attr::AttrValue;
use core_needle::representation::node::Node;
use core_needle::representation::node_id::NodeId;

#[test]
fn test_node_default() {
    let node = Node::default();
    assert!(node.id.is_none());
    assert!(node.kind.is_none());
    assert!(node.links.is_empty());
    assert!(node.links_back.is_empty());
    assert!(node.title.is_none());
    assert!(node.status.is_none());
    assert!(node.tags.is_none());
    assert!(node.extra.is_empty());
}

fn sample_node() -> Node {
    Node {
        id: Some(NodeId::new("N1")),
        kind: Some("impl".to_string()),
        links: vec![NodeId::new("N2")],
        links_back: Vec::new(),
        title: Some("A title".to_string()),
        status: Some("   ".to_string()),
        url: None,
        tags: Some(vec!["x".to_string()]),
        extra: vec![
            ("note".to_string(), AttrValue::Text("hello".to_string())),
            ("blank".to_string(), AttrValue::Text("  ".to_string())),
            ("nothing".to_string(), AttrValue::Null),
            ("count".to_string(), AttrValue::Int(0)),
            ("flag".to_string(), AttrValue::Flag(false)),
            ("empty_list".to_string(), AttrValue::List(Vec::new())),
        ],
    }
}

#[test]
fn fixed_schema_fields_are_checked_structurally() {
    let n = sample_node();
    assert!(n.field_present("id"));
    assert!(n.field_present("type"));
    assert!(n.field_present("kind"));
    assert!(n.field_present("title"));
    assert!(!n.field_present("status")); // whitespace-only counts as absent
    assert!(!n.field_present("url"));
    assert!(n.field_present("tags"));
    assert!(n.field_present("links"));
    assert!(!n.field_present("links_back"));
}

#[test]
fn open_attributes_follow_presence_rules() {
    let n = sample_node();
    assert!(n.field_present("note"));
    assert!(!n.field_present("blank")); // blank string is absent
    assert!(!n.field_present("nothing")); // null is absent
    assert!(n.field_present("count")); // numbers always present
    assert!(n.field_present("flag")); // booleans always present
    assert!(!n.field_present("empty_list")); // empty array is absent
    assert!(!n.field_present("no_such_attr"));
}
