use core_needle::representation::dataset::{Dataset, VersionNode};
use core_needle::representation::node::Node;
use core_needle::representation::node_id::NodeId;

#[test]
fn test_dataset_creation() {
    let mut needs: Vec<(NodeId, Node)> = Vec::new();
    let mut node = Node::default();
    node.id = Some(NodeId::new("test"));
    needs.push((NodeId::new("node1"), node));
    let versions = vec![("1.0.0".to_string(), VersionNode { needs })];

    let dataset = Dataset { current_version: Some("1.0.0".to_string()), versions };

    assert_eq!(dataset.current_version.clone().unwrap(), "1.0.0");
    assert!(dataset.versions.iter().any(|v| v.0 == "1.0.0"));
    assert!(
        dataset.versions[0].1.needs.iter().any(|e| e.0 == NodeId::new("node1"))
    );
}

#[test]
fn test_empty_dataset() {
    let dataset = Dataset { current_version: None, versions: Vec::new() };

    assert!(dataset.current_version.is_none());
    assert!(dataset.versions.is_empty());
}

#[test]
fn test_multiple_versions() {
    let versions = vec![
        ("1.0.0".to_string(), VersionNode { needs: Vec::new() }),
        ("2.0.0".to_string(), VersionNode { needs: Vec::new() }),
    ];

    let dataset = Dataset { current_version: Some("2.0.0".to_string()), versions };

    assert_eq!(dataset.versions.len(), 2);
}

#[test]
fn unresolved_version_is_a_fatal_lookup_failure() {
    let dataset = Dataset {
        current_version: Some("9.9".to_string()),
        versions: vec![("1.0".to_string(), VersionNode { needs: Vec::new() })],
    };
    assert!(dataset.access_version("9.9").is_none());
    assert!(dataset.access_current_version().is_none());
    assert!(dataset.access_version("1.0").is_some());
}

#[test]
fn absent_current_version_is_a_fatal_lookup_failure() {
    let dataset = Dataset {
        current_version: None,
        versions: vec![("1.0".to_string(), VersionNode { needs: Vec::new() })],
    };
    assert!(dataset.access_current_version().is_none());
}
