use core_needle::representation::dataset::{Dataset, VersionNode};
use core_needle::representation::graph::Graph;
use core_needle::representation::issue::{IssueCode, Severity};
use core_needle::representation::node::Node;
use core_needle::representation::node_id::NodeId;
use core_needle::representation::node_kind::NodeKind;

fn mk_node(id: &str, kind: &str, links: &[&str]) -> Node {
    Node {
        id: Some(NodeId::new(id)),
        kind: Some(kind.to_string()),
        links: links.iter().map(|l| NodeId::new(l)).collect(),
        links_back: Vec::new(),
        title: None,
        status: None,
        url: None,
        tags: None,
        extra: Vec::new(),
    }
}

fn build_graph(entries: Vec<(&str, Node)>) -> Graph {
    let needs: Vec<(NodeId, Node)> =
        entries.into_iter().map(|(k, n)| (NodeId::new(k), n)).collect();
    let ds = Dataset {
        current_version: Some("1.0".to_string()),
        versions: vec![("1.0".to_string(), VersionNode { needs })],
    };
    let view = ds.access_current_version().expect("current version resolves");
    Graph::new(view)
}

fn graph_ok() -> Graph {
    build_graph(vec![
        ("REQ_1", mk_node("REQ_1", "req", &["SPEC_1"])),
        ("SPEC_1", mk_node("SPEC_1", "spec", &["TEST_1"])),
        ("TEST_1", mk_node("TEST_1", "test", &[])),
    ])
}

#[test]
fn graph_builds_ok_and_indexes() {
    let g = graph_ok();

    // nodes & edges
    assert_eq!(g.nodes_len(), 3);
    assert_eq!(g.edges_len(), 2);

    // adjacency shape
    assert_eq!(g.out(&NodeId::new("REQ_1")), vec![NodeId::new("SPEC_1")]);
    assert_eq!(g.out(&NodeId::new("SPEC_1")), vec![NodeId::new("TEST_1")]);
    assert!(g.out(&NodeId::new("TEST_1")).is_empty());

    // reverse shape
    assert_eq!(g.inc(&NodeId::new("SPEC_1")), vec![NodeId::new("REQ_1")]);
    assert_eq!(g.inc(&NodeId::new("TEST_1")), vec![NodeId::new("SPEC_1")]);

    // by_kind buckets
    let reqs = g.of_kind(NodeKind::Req);
    assert_eq!(reqs, vec![NodeId::new("REQ_1")]);

    // no issues
    assert!(!g.has_errors());
    assert!(g.issues.is_empty());
}

#[test]
fn duplicate_outgoing_edge_emits_warning_and_is_deduped() {
    let g = build_graph(vec![
        ("REQ_1", mk_node("REQ_1", "req", &["SPEC_1", "SPEC_1"])),
        ("SPEC_1", mk_node("SPEC_1", "spec", &[])),
    ]);

    // Only one edge remains after dedupe
    assert_eq!(g.out(&NodeId::new("REQ_1")), vec![NodeId::new("SPEC_1")]);

    // A warning is recorded
    let mut saw_dup = false;
    for i in &g.issues {
        if i.code == IssueCode::DuplicateLink && matches!(i.severity, Severity::Warning) {
            saw_dup = true;
            break;
        }
    }
    assert!(saw_dup, "expected DuplicateLink warning");

    // and exactly one of them, about the repeating source
    let dups = g
        .issues
        .iter()
        .filter(|i| i.code == IssueCode::DuplicateLink && i.subject == NodeId::new("REQ_1"))
        .count();
    assert_eq!(dups, 1);
}

#[test]
fn broken_target_emits_error() {
    let g = build_graph(vec![("REQ_1", mk_node("REQ_1", "req", &["SPEC_MISSING"]))]);

    // out edge exists
    assert_eq!(g.out(&NodeId::new("REQ_1")), vec![NodeId::new("SPEC_MISSING")]);

    // should have at least one BrokenLink error
    assert!(
        g.issues
            .iter()
            .any(|i| i.code == IssueCode::BrokenLink && matches!(i.severity, Severity::Error)),
        "expected BrokenLink error"
    );
    assert!(g.has_errors());
}

#[test]
fn reverse_and_by_kind_are_consistent() {
    let g = graph_ok();

    for (u, outs) in &g.adjacency {
        for v in outs {
            let ins = &g
                .reverse
                .iter()
                .find(|e| e.0 == *v)
                .expect("rev bucket for target")
                .1;
            assert!(ins.iter().any(|x| x == u), "rev[{}] missing {}", v.0, u.0);
        }
    }

    // Each node should appear in exactly one matching by_kind bucket
    for (id, n) in &g.nodes {
        let bucket = &g
            .kinds
            .iter()
            .find(|e| e.0 == NodeKind::from_str(n.kind.as_deref().unwrap()))
            .expect("bucket for kind")
            .1;
        assert!(
            bucket.iter().any(|x| x == id),
            "node {} missing from its kind bucket",
            id.0
        );
    }
}

#[test]
fn isolated_node_detected_as_suggestion() {
    let g = build_graph(vec![("LONE", mk_node("LONE", "req", &[]))]);

    // no edges
    assert!(g.out(&NodeId::new("LONE")).is_empty());
    assert!(g.inc(&NodeId::new("LONE")).is_empty());

    let saw_isolated = g
        .issues
        .iter()
        .any(|i| matches!(i.severity, Severity::Suggestion) && i.subject == NodeId::new("LONE"));
    assert!(saw_isolated, "expected suggestion for isolated node");

    // and exactly one dangling finding
    let danglings = g.issues.iter().filter(|i| i.code == IssueCode::DandlingNode).count();
    assert_eq!(danglings, 1);
}

#[test]
fn exempt_kinds_are_never_dangling() {
    let g = build_graph(vec![
        ("ALICE", mk_node("ALICE", "person", &[])),
        ("CORE", mk_node("CORE", "team", &[])),
    ]);
    assert!(g.issues.is_empty());
}

#[test]
fn forward_and_reverse_share_keys_when_links_resolve() {
    let g = graph_ok();
    for (k, _) in &g.adjacency {
        assert!(g.reverse.iter().any(|e| e.0 == *k));
    }
    for (k, _) in &g.reverse {
        assert!(g.adjacency.iter().any(|e| e.0 == *k));
    }
}

#[test]
fn missing_kind_resolves_to_unknown() {
    let mut n = Node::default();
    n.id = Some(NodeId::new("X"));
    let g = build_graph(vec![("X", n)]);
    assert_eq!(g.of_kind(NodeKind::Unknown), vec![NodeId::new("X")]);
}

#[test]
fn empty_table_builds_empty_graph() {
    let g = build_graph(Vec::new());
    assert_eq!(g.nodes_len(), 0);
    assert_eq!(g.edges_len(), 0);
    assert!(g.issues.is_empty());
    assert!(!g.has_errors());
}
