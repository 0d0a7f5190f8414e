use core_needle::policy::evaluator::evaluate;
use core_needle::policy::model::{Defaults, Policies, Rule, RuleError, Selector};
use core_needle::policy::registry::{BuiltinRule, Registry};
use core_needle::representation::attr::AttrValue;
use core_needle::representation::dataset::{Dataset, VersionNode};
use core_needle::representation::graph::Graph;
use core_needle::representation::issue::{IssueCode, Severity};
use core_needle::representation::node::Node;
use core_needle::representation::node_id::NodeId;
use core_needle::representation::node_kind::NodeKind;

fn mk_node(id: &str, kind: &str, links: &[&str]) -> Node {
    Node {
        id: Some(NodeId::new(id)),
        kind: Some(kind.to_string()),
        links: links.iter().map(|l| NodeId::new(l)).collect(),
        links_back: Vec::new(),
        title: None,
        status: None,
        url: None,
        tags: None,
        extra: Vec::new(),
    }
}

fn build_graph(entries: Vec<(&str, Node)>) -> Graph {
    let needs: Vec<(NodeId, Node)> =
        entries.into_iter().map(|(k, n)| (NodeId::new(k), n)).collect();
    let ds = Dataset {
        current_version: Some("1.0".to_string()),
        versions: vec![("1.0".to_string(), VersionNode { needs })],
    };
    Graph::new(ds.access_current_version().expect("current version resolves"))
}

fn mk_rule(id: &str, kinds: Vec<NodeKind>, params: AttrValue) -> Rule {
    Rule {
        rule_id: id.to_string(),
        selector: Selector { kinds },
        params,
        severity: None,
        code: None,
        message: None,
    }
}

fn obj(entries: Vec<(&str, AttrValue)>) -> AttrValue {
    AttrValue::Object(entries.into_iter().map(|(k, v)| (k.to_string(), v)).collect())
}

fn chain_graph() -> Graph {
    build_graph(vec![
        ("REQ_1", mk_node("REQ_1", "req", &["SPEC_1"])),
        ("SPEC_1", mk_node("SPEC_1", "spec", &["TEST_1"])),
        ("TEST_1", mk_node("TEST_1", "test", &[])),
    ])
}

fn reach_spec_rule() -> Rule {
    mk_rule(
        "reach_kind",
        vec![NodeKind::Req],
        obj(vec![
            (
                "target_kinds",
                AttrValue::List(vec![AttrValue::Text("spec".to_string())]),
            ),
            ("min", AttrValue::Int(1)),
            ("max_hops", AttrValue::Int(2)),
        ]),
    )
}

#[test]
fn registry_resolves_builtins_and_misses_strangers() {
    let reg = Registry::builtins();
    assert_eq!(reg.get("has_outgoing"), Some(BuiltinRule::HasOutgoing));
    assert_eq!(reg.get("reach_kind"), Some(BuiltinRule::ReachKind));
    assert_eq!(reg.get("field_present"), Some(BuiltinRule::FieldPresent));
    assert_eq!(reg.get("no_such_rule"), None);
}

#[test]
fn reach_kind_finds_spec_at_hop_one() {
    let g = chain_graph();
    let p = Policies {
        version: 1,
        defaults: Defaults::default(),
        rules: vec![reach_spec_rule()],
    };
    let issues = evaluate(&g, &p).expect("evaluation succeeds");
    assert!(issues.is_empty());
}

#[test]
fn reach_kind_flags_req_with_no_outgoing_edges() {
    let g = build_graph(vec![
        ("REQ_LONE", mk_node("REQ_LONE", "req", &[])),
        ("SPEC_1", mk_node("SPEC_1", "spec", &[])),
    ]);
    let p = Policies {
        version: 1,
        defaults: Defaults::default(),
        rules: vec![reach_spec_rule()],
    };
    let issues = evaluate(&g, &p).expect("evaluation succeeds");
    assert_eq!(issues.len(), 1);
    assert_eq!(issues[0].subject, NodeId::new("REQ_LONE"));
}

#[test]
fn reach_kind_counts_distinct_matches_within_hops() {
    // REQ_1 -> A -> B, with A and B both specs: two matches within two hops,
    // so min = 2 is satisfied, min = 3 is not.
    let g = build_graph(vec![
        ("REQ_1", mk_node("REQ_1", "req", &["A"])),
        ("A", mk_node("A", "spec", &["B"])),
        ("B", mk_node("B", "spec", &["A"])),
    ]);
    let rule_with_min = |min: i64| {
        mk_rule(
            "reach_kind",
            vec![NodeKind::Req],
            obj(vec![
                (
                    "target_kinds",
                    AttrValue::List(vec![AttrValue::Text("spec".to_string())]),
                ),
                ("min", AttrValue::Int(min)),
                ("max_hops", AttrValue::Int(2)),
            ]),
        )
    };
    let ok = Policies {
        version: 1,
        defaults: Defaults::default(),
        rules: vec![rule_with_min(2)],
    };
    assert!(evaluate(&g, &ok).expect("ok").is_empty());
    let too_many = Policies {
        version: 1,
        defaults: Defaults::default(),
        rules: vec![rule_with_min(3)],
    };
    assert_eq!(evaluate(&g, &too_many).expect("ok").len(), 1);
}

#[test]
fn field_present_flags_impl_without_url() {
    let g = build_graph(vec![
        ("IMPL_1", mk_node("IMPL_1", "impl", &[])),
        ("ALICE", mk_node("ALICE", "person", &[])),
    ]);
    let p = Policies {
        version: 1,
        defaults: Defaults::default(),
        rules: vec![mk_rule(
            "field_present",
            vec![NodeKind::Impl],
            obj(vec![("field", AttrValue::Text("url".to_string()))]),
        )],
    };
    let issues = evaluate(&g, &p).expect("evaluation succeeds");
    assert_eq!(issues.len(), 1);
    assert_eq!(issues[0].subject, NodeId::new("IMPL_1"));
}

#[test]
fn field_present_without_field_param_fails_the_run() {
    let g = chain_graph();
    let p = Policies {
        version: 1,
        defaults: Defaults::default(),
        rules: vec![mk_rule("field_present", vec![NodeKind::Impl], AttrValue::Null)],
    };
    assert_eq!(evaluate(&g, &p), Err(RuleError::MissingParam));
}

#[test]
fn has_outgoing_respects_min_and_its_fallback() {
    let g = build_graph(vec![
        ("IMPL_1", mk_node("IMPL_1", "impl", &["REQ_1"])),
        ("REQ_1", mk_node("REQ_1", "req", &[])),
    ]);
    // default min = 1: IMPL_1 has one edge, REQ_1 has none
    let p1 = Policies {
        version: 1,
        defaults: Defaults::default(),
        rules: vec![mk_rule(
            "has_outgoing",
            vec![NodeKind::Impl, NodeKind::Req],
            AttrValue::Null,
        )],
    };
    let issues = evaluate(&g, &p1).expect("evaluation succeeds");
    assert_eq!(issues.len(), 1);
    assert_eq!(issues[0].subject, NodeId::new("REQ_1"));
    // min = 2 flags both
    let p2 = Policies {
        version: 1,
        defaults: Defaults::default(),
        rules: vec![mk_rule(
            "has_outgoing",
            vec![NodeKind::Impl, NodeKind::Req],
            obj(vec![("min", AttrValue::Int(2))]),
        )],
    };
    assert_eq!(evaluate(&g, &p2).expect("evaluation succeeds").len(), 2);
}

#[test]
fn unknown_rule_contributes_nothing_and_does_not_abort() {
    let g = build_graph(vec![
        ("REQ_LONE", mk_node("REQ_LONE", "req", &[])),
        ("IMPL_1", mk_node("IMPL_1", "impl", &[])),
    ]);
    let valid_a = mk_rule("has_outgoing", vec![NodeKind::Req], AttrValue::Null);
    let valid_b = mk_rule(
        "field_present",
        vec![NodeKind::Impl],
        obj(vec![("field", AttrValue::Text("url".to_string()))]),
    );
    let bogus = mk_rule("has_outgoing_typo", vec![NodeKind::Req], AttrValue::Null);
    let with_bogus = Policies {
        version: 1,
        defaults: Defaults::default(),
        rules: vec![valid_a, bogus, valid_b],
    };
    let without_bogus = Policies {
        version: 1,
        defaults: Defaults::default(),
        rules: vec![
            mk_rule("has_outgoing", vec![NodeKind::Req], AttrValue::Null),
            mk_rule(
                "field_present",
                vec![NodeKind::Impl],
                obj(vec![("field", AttrValue::Text("url".to_string()))]),
            ),
        ],
    };
    let got = evaluate(&g, &with_bogus).expect("run does not abort");
    let expected = evaluate(&g, &without_bogus).expect("run does not abort");
    assert_eq!(got, expected);
    assert_eq!(got.len(), 2);
}

#[test]
fn evaluation_is_deterministic() {
    let g = chain_graph();
    let p = Policies {
        version: 1,
        defaults: Defaults::default(),
        rules: vec![
            mk_rule("has_outgoing", vec![NodeKind::Req, NodeKind::Test], AttrValue::Null),
            reach_spec_rule(),
        ],
    };
    let first = evaluate(&g, &p).expect("evaluation succeeds");
    let second = evaluate(&g, &p).expect("evaluation succeeds");
    assert_eq!(first.len(), second.len());
    assert_eq!(first, second);
}

#[test]
fn overrides_take_precedence_over_defaults_and_fallbacks() {
    let g = build_graph(vec![("REQ_LONE", mk_node("REQ_LONE", "req", &[]))]);
    let mut rule = mk_rule("has_outgoing", vec![NodeKind::Req], AttrValue::Null);
    rule.severity = Some(Severity::Warning);
    rule.code = Some("BROKEN_LINK".to_string());
    rule.message = Some("needs a forward link".to_string());
    let p = Policies { version: 1, defaults: Defaults::default(), rules: vec![rule] };
    let issues = evaluate(&g, &p).expect("evaluation succeeds");
    assert_eq!(issues.len(), 1);
    assert_eq!(issues[0].severity, Severity::Warning);
    assert_eq!(issues[0].code, IssueCode::BrokenLink);
    assert_eq!(issues[0].detail, "needs a forward link");
}

#[test]
fn defaults_supply_severity_and_max_hops() {
    // With max_hops defaulted to 1 the spec two hops away is out of reach.
    let g = build_graph(vec![
        ("REQ_1", mk_node("REQ_1", "req", &["MID"])),
        ("MID", mk_node("MID", "test", &["SPEC_1"])),
        ("SPEC_1", mk_node("SPEC_1", "spec", &[])),
    ]);
    let rule = mk_rule(
        "reach_kind",
        vec![NodeKind::Req],
        obj(vec![(
            "target_kinds",
            AttrValue::List(vec![AttrValue::Text("spec".to_string())]),
        )]),
    );
    let p = Policies {
        version: 1,
        defaults: Defaults { severity: Some(Severity::Suggestion), max_hops: Some(1) },
        rules: vec![rule],
    };
    let issues = evaluate(&g, &p).expect("evaluation succeeds");
    assert_eq!(issues.len(), 1);
    assert_eq!(issues[0].severity, Severity::Suggestion);
}
