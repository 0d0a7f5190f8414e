use core_needle::representation::issue::{Issue, IssueCode, Severity};
use core_needle::representation::node_id::NodeId;

#[test]
fn severity_to_str_conversion() {
    assert_eq!(Severity::Error.to_str(), "error");
    assert_eq!(Severity::Warning.to_str(), "warning");
    assert_eq!(Severity::Suggestion.to_str(), "suggestion");
}

#[test]
fn issue_creation() {
    let issue = Issue {
        severity: Severity::Error,
        code: IssueCode::BrokenLink,
        subject: NodeId::new("1"),
        detail: "Test error".to_string(),
    };

    assert_eq!(issue.severity, Severity::Error);
    assert_eq!(issue.code, IssueCode::BrokenLink,);
    assert_eq!(issue.subject, NodeId::new("1"));
    assert_eq!(issue.detail, "Test error");
}

#[test]
fn rule_code_resolution_is_case_insensitive() {
    assert_eq!(IssueCode::from_rule_code("broken_link"), IssueCode::BrokenLink);
    assert_eq!(IssueCode::from_rule_code("BROKEN_LINK"), IssueCode::BrokenLink);
    assert_eq!(IssueCode::from_rule_code("Duplicate_Link"), IssueCode::DuplicateLink);
}

#[test]
fn rule_code_aliases_resolve() {
    assert_eq!(IssueCode::from_rule_code("IMPL_MUST_LINK_SOMETHING"), IssueCode::ImplNoLinks);
    assert_eq!(
        IssueCode::from_rule_code("REQ_MUST_BE_TESTABLE_TRANSITIVELY"),
        IssueCode::ReqMissingDirectTest
    );
    assert_eq!(IssueCode::from_rule_code("IMPL_URL_REQUIRED"), IssueCode::ImplMissingUrl);
}

#[test]
fn unrecognized_rule_code_degrades_to_unknown() {
    assert_eq!(IssueCode::from_rule_code("NO_SUCH_CODE"), IssueCode::Unknown);
    assert_eq!(IssueCode::from_rule_code(""), IssueCode::Unknown);
}

#[test]
fn issue_constructors_set_severity() {
    let w = Issue::warn(IssueCode::DuplicateLink, NodeId::new("n"), "d");
    assert_eq!(w.severity, Severity::Warning);
    let s = Issue::suggest(IssueCode::DandlingNode, NodeId::new("n"), "d");
    assert_eq!(s.severity, Severity::Suggestion);
    let e = Issue::error(IssueCode::BrokenLink, NodeId::new("n"), "d");
    assert_eq!(e.severity, Severity::Error);
}
