use vstd::prelude::*;

use super::node_id::NodeId;
use crate::text::{ascii_upper, str_eq_upper};

verus! {

/// Severity of a finding, ordered suggestion < warning < error. Advisory
/// only: evaluation never halts because an error-severity issue exists.
#[derive(Debug, Clone, Copy, PartialEq, Eq, Structural)]
pub enum Severity {
    Suggestion,
    Warning,
    Error,
}

impl DeepView for Severity {
    type V = Severity;

    open spec fn deep_view(&self) -> Severity {
        *self
    }
}

/// The closed taxonomy of issue codes, with `Unknown` as the fallback for
/// unrecognized rule-supplied codes.
#[derive(Debug, Clone, Copy, PartialEq, Eq, Hash, Structural)]
pub enum IssueCode {
    ImplNoLinks,
    ReqMissingDirectTest,
    ImplMissingUrl,
    ImplLacksStatus,
    PendingImpl,
    MergeByAuthor,
    BrokenLink,
    DanglingNode,
    DuplicateLink,
    SelfLoop,
    MissingAuthor,
    MissingTeam,
    DandlingNode,
    Unknown,
}

/// Resolution of a rule-supplied code string: upper-cased, it must spell one
/// of the recognized code names (or an accepted alias); anything else is
/// `Unknown`.
pub open spec fn code_of(s: Seq<char>) -> IssueCode {
    let u = ascii_upper(s);
    if u == "IMPL_NO_LINKS"@ {
        IssueCode::ImplNoLinks
    } else if u == "REQ_MISSING_DIRECT_TEST"@ {
        IssueCode::ReqMissingDirectTest
    } else if u == "IMPL_MISSING_URL"@ {
        IssueCode::ImplMissingUrl
    } else if u == "IMPL_LACKS_STATUS"@ {
        IssueCode::ImplLacksStatus
    } else if u == "MERGE_BY_AUTHOR"@ {
        IssueCode::MergeByAuthor
    } else if u == "BROKEN_LINK"@ {
        IssueCode::BrokenLink
    } else if u == "DUPLICATE_LINK"@ {
        IssueCode::DuplicateLink
    } else if u == "SELF_LOOP"@ {
        IssueCode::SelfLoop
    } else if u == "MISSING_AUTHOR"@ {
        IssueCode::MissingAuthor
    } else if u == "MISSING_TEAM"@ {
        IssueCode::MissingTeam
    } else if u == "PENDING_IMPL"@ {
        IssueCode::PendingImpl
    } else if u == "DANGLING_NODE"@ {
        IssueCode::DanglingNode
    } else if u == "DANDLING_NODE"@ {
        IssueCode::DandlingNode
    } else if u == "IMPL_MUST_LINK_SOMETHING"@ {
        IssueCode::ImplNoLinks
    } else if u == "REQ_MUST_HAVE_DIRECT_TEST"@ {
        IssueCode::ReqMissingDirectTest
    } else if u == "REQ_MUST_BE_TESTABLE_TRANSITIVELY"@ {
        IssueCode::ReqMissingDirectTest
    } else if u == "IMPL_URL_REQUIRED"@ {
        IssueCode::ImplMissingUrl
    } else if u == "IMPL_STATUS_REQUIRED"@ {
        IssueCode::ImplLacksStatus
    } else if u == "PR_NOT_MERGED_BY_AUTHOR"@ {
        IssueCode::MergeByAuthor
    } else {
        IssueCode::Unknown
    }
}

/// The canonical lower-case name of an issue code.
pub open spec fn code_name(c: IssueCode) -> Seq<char> {
    match c {
        IssueCode::ImplNoLinks => "impl_no_links"@,
        IssueCode::ReqMissingDirectTest => "req_missing_direct_test"@,
        IssueCode::ImplMissingUrl => "impl_missing_url"@,
        IssueCode::ImplLacksStatus => "impl_lacks_status"@,
        IssueCode::PendingImpl => "pending_impl"@,
        IssueCode::MergeByAuthor => "merge_by_author"@,
        IssueCode::BrokenLink => "broken_link"@,
        IssueCode::DanglingNode => "dangling_node"@,
        IssueCode::DuplicateLink => "duplicate_link"@,
        IssueCode::SelfLoop => "self_loop"@,
        IssueCode::MissingAuthor => "missing_author"@,
        IssueCode::MissingTeam => "missing_team"@,
        IssueCode::DandlingNode => "dandling_node"@,
        IssueCode::Unknown => "unknown"@,
    }
}

impl IssueCode {
    /// Resolve a rule-supplied code string, case-insensitively.
    pub fn from_rule_code(code: &str) -> (c: IssueCode)
        ensures
            c == code_of(code@),
    {
        if str_eq_upper(code, "IMPL_NO_LINKS") {
            IssueCode::ImplNoLinks
        } else if str_eq_upper(code, "REQ_MISSING_DIRECT_TEST") {
            IssueCode::ReqMissingDirectTest
        } else if str_eq_upper(code, "IMPL_MISSING_URL") {
            IssueCode::ImplMissingUrl
        } else if str_eq_upper(code, "IMPL_LACKS_STATUS") {
            IssueCode::ImplLacksStatus
        } else if str_eq_upper(code, "MERGE_BY_AUTHOR") {
            IssueCode::MergeByAuthor
        } else if str_eq_upper(code, "BROKEN_LINK") {
            IssueCode::BrokenLink
        } else if str_eq_upper(code, "DUPLICATE_LINK") {
            IssueCode::DuplicateLink
        } else if str_eq_upper(code, "SELF_LOOP") {
            IssueCode::SelfLoop
        } else if str_eq_upper(code, "MISSING_AUTHOR") {
            IssueCode::MissingAuthor
        } else if str_eq_upper(code, "MISSING_TEAM") {
            IssueCode::MissingTeam
        } else if str_eq_upper(code, "PENDING_IMPL") {
            IssueCode::PendingImpl
        } else if str_eq_upper(code, "DANGLING_NODE") {
            IssueCode::DanglingNode
        } else if str_eq_upper(code, "DANDLING_NODE") {
            IssueCode::DandlingNode
        } else if str_eq_upper(code, "IMPL_MUST_LINK_SOMETHING") {
            IssueCode::ImplNoLinks
        } else if str_eq_upper(code, "REQ_MUST_HAVE_DIRECT_TEST") {
            IssueCode::ReqMissingDirectTest
        } else if str_eq_upper(code, "REQ_MUST_BE_TESTABLE_TRANSITIVELY") {
            IssueCode::ReqMissingDirectTest
        } else if str_eq_upper(code, "IMPL_URL_REQUIRED") {
            IssueCode::ImplMissingUrl
        } else if str_eq_upper(code, "IMPL_STATUS_REQUIRED") {
            IssueCode::ImplLacksStatus
        } else if str_eq_upper(code, "PR_NOT_MERGED_BY_AUTHOR") {
            IssueCode::MergeByAuthor
        } else {
            IssueCode::Unknown
        }
    }

    /// The canonical name of this code.
    pub fn to_str(&self) -> (r: &'static str)
        ensures
            r@ == code_name(*self),
    {
        match self {
            IssueCode::ImplNoLinks => "impl_no_links",
            IssueCode::ReqMissingDirectTest => "req_missing_direct_test",
            IssueCode::ImplMissingUrl => "impl_missing_url",
            IssueCode::ImplLacksStatus => "impl_lacks_status",
            IssueCode::PendingImpl => "pending_impl",
            IssueCode::MergeByAuthor => "merge_by_author",
            IssueCode::BrokenLink => "broken_link",
            IssueCode::DanglingNode => "dangling_node",
            IssueCode::DuplicateLink => "duplicate_link",
            IssueCode::SelfLoop => "self_loop",
            IssueCode::MissingAuthor => "missing_author",
            IssueCode::MissingTeam => "missing_team",
            IssueCode::DandlingNode => "dandling_node",
            IssueCode::Unknown => "unknown",
        }
    }
}

/// The canonical lower-case name of a severity.
pub open spec fn severity_name(s: Severity) -> Seq<char> {
    match s {
        Severity::Suggestion => "suggestion"@,
        Severity::Warning => "warning"@,
        Severity::Error => "error"@,
    }
}

impl Severity {
    /// The canonical name of this severity.
    pub fn to_str(self) -> (r: &'static str)
        ensures
            r@ == severity_name(self),
    {
        match self {
            Severity::Error => "error",
            Severity::Suggestion => "suggestion",
            Severity::Warning => "warning",
        }
    }
}

/// One structured finding: severity, code, subject node id, and free-text
/// detail. Immutable once created; issues are data, never exceptions.
#[derive(Debug)]
pub struct Issue {
    pub severity: Severity,
    pub code: IssueCode,
    pub subject: NodeId,
    pub detail: String,
}

/// The mathematical shape of an issue.
pub ghost struct IssueV {
    pub severity: Severity,
    pub code: IssueCode,
    pub subject: Seq<char>,
    pub detail: Seq<char>,
}

/// An issue shape from its four parts.
pub open spec fn issue_v(
    severity: Severity,
    code: IssueCode,
    subject: Seq<char>,
    detail: Seq<char>,
) -> IssueV {
    IssueV { severity, code, subject, detail }
}

impl DeepView for Issue {
    type V = IssueV;

    open spec fn deep_view(&self) -> IssueV {
        IssueV {
            severity: self.severity,
            code: self.code,
            subject: self.subject@,
            detail: self.detail@,
        }
    }
}

impl PartialEq for Issue {
    fn eq(&self, other: &Issue) -> (r: bool)
        ensures
            r == (self.deep_view() == other.deep_view()),
    {
        self.severity == other.severity && self.code == other.code && self.subject == other.subject
            && self.detail == other.detail
    }
}

impl vstd::std_specs::cmp::PartialEqSpecImpl for Issue {
    open spec fn obeys_eq_spec() -> bool {
        true
    }

    open spec fn eq_spec(&self, other: &Issue) -> bool {
        self.deep_view() == other.deep_view()
    }
}

impl Clone for Issue {
    fn clone(&self) -> (r: Self)
        ensures
            r.deep_view() == self.deep_view(),
    {
        Issue {
            severity: self.severity,
            code: self.code,
            subject: self.subject.clone(),
            detail: self.detail.clone(),
        }
    }
}

impl Issue {
    /// A warning-severity issue.
    pub fn warn(code: IssueCode, subject: NodeId, detail: &str) -> (r: Issue)
        ensures
            r.deep_view() == (IssueV {
                severity: Severity::Warning,
                code,
                subject: subject@,
                detail: detail@,
            }),
    {
        Issue { severity: Severity::Warning, code, subject, detail: detail.to_owned() }
    }

    /// A suggestion-severity issue.
    pub fn suggest(code: IssueCode, subject: NodeId, detail: &str) -> (r: Issue)
        ensures
            r.deep_view() == (IssueV {
                severity: Severity::Suggestion,
                code,
                subject: subject@,
                detail: detail@,
            }),
    {
        Issue { severity: Severity::Suggestion, code, subject, detail: detail.to_owned() }
    }

    /// An error-severity issue.
    pub fn error(code: IssueCode, subject: NodeId, detail: &str) -> (r: Issue)
        ensures
            r.deep_view() == (IssueV {
                severity: Severity::Error,
                code,
                subject: subject@,
                detail: detail@,
            }),
    {
        Issue { severity: Severity::Error, code, subject, detail: detail.to_owned() }
    }
}

} // verus!
