use vstd::prelude::*;

use crate::representation::attr::{AttrV, AttrValue};
use crate::representation::issue::{code_of, IssueCode, Severity};
use crate::representation::node_kind::NodeKind;

verus! {

/// Document-wide fallbacks for rules that do not override them.
#[derive(Debug)]
pub struct Defaults {
    pub severity: Option<Severity>,
    pub max_hops: Option<u64>,
}

/// The mathematical shape of the defaults.
#[verifier::ext_equal]
pub ghost struct DefaultsV {
    pub severity: Option<Severity>,
    pub max_hops: Option<u64>,
}

impl DeepView for Defaults {
    type V = DefaultsV;

    open spec fn deep_view(&self) -> DefaultsV {
        DefaultsV { severity: self.severity, max_hops: self.max_hops }
    }
}

impl Default for Defaults {
    /// Defaults with nothing set.
    fn default() -> (r: Self)
        ensures
            r.deep_view() == (DefaultsV { severity: None, max_hops: None }),
    {
        Defaults { severity: None, max_hops: None }
    }
}

/// Which node kinds a rule scans.
#[derive(Debug)]
pub struct Selector {
    pub kinds: Vec<NodeKind>,
}

impl DeepView for Selector {
    type V = Seq<NodeKind>;

    open spec fn deep_view(&self) -> Seq<NodeKind> {
        self.kinds.deep_view()
    }
}

/// One named check: the rule identifier resolved through the registry, the
/// kinds it scans, its open parameter payload, and optional overrides for
/// severity, code and message.
#[derive(Debug)]
pub struct Rule {
    pub rule_id: String,
    pub selector: Selector,
    pub params: AttrValue,
    pub severity: Option<Severity>,
    pub code: Option<String>,
    pub message: Option<String>,
}

/// The mathematical shape of a rule.
#[verifier::ext_equal]
pub ghost struct RuleV {
    pub rule_id: Seq<char>,
    pub kinds: Seq<NodeKind>,
    pub params: AttrV,
    pub severity: Option<Severity>,
    pub code: Option<Seq<char>>,
    pub message: Option<Seq<char>>,
}

impl DeepView for Rule {
    type V = RuleV;

    open spec fn deep_view(&self) -> RuleV {
        RuleV {
            rule_id: self.rule_id@,
            kinds: self.selector.kinds.deep_view(),
            params: self.params.deep_view(),
            severity: self.severity,
            code: self.code.deep_view(),
            message: self.message.deep_view(),
        }
    }
}

/// A rules document: a version number, document-wide defaults, and an
/// ordered list of rules.
#[derive(Debug)]
pub struct Policies {
    pub version: u32,
    pub defaults: Defaults,
    pub rules: Vec<Rule>,
}

/// The mathematical shape of a rules document.
#[verifier::ext_equal]
pub ghost struct PoliciesV {
    pub version: u32,
    pub defaults: DefaultsV,
    pub rules: Seq<RuleV>,
}

impl DeepView for Policies {
    type V = PoliciesV;

    open spec fn deep_view(&self) -> PoliciesV {
        PoliciesV {
            version: self.version,
            defaults: self.defaults.deep_view(),
            rules: self.rules.deep_view(),
        }
    }
}

/// Why a rule invocation failed. Such a failure is fatal for the
/// evaluation that triggered it, and is kept apart from the issue list.
#[derive(Debug, Clone, Copy, PartialEq, Eq, Structural)]
pub enum RuleError {
    MissingParam,
}

/// Resolution of a rule's severity: rule override, else document default,
/// else error.
pub open spec fn severity_resolved(rule: RuleV, defaults: DefaultsV) -> Severity {
    match rule.severity {
        Option::Some(s) => s,
        Option::None => match defaults.severity {
            Option::Some(s) => s,
            Option::None => Severity::Error,
        },
    }
}

/// Resolution of a rule's issue code: the rule's own code string when set,
/// else the given fallback, in either case mapped through the code taxonomy.
pub open spec fn code_resolved(rule: RuleV, fallback: Seq<char>) -> IssueCode {
    match rule.code {
        Option::Some(c) => code_of(c),
        Option::None => code_of(fallback),
    }
}

/// Resolution of a rule's message: rule override, else the given fallback.
pub open spec fn message_resolved(rule: RuleV, fallback: Seq<char>) -> Seq<char> {
    match rule.message {
        Option::Some(m) => m,
        Option::None => fallback,
    }
}

/// The severity this rule's issues carry.
pub fn resolve_severity(rule: &Rule, defaults: &Defaults) -> (s: Severity)
    ensures
        s == severity_resolved(rule.deep_view(), defaults.deep_view()),
{
    match rule.severity {
        Option::Some(s) => s,
        Option::None => match defaults.severity {
            Option::Some(s) => s,
            Option::None => Severity::Error,
        },
    }
}

/// The issue code this rule's issues carry.
pub fn resolve_code(rule: &Rule, fallback: &str) -> (c: IssueCode)
    ensures
        c == code_resolved(rule.deep_view(), fallback@),
{
    match &rule.code {
        Option::Some(c) => IssueCode::from_rule_code(c.as_str()),
        Option::None => IssueCode::from_rule_code(fallback),
    }
}

/// The message this rule's issues carry.
pub fn resolve_message<'a>(rule: &'a Rule, fallback: &'a str) -> (m: &'a str)
    ensures
        m@ == message_resolved(rule.deep_view(), fallback@),
{
    match &rule.message {
        Option::Some(m) => m.as_str(),
        Option::None => fallback,
    }
}

} // verus!
