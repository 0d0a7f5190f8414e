use vstd::prelude::*;

use crate::text::{ascii_lower, range_eq_lower, trim_bounds, trimmed};

verus! {

/// The closed enumeration of node kinds. Unrecognized raw strings resolve
/// to `Unknown`; resolution never fails.
#[derive(Debug, Clone, Copy, PartialEq, Eq, Hash, Structural)]
pub enum NodeKind {
    Person,
    Team,
    Arch,
    Swarch,
    Req,
    Swreq,
    Spec,
    Test,
    Testsuite,
    Testrun,
    Impl,
    Need,
    Release,
    Unknown,
}

impl DeepView for NodeKind {
    type V = NodeKind;

    open spec fn deep_view(&self) -> NodeKind {
        *self
    }
}

/// The canonical lower-case name of a kind.
pub open spec fn kind_name(k: NodeKind) -> Seq<char> {
    match k {
        NodeKind::Person => "person"@,
        NodeKind::Team => "team"@,
        NodeKind::Arch => "arch"@,
        NodeKind::Swarch => "swarch"@,
        NodeKind::Req => "req"@,
        NodeKind::Swreq => "swreq"@,
        NodeKind::Spec => "spec"@,
        NodeKind::Test => "test"@,
        NodeKind::Testsuite => "testsuite"@,
        NodeKind::Testrun => "testrun"@,
        NodeKind::Impl => "impl"@,
        NodeKind::Need => "need"@,
        NodeKind::Release => "release"@,
        NodeKind::Unknown => "unknown"@,
    }
}

/// Resolution of a raw kind string: trimmed and case-folded, it must spell
/// one of the canonical names; anything else is `Unknown`.
pub open spec fn kind_of(s: Seq<char>) -> NodeKind {
    let t = ascii_lower(trimmed(s));
    if t == "person"@ {
        NodeKind::Person
    } else if t == "team"@ {
        NodeKind::Team
    } else if t == "arch"@ {
        NodeKind::Arch
    } else if t == "swarch"@ {
        NodeKind::Swarch
    } else if t == "req"@ {
        NodeKind::Req
    } else if t == "swreq"@ {
        NodeKind::Swreq
    } else if t == "spec"@ {
        NodeKind::Spec
    } else if t == "test"@ {
        NodeKind::Test
    } else if t == "testsuite"@ {
        NodeKind::Testsuite
    } else if t == "testrun"@ {
        NodeKind::Testrun
    } else if t == "impl"@ {
        NodeKind::Impl
    } else if t == "need"@ {
        NodeKind::Need
    } else if t == "release"@ {
        NodeKind::Release
    } else {
        NodeKind::Unknown
    }
}

impl NodeKind {
    /// Resolve a raw string, case-insensitively and ignoring surrounding
    /// whitespace.
    pub fn from_str(raw: &str) -> (k: NodeKind)
        ensures
            k == kind_of(raw@),
    {
        let (lo, hi) = trim_bounds(raw);
        if range_eq_lower(raw, lo, hi, "person") {
            NodeKind::Person
        } else if range_eq_lower(raw, lo, hi, "team") {
            NodeKind::Team
        } else if range_eq_lower(raw, lo, hi, "arch") {
            NodeKind::Arch
        } else if range_eq_lower(raw, lo, hi, "swarch") {
            NodeKind::Swarch
        } else if range_eq_lower(raw, lo, hi, "req") {
            NodeKind::Req
        } else if range_eq_lower(raw, lo, hi, "swreq") {
            NodeKind::Swreq
        } else if range_eq_lower(raw, lo, hi, "spec") {
            NodeKind::Spec
        } else if range_eq_lower(raw, lo, hi, "test") {
            NodeKind::Test
        } else if range_eq_lower(raw, lo, hi, "testsuite") {
            NodeKind::Testsuite
        } else if range_eq_lower(raw, lo, hi, "testrun") {
            NodeKind::Testrun
        } else if range_eq_lower(raw, lo, hi, "impl") {
            NodeKind::Impl
        } else if range_eq_lower(raw, lo, hi, "need") {
            NodeKind::Need
        } else if range_eq_lower(raw, lo, hi, "release") {
            NodeKind::Release
        } else {
            NodeKind::Unknown
        }
    }

    /// The canonical name of this kind.
    pub fn as_str(&self) -> (r: &'static str)
        ensures
            r@ == kind_name(*self),
    {
        match self {
            NodeKind::Person => "person",
            NodeKind::Team => "team",
            NodeKind::Arch => "arch",
            NodeKind::Swarch => "swarch",
            NodeKind::Req => "req",
            NodeKind::Swreq => "swreq",
            NodeKind::Spec => "spec",
            NodeKind::Test => "test",
            NodeKind::Testsuite => "testsuite",
            NodeKind::Testrun => "testrun",
            NodeKind::Impl => "impl",
            NodeKind::Need => "need",
            NodeKind::Release => "release",
            NodeKind::Unknown => "unknown",
        }
    }

    /// The canonical name as an owned string.
    pub fn to_string(&self) -> (r: String)
        ensures
            r@ == kind_name(*self),
    {
        self.as_str().to_owned()
    }
}

} // verus!
