use vstd::prelude::*;

use crate::representation::assoc::{assoc_get, assoc_has, lemma_key_index};
use crate::text::str_eq;

verus! {

/// The closed set of compiled-in rules.
#[derive(Debug, Clone, Copy, PartialEq, Eq, Structural)]
pub enum BuiltinRule {
    HasOutgoing,
    ReachKind,
    FieldPresent,
}

impl DeepView for BuiltinRule {
    type V = BuiltinRule;

    open spec fn deep_view(&self) -> BuiltinRule {
        *self
    }
}

/// The fixed table: each compiled-in rule under its identifier.
pub open spec fn builtins_table() -> Seq<(Seq<char>, BuiltinRule)> {
    seq![
        ("has_outgoing"@, BuiltinRule::HasOutgoing),
        ("reach_kind"@, BuiltinRule::ReachKind),
        ("field_present"@, BuiltinRule::FieldPresent),
    ]
}

/// What a lookup finds: the first rule bound to the identifier, if any.
pub open spec fn registry_lookup(table: Seq<(Seq<char>, BuiltinRule)>, id: Seq<char>) -> Option<
    BuiltinRule,
> {
    if assoc_has(table, id) {
        Option::Some(assoc_get(table, id))
    } else {
        Option::None
    }
}

/// The fixed, immutable lookup table from rule identifiers to rule logic,
/// assembled once at startup.
pub struct Registry {
    pub entries: Vec<(String, BuiltinRule)>,
}

impl Registry {
    /// The registry of the compiled-in rules.
    pub fn builtins() -> (r: Registry)
        ensures
            r.entries.deep_view() == builtins_table(),
    {
        let mut entries: Vec<(String, BuiltinRule)> = Vec::new();
        entries.push(("has_outgoing".to_owned(), BuiltinRule::HasOutgoing));
        entries.push(("reach_kind".to_owned(), BuiltinRule::ReachKind));
        entries.push(("field_present".to_owned(), BuiltinRule::FieldPresent));
        proof {
            assert(entries.deep_view() =~= builtins_table());
        }
        Registry { entries }
    }

    /// The rule bound to an identifier; a miss returns "not found".
    pub fn get(&self, id: &str) -> (r: Option<BuiltinRule>)
        ensures
            r == registry_lookup(self.entries.deep_view(), id@),
    {
        let n = self.entries.len();
        let mut i: usize = 0;
        while i < n
            invariant
                i <= n,
                n == self.entries@.len(),
                forall|j: int| 0 <= j < i ==> self.entries.deep_view()[j].0 != id@,
            decreases n - i,
        {
            if str_eq(self.entries[i].0.as_str(), id) {
                proof {
                    assert(self.entries.deep_view()[i as int].0 == id@);
                    lemma_key_index(self.entries.deep_view(), id@);
                }
                return Some(self.entries[i].1);
            }
            i = i + 1;
        }
        proof {
            if assoc_has(self.entries.deep_view(), id@) {
                let j = choose|j: int|
                    0 <= j < self.entries.deep_view().len() && self.entries.deep_view()[j].0 == id@;
                assert(false);
            }
        }
        None
    }
}

} // verus!
