use vstd::prelude::*;

use super::assoc::{assoc_get, assoc_has, lemma_key_index};
use super::node::{Node, NodeV};
use super::node_id::NodeId;
use crate::text::str_eq;

verus! {

/// A borrowed view onto one version's node table.
pub struct VersionAccessor<'s> {
    pub version: &'s str,
    pub needs: &'s Vec<(NodeId, Node)>,
}

/// One version of a dataset: its node table, keyed by node id.
#[derive(Debug)]
pub struct VersionNode {
    pub needs: Vec<(NodeId, Node)>,
}

impl DeepView for VersionNode {
    type V = Seq<(Seq<char>, NodeV)>;

    open spec fn deep_view(&self) -> Seq<(Seq<char>, NodeV)> {
        self.needs.deep_view()
    }
}

/// A multi-version dataset: an optional current version marker and the node
/// table of every version.
#[derive(Debug)]
pub struct Dataset {
    pub current_version: Option<String>,
    pub versions: Vec<(String, VersionNode)>,
}

impl Dataset {
    /// The node table of an explicitly named version. An unresolved version
    /// string is a fatal input error, reported as `None`.
    pub fn access_version<'a>(&'a self, version: &'a str) -> (r: Option<VersionAccessor<'a>>)
        ensures
            match r {
                Some(acc) => {
                    &&& assoc_has(self.versions.deep_view(), version@)
                    &&& acc.version@ == version@
                    &&& acc.needs.deep_view() == assoc_get(self.versions.deep_view(), version@)
                },
                None => !assoc_has(self.versions.deep_view(), version@),
            },
    {
        let n = self.versions.len();
        let mut i: usize = 0;
        while i < n
            invariant
                i <= n,
                n == self.versions@.len(),
                forall|j: int| 0 <= j < i ==> self.versions.deep_view()[j].0 != version@,
            decreases n - i,
        {
            if str_eq(self.versions[i].0.as_str(), version) {
                proof {
                    assert(self.versions.deep_view()[i as int].0 == version@);
                    lemma_key_index(self.versions.deep_view(), version@);
                }
                return Some(VersionAccessor { version, needs: &self.versions[i].1.needs });
            }
            i = i + 1;
        }
        proof {
            if assoc_has(self.versions.deep_view(), version@) {
                let j = choose|j: int|
                    0 <= j < self.versions.deep_view().len() && self.versions.deep_view()[j].0
                        == version@;
                assert(false);
            }
        }
        None
    }

    /// The node table of the dataset's current version. An absent marker or
    /// an unresolved one is a fatal input error, reported as `None`.
    pub fn access_current_version<'a>(&'a self) -> (r: Option<VersionAccessor<'a>>)
        ensures
            match self.current_version {
                None => r is None,
                Some(cv) => match r {
                    Some(acc) => {
                        &&& assoc_has(self.versions.deep_view(), cv@)
                        &&& acc.version@ == cv@
                        &&& acc.needs.deep_view() == assoc_get(self.versions.deep_view(), cv@)
                    },
                    None => !assoc_has(self.versions.deep_view(), cv@),
                },
            },
    {
        match &self.current_version {
            None => None,
            Some(cv) => self.access_version(cv.as_str()),
        }
    }
}

} // verus!
