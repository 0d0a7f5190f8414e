use vstd::prelude::*;

use super::attr::{
    attr_kvs, attr_lookup, attr_present, attr_v, lemma_attr_kvs_congruent, AttrV, AttrValue,
};
use super::node_id::NodeId;
use super::node_kind::{kind_of, NodeKind};
use crate::text::{is_blank, str_eq, str_is_blank};

verus! {

/// One traceability item: identity, kind, declared forward and back links,
/// the fixed schema fields, and an open mapping of extra attributes.
#[derive(Debug)]
pub struct Node {
    pub id: Option<NodeId>,
    pub kind: Option<String>,
    pub links: Vec<NodeId>,
    pub links_back: Vec<NodeId>,
    pub title: Option<String>,
    pub status: Option<String>,
    pub url: Option<String>,
    pub tags: Option<Vec<String>>,
    pub extra: Vec<(String, AttrValue)>,
}

/// The mathematical shape of a node.
#[verifier::ext_equal]
pub ghost struct NodeV {
    pub id: Option<Seq<char>>,
    pub kind: Option<Seq<char>>,
    pub links: Seq<Seq<char>>,
    pub links_back: Seq<Seq<char>>,
    pub title: Option<Seq<char>>,
    pub status: Option<Seq<char>>,
    pub url: Option<Seq<char>>,
    pub tags: Option<Seq<Seq<char>>>,
    pub extra: Seq<(Seq<char>, AttrV)>,
}

impl DeepView for Node {
    type V = NodeV;

    open spec fn deep_view(&self) -> NodeV {
        NodeV {
            id: self.id.deep_view(),
            kind: self.kind.deep_view(),
            links: self.links.deep_view(),
            links_back: self.links_back.deep_view(),
            title: self.title.deep_view(),
            status: self.status.deep_view(),
            url: self.url.deep_view(),
            tags: self.tags.deep_view(),
            extra: attr_kvs(self.extra@),
        }
    }
}

/// The kind a node resolves to: a missing kind string resolves to `Unknown`
/// rather than failing.
pub open spec fn node_kind_of(n: NodeV) -> NodeKind {
    match n.kind {
        Option::None => NodeKind::Unknown,
        Option::Some(s) => kind_of(s),
    }
}

/// Presence of an optional string field: present when set and not blank.
pub open spec fn opt_nonblank(o: Option<Seq<char>>) -> bool {
    match o {
        Option::None => false,
        Option::Some(s) => !is_blank(s),
    }
}

/// Presence of a named field: the fixed schema fields are checked
/// structurally; any other name is looked up in the open attribute map.
pub open spec fn field_present_in(n: NodeV, key: Seq<char>) -> bool {
    if key == "id"@ {
        n.id is Some
    } else if key == "type"@ || key == "kind"@ {
        opt_nonblank(n.kind)
    } else if key == "title"@ {
        opt_nonblank(n.title)
    } else if key == "status"@ {
        opt_nonblank(n.status)
    } else if key == "url"@ {
        opt_nonblank(n.url)
    } else if key == "tags"@ {
        match n.tags {
            Option::None => false,
            Option::Some(v) => v.len() > 0,
        }
    } else if key == "links"@ {
        n.links.len() > 0
    } else if key == "links_back"@ {
        n.links_back.len() > 0
    } else {
        match attr_lookup(n.extra, key) {
            Option::None => false,
            Option::Some(v) => attr_present(v),
        }
    }
}

fn opt_string_nonblank(o: &Option<String>) -> (r: bool)
    ensures
        r == opt_nonblank(o.deep_view()),
{
    match o {
        Option::None => false,
        Option::Some(s) => !str_is_blank(s.as_str()),
    }
}

impl Node {
    /// The kind this node resolves to.
    pub fn resolved_kind(&self) -> (k: NodeKind)
        ensures
            k == node_kind_of(self.deep_view()),
    {
        match &self.kind {
            Option::None => NodeKind::Unknown,
            Option::Some(s) => NodeKind::from_str(s.as_str()),
        }
    }

    /// Whether the named field has a value, consulting the fixed schema
    /// fields first and the open attribute map after them.
    pub fn field_present(&self, key: &str) -> (r: bool)
        ensures
            r == field_present_in(self.deep_view(), key@),
    {
        if str_eq(key, "id") {
            self.id.is_some()
        } else if str_eq(key, "type") || str_eq(key, "kind") {
            opt_string_nonblank(&self.kind)
        } else if str_eq(key, "title") {
            opt_string_nonblank(&self.title)
        } else if str_eq(key, "status") {
            opt_string_nonblank(&self.status)
        } else if str_eq(key, "url") {
            opt_string_nonblank(&self.url)
        } else if str_eq(key, "tags") {
            match &self.tags {
                Option::None => false,
                Option::Some(v) => v.len() > 0,
            }
        } else if str_eq(key, "links") {
            self.links.len() > 0
        } else if str_eq(key, "links_back") {
            self.links_back.len() > 0
        } else {
            match super::attr::lookup_attr(&self.extra, key) {
                Option::None => false,
                Option::Some(v) => v.is_present(),
            }
        }
    }
}

impl Default for Node {
    /// A node with nothing set: no identity, no kind, no links, and an
    /// empty attribute map.
    fn default() -> (r: Self)
        ensures
            r.deep_view() == (NodeV {
                id: None,
                kind: None,
                links: Seq::empty(),
                links_back: Seq::empty(),
                title: None,
                status: None,
                url: None,
                tags: None,
                extra: Seq::empty(),
            }),
    {
        let n = Node {
            id: None,
            kind: None,
            links: Vec::new(),
            links_back: Vec::new(),
            title: None,
            status: None,
            url: None,
            tags: None,
            extra: Vec::new(),
        };
        proof {
            assert(n.deep_view() =~= (NodeV {
                id: None,
                kind: None,
                links: Seq::empty(),
                links_back: Seq::empty(),
                title: None,
                status: None,
                url: None,
                tags: None,
                extra: Seq::empty(),
            }));
        }
        n
    }
}

fn clone_opt_string(o: &Option<String>) -> (r: Option<String>)
    ensures
        r.deep_view() == o.deep_view(),
{
    match o {
        Option::None => None,
        Option::Some(s) => Some(s.clone()),
    }
}

pub(crate) fn clone_ids(v: &Vec<NodeId>) -> (r: Vec<NodeId>)
    ensures
        r.deep_view() == v.deep_view(),
{
    let mut out: Vec<NodeId> = Vec::new();
    let mut i: usize = 0;
    while i < v.len()
        invariant
            i <= v@.len(),
            out@.len() == i as int,
            forall|j: int| 0 <= j < i ==> out@[j]@ == v@[j]@,
        decreases v@.len() - i,
    {
        out.push(v[i].clone());
        i = i + 1;
    }
    proof {
        assert(out.deep_view() =~= v.deep_view());
    }
    out
}

fn clone_strings(v: &Vec<String>) -> (r: Vec<String>)
    ensures
        r.deep_view() == v.deep_view(),
{
    let mut out: Vec<String> = Vec::new();
    let mut i: usize = 0;
    while i < v.len()
        invariant
            i <= v@.len(),
            out@.len() == i as int,
            forall|j: int| 0 <= j < i ==> out@[j]@ == v@[j]@,
        decreases v@.len() - i,
    {
        out.push(v[i].clone());
        i = i + 1;
    }
    proof {
        assert(out.deep_view() =~= v.deep_view());
    }
    out
}

fn clone_attrs(v: &Vec<(String, AttrValue)>) -> (r: Vec<(String, AttrValue)>)
    ensures
        attr_kvs(r@) == attr_kvs(v@),
{
    let mut out: Vec<(String, AttrValue)> = Vec::new();
    let mut i: usize = 0;
    while i < v.len()
        invariant
            i <= v@.len(),
            out@.len() == i as int,
            forall|j: int|
                0 <= j < i ==> out@[j].0@ == v@[j].0@ && attr_v(out@[j].1) == attr_v(v@[j].1),
        decreases v@.len() - i,
    {
        let entry = &v[i];
        out.push((entry.0.clone(), entry.1.clone()));
        i = i + 1;
    }
    proof {
        lemma_attr_kvs_congruent(out@, v@);
    }
    out
}

impl Clone for Node {
    fn clone(&self) -> (r: Self)
        ensures
            r.deep_view() == self.deep_view(),
    {
        Node {
            id: match &self.id {
                Option::None => None,
                Option::Some(x) => Some(x.clone()),
            },
            kind: clone_opt_string(&self.kind),
            links: clone_ids(&self.links),
            links_back: clone_ids(&self.links_back),
            title: clone_opt_string(&self.title),
            status: clone_opt_string(&self.status),
            url: clone_opt_string(&self.url),
            tags: match &self.tags {
                Option::None => None,
                Option::Some(v) => Some(clone_strings(v)),
            },
            extra: clone_attrs(&self.extra),
        }
    }
}

} // verus!
