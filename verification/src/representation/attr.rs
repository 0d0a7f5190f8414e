use vstd::prelude::*;

use crate::text::is_blank;

verus! {

/// A structured attribute value, the open payload attached to nodes and
/// rules. Integers are kept exactly; any other number is kept only as the
/// fact that it is a number, which is all the rules ever read of one.
#[derive(Debug)]
pub enum AttrValue {
    Null,
    Flag(bool),
    Int(i64),
    OtherNumber,
    Text(String),
    List(Vec<AttrValue>),
    Object(Vec<(String, AttrValue)>),
}

/// The mathematical shape of an attribute value.
pub ghost enum AttrV {
    Null,
    Flag(bool),
    Int(i64),
    OtherNumber,
    Text(Seq<char>),
    List(Seq<AttrV>),
    Object(Seq<(Seq<char>, AttrV)>),
}

/// The shape of an attribute value.
pub open spec fn attr_v(a: AttrValue) -> AttrV
    decreases a,
{
    match a {
        AttrValue::Null => AttrV::Null,
        AttrValue::Flag(b) => AttrV::Flag(b),
        AttrValue::Int(n) => AttrV::Int(n),
        AttrValue::OtherNumber => AttrV::OtherNumber,
        AttrValue::Text(s) => AttrV::Text(s@),
        AttrValue::List(vs) => AttrV::List(attr_vs(vs@)),
        AttrValue::Object(kvs) => AttrV::Object(attr_kvs(kvs@)),
    }
}

/// The shapes of a sequence of attribute values.
pub open spec fn attr_vs(s: Seq<AttrValue>) -> Seq<AttrV>
    decreases s,
{
    if s.len() == 0 {
        Seq::empty()
    } else {
        attr_vs(s.drop_last()).push(attr_v(s.last()))
    }
}

/// The shapes of a sequence of named attribute values.
pub open spec fn attr_kvs(s: Seq<(String, AttrValue)>) -> Seq<(Seq<char>, AttrV)>
    decreases s,
{
    if s.len() == 0 {
        Seq::empty()
    } else {
        attr_kvs(s.drop_last()).push((s.last().0@, attr_v(s.last().1)))
    }
}

impl DeepView for AttrValue {
    type V = AttrV;

    open spec fn deep_view(&self) -> AttrV {
        attr_v(*self)
    }
}

pub proof fn lemma_attr_vs_len(s: Seq<AttrValue>)
    ensures
        attr_vs(s).len() == s.len(),
    decreases s,
{
    if s.len() > 0 {
        lemma_attr_vs_len(s.drop_last());
    }
}

pub proof fn lemma_attr_vs_index(s: Seq<AttrValue>, i: int)
    requires
        0 <= i < s.len(),
    ensures
        attr_vs(s).len() == s.len(),
        attr_vs(s)[i] == attr_v(s[i]),
    decreases s,
{
    lemma_attr_vs_len(s);
    if i < s.len() - 1 {
        lemma_attr_vs_index(s.drop_last(), i);
    }
}

pub proof fn lemma_attr_kvs_len(s: Seq<(String, AttrValue)>)
    ensures
        attr_kvs(s).len() == s.len(),
    decreases s,
{
    if s.len() > 0 {
        lemma_attr_kvs_len(s.drop_last());
    }
}

pub proof fn lemma_attr_kvs_index(s: Seq<(String, AttrValue)>, i: int)
    requires
        0 <= i < s.len(),
    ensures
        attr_kvs(s).len() == s.len(),
        attr_kvs(s)[i] == (s[i].0@, attr_v(s[i].1)),
    decreases s,
{
    lemma_attr_kvs_len(s);
    if i < s.len() - 1 {
        lemma_attr_kvs_index(s.drop_last(), i);
    }
}

/// Whether a value counts as "present": null, blank strings, and empty
/// arrays or objects are absent; booleans and numbers are always present.
pub open spec fn attr_present(a: AttrV) -> bool {
    match a {
        AttrV::Null => false,
        AttrV::Flag(_) => true,
        AttrV::Int(_) => true,
        AttrV::OtherNumber => true,
        AttrV::Text(s) => !is_blank(s),
        AttrV::List(vs) => vs.len() > 0,
        AttrV::Object(kvs) => kvs.len() > 0,
    }
}

impl AttrValue {
    /// Whether this value counts as "present".
    pub fn is_present(&self) -> (r: bool)
        ensures
            r == attr_present(self.deep_view()),
    {
        match self {
            AttrValue::Null => false,
            AttrValue::Flag(_) => true,
            AttrValue::Int(_) => true,
            AttrValue::OtherNumber => true,
            AttrValue::Text(s) => !crate::text::str_is_blank(s.as_str()),
            AttrValue::List(vs) => {
                proof {
                    lemma_attr_vs_len(vs@);
                }
                vs.len() > 0
            },
            AttrValue::Object(kvs) => {
                proof {
                    lemma_attr_kvs_len(kvs@);
                }
                kvs.len() > 0
            },
        }
    }
}

pub proof fn lemma_attr_vs_congruent(a: Seq<AttrValue>, b: Seq<AttrValue>)
    requires
        a.len() == b.len(),
        forall|i: int| 0 <= i < a.len() ==> attr_v(a[i]) == attr_v(b[i]),
    ensures
        attr_vs(a) == attr_vs(b),
{
    lemma_attr_vs_len(a);
    lemma_attr_vs_len(b);
    assert forall|i: int| 0 <= i < a.len() implies attr_vs(a)[i] == attr_vs(b)[i] by {
        lemma_attr_vs_index(a, i);
        lemma_attr_vs_index(b, i);
    }
    assert(attr_vs(a) =~= attr_vs(b));
}

pub proof fn lemma_attr_kvs_congruent(a: Seq<(String, AttrValue)>, b: Seq<(String, AttrValue)>)
    requires
        a.len() == b.len(),
        forall|i: int| 0 <= i < a.len() ==> a[i].0@ == b[i].0@ && attr_v(a[i].1) == attr_v(b[i].1),
    ensures
        attr_kvs(a) == attr_kvs(b),
{
    lemma_attr_kvs_len(a);
    lemma_attr_kvs_len(b);
    assert forall|i: int| 0 <= i < a.len() implies attr_kvs(a)[i] == attr_kvs(b)[i] by {
        lemma_attr_kvs_index(a, i);
        lemma_attr_kvs_index(b, i);
    }
    assert(attr_kvs(a) =~= attr_kvs(b));
}

impl Clone for AttrValue {
    fn clone(&self) -> (r: Self)
        ensures
            r.deep_view() == self.deep_view(),
        decreases *self,
    {
        match self {
            AttrValue::Null => AttrValue::Null,
            AttrValue::Flag(b) => AttrValue::Flag(*b),
            AttrValue::Int(n) => AttrValue::Int(*n),
            AttrValue::OtherNumber => AttrValue::OtherNumber,
            AttrValue::Text(s) => AttrValue::Text(s.clone()),
            AttrValue::List(vs) => {
                let mut out: Vec<AttrValue> = Vec::new();
                let mut i: usize = 0;
                while i < vs.len()
                    invariant
                        i <= vs@.len(),
                        *self == AttrValue::List(*vs),
                        out@.len() == i as int,
                        forall|j: int| 0 <= j < i ==> attr_v(out@[j]) == attr_v(vs@[j]),
                    decreases vs@.len() - i,
                {
                    proof {
                        assert(decreases_to!(*self => (*self)->List_0));
                        assert((*self)->List_0 == *vs);
                        assert(decreases_to!(*vs => vs@[i as int]));
                    }
                    out.push(vs[i].clone());
                    i = i + 1;
                }
                proof {
                    lemma_attr_vs_congruent(out@, vs@);
                }
                AttrValue::List(out)
            },
            AttrValue::Object(kvs) => {
                let mut out: Vec<(String, AttrValue)> = Vec::new();
                let mut i: usize = 0;
                while i < kvs.len()
                    invariant
                        i <= kvs@.len(),
                        *self == AttrValue::Object(*kvs),
                        out@.len() == i as int,
                        forall|j: int|
                            0 <= j < i ==> out@[j].0@ == kvs@[j].0@ && attr_v(out@[j].1) == attr_v(
                                kvs@[j].1,
                            ),
                    decreases kvs@.len() - i,
                {
                    proof {
                        assert(decreases_to!(*self => (*self)->Object_0));
                        assert((*self)->Object_0 == *kvs);
                        assert(decreases_to!(*kvs => kvs@[i as int]));
                        assert(decreases_to!(kvs@[i as int] => kvs@[i as int].1));
                    }
                    let entry = &kvs[i];
                    out.push((entry.0.clone(), entry.1.clone()));
                    i = i + 1;
                }
                proof {
                    lemma_attr_kvs_congruent(out@, kvs@);
                }
                AttrValue::Object(out)
            },
        }
    }
}

/// First value bound to `key` in an open attribute list, if any.
pub open spec fn attr_lookup(entries: Seq<(Seq<char>, AttrV)>, key: Seq<char>) -> Option<AttrV>
    decreases entries.len(),
{
    if entries.len() == 0 {
        None
    } else if entries.first().0 == key {
        Some(entries.first().1)
    } else {
        attr_lookup(entries.drop_first(), key)
    }
}

pub proof fn lemma_attr_lookup_some(entries: Seq<(Seq<char>, AttrV)>, key: Seq<char>, i: int)
    requires
        0 <= i < entries.len(),
        entries[i].0 == key,
        forall|j: int| 0 <= j < i ==> entries[j].0 != key,
    ensures
        attr_lookup(entries, key) == Some(entries[i].1),
    decreases entries.len(),
{
    if i > 0 {
        lemma_attr_lookup_some(entries.drop_first(), key, i - 1);
    }
}

pub proof fn lemma_attr_lookup_none(entries: Seq<(Seq<char>, AttrV)>, key: Seq<char>)
    requires
        forall|j: int| 0 <= j < entries.len() ==> entries[j].0 != key,
    ensures
        attr_lookup(entries, key) is None,
    decreases entries.len(),
{
    if entries.len() > 0 {
        lemma_attr_lookup_none(entries.drop_first(), key);
    }
}

/// First value bound to `key` among `entries`, if any.
pub fn lookup_attr<'a>(entries: &'a Vec<(String, AttrValue)>, key: &str) -> (r: Option<
    &'a AttrValue,
>)
    ensures
        match r {
            Some(v) => attr_lookup(attr_kvs(entries@), key@) == Some(attr_v(*v)),
            None => attr_lookup(attr_kvs(entries@), key@) is None,
        },
{
    let n = entries.len();
    let mut i: usize = 0;
    while i < n
        invariant
            i <= n,
            n == entries@.len(),
            forall|j: int| 0 <= j < i ==> entries@[j].0@ != key@,
        decreases n - i,
    {
        if crate::text::str_eq(entries[i].0.as_str(), key) {
            proof {
                assert forall|j: int| 0 <= j < i implies attr_kvs(entries@)[j].0 != key@ by {
                    lemma_attr_kvs_index(entries@, j);
                }
                lemma_attr_kvs_index(entries@, i as int);
                lemma_attr_lookup_some(attr_kvs(entries@), key@, i as int);
            }
            return Some(&entries[i].1);
        }
        i = i + 1;
    }
    proof {
        assert forall|j: int| 0 <= j < attr_kvs(entries@).len() implies attr_kvs(entries@)[j].0
            != key@ by {
            lemma_attr_kvs_len(entries@);
            lemma_attr_kvs_index(entries@, j);
        }
        lemma_attr_lookup_none(attr_kvs(entries@), key@);
    }
    None
}

} // verus!
