use vstd::prelude::*;

use super::assoc::{assoc_get, assoc_has, count_of, dedup, key_index, lemma_key_index, lemma_push_contains};
use super::dataset::VersionAccessor;
use super::issue::{issue_v, Issue, IssueCode, IssueV, Severity};
use super::node::{clone_ids, node_kind_of, Node, NodeV};
use super::node_id::NodeId;
use super::node_kind::NodeKind;

verus! {

/// Detail text of a duplicate forward-link warning.
pub const DETAIL_DUPLICATE_LINK: &'static str = "duplicate forward link dropped";

/// Detail text when a forward key has no reverse bucket.
pub const DETAIL_NOT_IN_REVERSE: &'static str = "node is missing from the reverse adjacency";

/// Detail text when a reverse key has no forward entry.
pub const DETAIL_NOT_IN_FORWARD: &'static str = "node is missing from the forward adjacency";

/// Detail text when an edge target has no reverse bucket at all.
pub const DETAIL_EDGE_NO_BUCKET: &'static str = "edge target has no reverse adjacency bucket";

/// Detail text when a reverse bucket is missing an edge source.
pub const DETAIL_EDGE_NO_SOURCE: &'static str = "reverse adjacency is missing the edge source";

/// Detail text when a reverse bucket repeats an edge source.
pub const DETAIL_EDGE_DUP_SOURCE: &'static str = "reverse adjacency lists the edge source twice";

/// Detail text when a node's kind has no bucket.
pub const DETAIL_NO_KIND_BUCKET: &'static str = "no bucket in the kind index for the node's kind";

/// Detail text when a node is missing from its kind bucket.
pub const DETAIL_NOT_IN_KIND_BUCKET: &'static str = "node is missing from its kind bucket";

/// Detail text when a node is repeated in its kind bucket.
pub const DETAIL_DUP_IN_KIND_BUCKET: &'static str = "node is duplicated in its kind bucket";

/// Detail text of a dangling-node suggestion.
pub const DETAIL_DANGLING: &'static str = "node is dangling: no forward and no reverse links";

/// The validated model of exactly one dataset version: node table, forward
/// and reverse adjacency, a kind index, and the issues found while building
/// them. Once built, a graph is immutable.
pub struct Graph {
    pub adjacency: Vec<(NodeId, Vec<NodeId>)>,
    pub reverse: Vec<(NodeId, Vec<NodeId>)>,
    pub nodes: Vec<(NodeId, Node)>,
    pub kinds: Vec<(NodeKind, Vec<NodeId>)>,
    pub issues: Vec<Issue>,
}

/// The mathematical shape of a graph.
#[verifier::ext_equal]
pub ghost struct GraphV {
    pub adjacency: Seq<(Seq<char>, Seq<Seq<char>>)>,
    pub reverse: Seq<(Seq<char>, Seq<Seq<char>>)>,
    pub nodes: Seq<(Seq<char>, NodeV)>,
    pub kinds: Seq<(NodeKind, Seq<Seq<char>>)>,
    pub issues: Seq<IssueV>,
}

impl DeepView for Graph {
    type V = GraphV;

    open spec fn deep_view(&self) -> GraphV {
        GraphV {
            adjacency: self.adjacency.deep_view(),
            reverse: self.reverse.deep_view(),
            nodes: self.nodes.deep_view(),
            kinds: self.kinds.deep_view(),
            issues: self.issues.deep_view(),
        }
    }
}

/// Forward adjacency of a node table: each node's declared targets with
/// every repeat dropped, in declaration order.
pub open spec fn adjacency_of(table: Seq<(Seq<char>, NodeV)>) -> Seq<(Seq<char>, Seq<Seq<char>>)> {
    table.map_values(|e: (Seq<char>, NodeV)| (e.0, dedup(e.1.links)))
}

/// The warning recorded when a source node repeats a forward target.
pub open spec fn dup_link_warning(src: Seq<char>) -> IssueV {
    issue_v(Severity::Warning, IssueCode::DuplicateLink, src, DETAIL_DUPLICATE_LINK@)
}

/// One warning for each repeated declaration among a node's links.
pub open spec fn dup_link_issues_of(src: Seq<char>, links: Seq<Seq<char>>) -> Seq<IssueV>
    decreases links.len(),
{
    if links.len() == 0 {
        Seq::empty()
    } else {
        let pre = dup_link_issues_of(src, links.drop_last());
        if links.drop_last().contains(links.last()) {
            pre.push(dup_link_warning(src))
        } else {
            pre
        }
    }
}

/// Duplicate-link warnings over a whole table, in declaration order.
pub open spec fn dup_link_issues(table: Seq<(Seq<char>, NodeV)>) -> Seq<IssueV>
    decreases table.len(),
{
    if table.len() == 0 {
        Seq::empty()
    } else {
        dup_link_issues(table.drop_last()) + dup_link_issues_of(
            table.last().0,
            table.last().1.links,
        )
    }
}

/// `m` with `v` appended to the first bucket keyed `k`, or with a new
/// bucket holding only `v` appended when no bucket has that key.
pub open spec fn upsert_push<K>(m: Seq<(K, Seq<Seq<char>>)>, k: K, v: Seq<char>) -> Seq<
    (K, Seq<Seq<char>>),
> {
    if assoc_has(m, k) {
        let i = key_index(m, k);
        m.update(i, (k, m[i].1.push(v)))
    } else {
        m.push((k, seq![v]))
    }
}

/// `m` with an empty bucket for `k` appended when none exists.
pub open spec fn ensure_key<K>(m: Seq<(K, Seq<Seq<char>>)>, k: K) -> Seq<(K, Seq<Seq<char>>)> {
    if assoc_has(m, k) {
        m
    } else {
        m.push((k, Seq::empty()))
    }
}

/// The source appended to each of its targets' buckets, in declaration
/// order.
pub open spec fn rev_add_targets(
    rev: Seq<(Seq<char>, Seq<Seq<char>>)>,
    src: Seq<char>,
    targets: Seq<Seq<char>>,
) -> Seq<(Seq<char>, Seq<Seq<char>>)>
    decreases targets.len(),
{
    if targets.len() == 0 {
        rev
    } else {
        upsert_push(rev_add_targets(rev, src, targets.drop_last()), targets.last(), src)
    }
}

/// The reverse-adjacency step for one forward entry: the source appended to
/// each target's bucket, then the source's own (possibly empty) bucket
/// ensured.
pub open spec fn rev_step(
    rev: Seq<(Seq<char>, Seq<Seq<char>>)>,
    e: (Seq<char>, Seq<Seq<char>>),
) -> Seq<(Seq<char>, Seq<Seq<char>>)> {
    ensure_key(rev_add_targets(rev, e.0, e.1), e.0)
}

/// Reverse adjacency: the forward adjacency inverted, entry by entry.
pub open spec fn reverse_of(adj: Seq<(Seq<char>, Seq<Seq<char>>)>) -> Seq<
    (Seq<char>, Seq<Seq<char>>),
>
    decreases adj.len(),
{
    if adj.len() == 0 {
        Seq::empty()
    } else {
        rev_step(reverse_of(adj.drop_last()), adj.last())
    }
}

/// The kind index of a node table: every node id bucketed under its
/// resolved kind, buckets appearing in order of first use.
pub open spec fn kinds_of(table: Seq<(Seq<char>, NodeV)>) -> Seq<(NodeKind, Seq<Seq<char>>)>
    decreases table.len(),
{
    if table.len() == 0 {
        Seq::empty()
    } else {
        upsert_push(kinds_of(table.drop_last()), node_kind_of(table.last().1), table.last().0)
    }
}

/// The bucket bound to `k`, or the empty sequence when there is none.
pub open spec fn bucket_of<K>(m: Seq<(K, Seq<Seq<char>>)>, k: K) -> Seq<Seq<char>> {
    if assoc_has(m, k) {
        assoc_get(m, k)
    } else {
        Seq::empty()
    }
}

/// The number of forward edges: the lengths of all adjacency buckets summed.
pub open spec fn edges_count(adj: Seq<(Seq<char>, Seq<Seq<char>>)>) -> nat
    decreases adj.len(),
{
    if adj.len() == 0 {
        0nat
    } else {
        edges_count(adj.drop_last()) + adj.last().1.len()
    }
}

/// Whether any issue has error severity.
pub open spec fn has_error_issue(issues: Seq<IssueV>) -> bool {
    exists|i: int| 0 <= i < issues.len() && issues[i].severity == Severity::Error
}

/// A broken-link error.
pub open spec fn broken_error(subject: Seq<char>, detail: Seq<char>) -> IssueV {
    issue_v(Severity::Error, IssueCode::BrokenLink, subject, detail)
}

/// One error for each forward key that has no reverse bucket, in forward
/// order.
pub open spec fn forward_presence_issues(
    adj: Seq<(Seq<char>, Seq<Seq<char>>)>,
    rev: Seq<(Seq<char>, Seq<Seq<char>>)>,
) -> Seq<IssueV>
    decreases adj.len(),
{
    if adj.len() == 0 {
        Seq::empty()
    } else {
        forward_presence_issues(adj.drop_last(), rev) + if assoc_has(rev, adj.last().0) {
            Seq::empty()
        } else {
            seq![broken_error(adj.last().0, DETAIL_NOT_IN_REVERSE@)]
        }
    }
}

/// One error for each reverse key that has no forward entry, in reverse
/// order. A broken link target surfaces here.
pub open spec fn reverse_presence_issues(
    adj: Seq<(Seq<char>, Seq<Seq<char>>)>,
    rev: Seq<(Seq<char>, Seq<Seq<char>>)>,
) -> Seq<IssueV>
    decreases rev.len(),
{
    if rev.len() == 0 {
        Seq::empty()
    } else {
        reverse_presence_issues(adj, rev.drop_last()) + if assoc_has(adj, rev.last().0) {
            Seq::empty()
        } else {
            seq![broken_error(rev.last().0, DETAIL_NOT_IN_FORWARD@)]
        }
    }
}

/// What one forward edge contributes: an error when its target's bucket is
/// absent or misses the source, a warning when the bucket repeats it.
pub open spec fn edge_issue(
    src: Seq<char>,
    tgt: Seq<char>,
    rev: Seq<(Seq<char>, Seq<Seq<char>>)>,
) -> Seq<IssueV> {
    if !assoc_has(rev, tgt) {
        seq![broken_error(src, DETAIL_EDGE_NO_BUCKET@)]
    } else {
        let c = count_of(assoc_get(rev, tgt), src);
        if c == 0 {
            seq![broken_error(src, DETAIL_EDGE_NO_SOURCE@)]
        } else if c > 1 {
            seq![issue_v(Severity::Warning, IssueCode::DuplicateLink, tgt, DETAIL_EDGE_DUP_SOURCE@)]
        } else {
            Seq::empty()
        }
    }
}

/// Edge checks for one source's targets, in order.
pub open spec fn edge_issues_of(
    src: Seq<char>,
    targets: Seq<Seq<char>>,
    rev: Seq<(Seq<char>, Seq<Seq<char>>)>,
) -> Seq<IssueV>
    decreases targets.len(),
{
    if targets.len() == 0 {
        Seq::empty()
    } else {
        edge_issues_of(src, targets.drop_last(), rev) + edge_issue(src, targets.last(), rev)
    }
}

/// Edge checks over the whole forward adjacency, in order.
pub open spec fn edge_issues(
    adj: Seq<(Seq<char>, Seq<Seq<char>>)>,
    rev: Seq<(Seq<char>, Seq<Seq<char>>)>,
) -> Seq<IssueV>
    decreases adj.len(),
{
    if adj.len() == 0 {
        Seq::empty()
    } else {
        edge_issues(adj.drop_last(), rev) + edge_issues_of(adj.last().0, adj.last().1, rev)
    }
}

/// The forward/reverse consistency findings: keys present on only one side,
/// then every edge held against the reverse buckets.
pub open spec fn consistency_issues(
    adj: Seq<(Seq<char>, Seq<Seq<char>>)>,
    rev: Seq<(Seq<char>, Seq<Seq<char>>)>,
) -> Seq<IssueV> {
    forward_presence_issues(adj, rev) + reverse_presence_issues(adj, rev) + edge_issues(adj, rev)
}

/// What one node contributes to the kind-index checks: an error when its
/// bucket is absent or misses it, a warning when the bucket repeats it.
pub open spec fn kind_entry_issues(
    id: Seq<char>,
    n: NodeV,
    kinds: Seq<(NodeKind, Seq<Seq<char>>)>,
) -> Seq<IssueV> {
    let k = node_kind_of(n);
    if !assoc_has(kinds, k) {
        seq![broken_error(id, DETAIL_NO_KIND_BUCKET@)]
    } else {
        let c = count_of(assoc_get(kinds, k), id);
        if c == 0 {
            seq![broken_error(id, DETAIL_NOT_IN_KIND_BUCKET@)]
        } else if c > 1 {
            seq![issue_v(Severity::Warning, IssueCode::DuplicateLink, id, DETAIL_DUP_IN_KIND_BUCKET@)]
        } else {
            Seq::empty()
        }
    }
}

/// Kind-index checks over the whole table, in table order.
pub open spec fn kind_index_issues(
    table: Seq<(Seq<char>, NodeV)>,
    kinds: Seq<(NodeKind, Seq<Seq<char>>)>,
) -> Seq<IssueV>
    decreases table.len(),
{
    if table.len() == 0 {
        Seq::empty()
    } else {
        kind_index_issues(table.drop_last(), kinds) + kind_entry_issues(
            table.last().0,
            table.last().1,
            kinds,
        )
    }
}

/// Kinds whose nodes are expected to stand without links.
pub open spec fn dangling_exempt(k: NodeKind) -> bool {
    k == NodeKind::Person || k == NodeKind::Team
}

/// What one forward entry contributes to the dangling check: a suggestion
/// when the node has no forward and no reverse links and its kind is not
/// exempt.
pub open spec fn dangling_entry_issues(
    e: (Seq<char>, Seq<Seq<char>>),
    rev: Seq<(Seq<char>, Seq<Seq<char>>)>,
    table: Seq<(Seq<char>, NodeV)>,
) -> Seq<IssueV> {
    if assoc_has(table, e.0) && dangling_exempt(node_kind_of(assoc_get(table, e.0))) {
        Seq::empty()
    } else if e.1.len() == 0 && (!assoc_has(rev, e.0) || assoc_get(rev, e.0).len() == 0) {
        seq![issue_v(Severity::Suggestion, IssueCode::DandlingNode, e.0, DETAIL_DANGLING@)]
    } else {
        Seq::empty()
    }
}

/// Dangling-node checks over the forward adjacency, in order.
pub open spec fn dangling_issues(
    adj: Seq<(Seq<char>, Seq<Seq<char>>)>,
    rev: Seq<(Seq<char>, Seq<Seq<char>>)>,
    table: Seq<(Seq<char>, NodeV)>,
) -> Seq<IssueV>
    decreases adj.len(),
{
    if adj.len() == 0 {
        Seq::empty()
    } else {
        dangling_issues(adj.drop_last(), rev, table) + dangling_entry_issues(
            adj.last(),
            rev,
            table,
        )
    }
}

/// Every issue graph construction records, in the order it records them:
/// duplicate links, consistency findings, kind-index findings, dangling
/// nodes.
pub open spec fn construction_issues(table: Seq<(Seq<char>, NodeV)>) -> Seq<IssueV> {
    let adj = adjacency_of(table);
    let rev = reverse_of(adj);
    let kinds = kinds_of(table);
    dup_link_issues(table) + consistency_issues(adj, rev) + kind_index_issues(table, kinds)
        + dangling_issues(adj, rev, table)
}

/// Index of the first bucket keyed by `k`, if any.
fn find_bucket(m: &Vec<(NodeId, Vec<NodeId>)>, k: &NodeId) -> (r: Option<usize>)
    ensures
        match r {
            Some(i) => {
                &&& assoc_has(m.deep_view(), k@)
                &&& i == key_index(m.deep_view(), k@)
                &&& i < m@.len()
                &&& m.deep_view()[i as int].0 == k@
            },
            None => !assoc_has(m.deep_view(), k@),
        },
{
    let n = m.len();
    let mut i: usize = 0;
    while i < n
        invariant
            i <= n,
            n == m@.len(),
            forall|j: int| 0 <= j < i ==> m.deep_view()[j].0 != k@,
        decreases n - i,
    {
        if m[i].0.eq(k) {
            proof {
                assert(m.deep_view()[i as int].0 == k@);
                lemma_key_index(m.deep_view(), k@);
            }
            return Some(i);
        }
        i = i + 1;
    }
    proof {
        if assoc_has(m.deep_view(), k@) {
            let j = choose|j: int| 0 <= j < m.deep_view().len() && m.deep_view()[j].0 == k@;
            assert(false);
        }
    }
    None
}

/// Append `src` to the first bucket keyed `tgt`, creating the bucket when
/// there is none.
fn push_source(rev: &mut Vec<(NodeId, Vec<NodeId>)>, tgt: &NodeId, src: &NodeId)
    ensures
        final(rev).deep_view() == upsert_push(old(rev).deep_view(), tgt@, src@),
{
    let ghost m = rev.deep_view();
    match find_bucket(rev, tgt) {
        Some(i) => {
            let ghost bucket_old = rev@[i as int].1.deep_view();
            rev[i].1.push(src.clone());
            proof {
                assert(rev@[i as int].1.deep_view() =~~= bucket_old.push(src@));
                assert(rev.deep_view() =~~= m.update(i as int, (tgt@, m[i as int].1.push(src@))));
            }
        },
        None => {
            let mut bucket: Vec<NodeId> = Vec::new();
            bucket.push(src.clone());
            proof {
                assert(bucket.deep_view() =~~= seq![src@]);
            }
            rev.push((tgt.clone(), bucket));
            proof {
                assert(rev.deep_view() =~~= m.push((tgt@, seq![src@])));
            }
        },
    }
}

/// Append an empty bucket keyed `k` when no bucket has that key.
fn ensure_bucket(rev: &mut Vec<(NodeId, Vec<NodeId>)>, k: &NodeId)
    ensures
        final(rev).deep_view() == ensure_key(old(rev).deep_view(), k@),
{
    let ghost m = rev.deep_view();
    match find_bucket(rev, k) {
        Some(_) => {},
        None => {
            rev.push((k.clone(), Vec::new()));
            proof {
                assert(rev.deep_view() =~~= m.push((k@, Seq::<Seq<char>>::empty())));
            }
        },
    }
}

/// Whether some element of `v` has the same text as `x`.
pub(crate) fn contains_id(v: &Vec<NodeId>, x: &NodeId) -> (r: bool)
    ensures
        r == v.deep_view().contains(x@),
{
    let mut i: usize = 0;
    while i < v.len()
        invariant
            i <= v@.len(),
            forall|j: int| 0 <= j < i ==> v@[j]@ != x@,
        decreases v@.len() - i,
    {
        if v[i].eq(x) {
            assert(v.deep_view()[i as int] == x@);
            return true;
        }
        i = i + 1;
    }
    assert(forall|j: int| 0 <= j < v.deep_view().len() ==> v.deep_view()[j] != x@);
    false
}

impl Graph {
    /// Forward adjacency and the duplicate-link warnings of one table: the
    /// first declaration of each target becomes an edge, later repeats are
    /// dropped and each reported once.
    fn seed_adjacency(table: &Vec<(NodeId, Node)>) -> (r: (Vec<(NodeId, Vec<NodeId>)>, Vec<Issue>))
        ensures
            r.0.deep_view() == adjacency_of(table.deep_view()),
            r.1.deep_view() == dup_link_issues(table.deep_view()),
    {
        let ghost tv = table.deep_view();
        let mut adj: Vec<(NodeId, Vec<NodeId>)> = Vec::new();
        let mut issues: Vec<Issue> = Vec::new();
        let mut i: usize = 0;
        while i < table.len()
            invariant
                i <= tv.len(),
                tv == table.deep_view(),
                tv.len() == table@.len(),
                adj.deep_view().len() == i as int,
                forall|j: int|
                    0 <= j < i ==> adj.deep_view()[j] == (tv[j].0, dedup(tv[j].1.links)),
                issues.deep_view() == dup_link_issues(tv.take(i as int)),
            decreases tv.len() - i,
        {
            let entry = &table[i];
            let ghost src = tv[i as int].0;
            let ghost links_v = tv[i as int].1.links;
            proof {
                assert(entry.deep_view() == tv[i as int]);
                assert(entry.1.links.deep_view() == links_v);
            }
            let mut visited: Vec<NodeId> = Vec::new();
            let mut linked: Vec<NodeId> = Vec::new();
            let mut j: usize = 0;
            while j < entry.1.links.len()
                invariant
                    j <= links_v.len(),
                    entry.1.links.deep_view() == links_v,
                    entry.1.links@.len() == links_v.len(),
                    entry.0@ == src,
                    linked.deep_view() == dedup(links_v.take(j as int)),
                    forall|x: Seq<char>|
                        visited.deep_view().contains(x) == links_v.take(j as int).contains(x),
                    issues.deep_view() == dup_link_issues(tv.take(i as int)) + dup_link_issues_of(
                        src,
                        links_v.take(j as int),
                    ),
                decreases links_v.len() - j,
            {
                let l = &entry.1.links[j];
                let ghost vis_old = visited.deep_view();
                let ghost lnk_old = linked.deep_view();
                let ghost iss_old = issues.deep_view();
                proof {
                    assert(l@ == links_v[j as int]);
                    assert(links_v.take(j as int + 1).drop_last() =~= links_v.take(j as int));
                    assert(links_v.take(j as int + 1).last() == links_v[j as int]);
                }
                if contains_id(&visited, l) {
                    issues.push(
                        Issue::warn(IssueCode::DuplicateLink, entry.0.clone(), DETAIL_DUPLICATE_LINK),
                    );
                    proof {
                        assert(issues.deep_view() =~= iss_old.push(dup_link_warning(src)));
                        assert(dup_link_issues_of(src, links_v.take(j as int + 1))
                            == dup_link_issues_of(src, links_v.take(j as int)).push(
                            dup_link_warning(src),
                        ));
                        assert(issues.deep_view() =~= dup_link_issues(tv.take(i as int))
                            + dup_link_issues_of(src, links_v.take(j as int + 1)));
                    }
                } else {
                    visited.push(l.clone());
                    linked.push(l.clone());
                    proof {
                        assert(visited.deep_view() =~= vis_old.push(l@));
                        assert(linked.deep_view() =~= lnk_old.push(l@));
                        assert forall|x: Seq<char>|
                            visited.deep_view().contains(x) == links_v.take(
                                j as int + 1,
                            ).contains(x) by {
                            lemma_push_contains(vis_old, l@, x);
                            lemma_push_contains(links_v.take(j as int), links_v[j as int], x);
                            assert(links_v.take(j as int).push(links_v[j as int]) =~= links_v.take(
                                j as int + 1,
                            ));
                        }
                        assert(linked.deep_view() == dedup(links_v.take(j as int + 1)));
                        assert(issues.deep_view() =~= dup_link_issues(tv.take(i as int))
                            + dup_link_issues_of(src, links_v.take(j as int + 1)));
                    }
                }
                j = j + 1;
            }
            proof {
                assert(links_v.take(links_v.len() as int) =~= links_v);
                assert(linked.deep_view() == dedup(links_v));
            }
            let pair = (entry.0.clone(), linked);
            proof {
                assert(pair.deep_view() == (src, dedup(links_v)));
            }
            let ghost adj_old = adj.deep_view();
            adj.push(pair);
            i = i + 1;
            proof {
                assert(adj.deep_view() =~= adj_old.push((src, dedup(links_v))));
                assert(forall|j: int|
                    0 <= j < i ==> adj.deep_view()[j] == (tv[j].0, dedup(tv[j].1.links)));
                assert(tv.take(i as int).drop_last() =~= tv.take(i as int - 1));
                assert(tv.take(i as int).last() == tv[i as int - 1]);
                assert(issues.deep_view() =~= dup_link_issues(tv.take(i as int)));
            }
        }
        proof {
            assert(tv.take(tv.len() as int) =~= tv);
            assert(adj.deep_view() =~= adjacency_of(tv));
        }
        (adj, issues)
    }

    /// Invert the forward adjacency. Every edge target receives its sources
    /// in forward order, and every source receives a bucket of its own, so
    /// a bucket exists for each id the adjacency mentions.
    fn seed_reverse(adj: &Vec<(NodeId, Vec<NodeId>)>) -> (r: Vec<(NodeId, Vec<NodeId>)>)
        ensures
            r.deep_view() == reverse_of(adj.deep_view()),
    {
        let ghost av = adj.deep_view();
        let mut rev: Vec<(NodeId, Vec<NodeId>)> = Vec::new();
        let mut i: usize = 0;
        while i < adj.len()
            invariant
                i <= av.len(),
                av == adj.deep_view(),
                av.len() == adj@.len(),
                rev.deep_view() == reverse_of(av.take(i as int)),
            decreases av.len() - i,
        {
            let entry = &adj[i];
            let ghost src = av[i as int].0;
            let ghost targets_v = av[i as int].1;
            proof {
                assert(entry.deep_view() == av[i as int]);
                assert(entry.1.deep_view() == targets_v);
            }
            let mut j: usize = 0;
            while j < entry.1.len()
                invariant
                    j <= targets_v.len(),
                    entry.1.deep_view() == targets_v,
                    entry.1@.len() == targets_v.len(),
                    entry.0@ == src,
                    i < av.len(),
                    av == adj.deep_view(),
                    rev.deep_view() == rev_add_targets(
                        reverse_of(av.take(i as int)),
                        src,
                        targets_v.take(j as int),
                    ),
                decreases targets_v.len() - j,
            {
                push_source(&mut rev, &entry.1[j], &entry.0);
                proof {
                    assert(targets_v.take(j as int + 1).drop_last() =~= targets_v.take(j as int));
                    assert(targets_v.take(j as int + 1).last() == targets_v[j as int]);
                }
                j = j + 1;
            }
            ensure_bucket(&mut rev, &entry.0);
            i = i + 1;
            proof {
                assert(targets_v.take(targets_v.len() as int) =~= targets_v);
                assert(av.take(i as int).drop_last() =~= av.take(i as int - 1));
                assert(av.take(i as int).last() == av[i as int - 1]);
            }
        }
        proof {
            assert(av.take(av.len() as int) =~= av);
        }
        rev
    }

    /// Bucket every node id under its resolved kind.
    fn seed_by_kind(table: &Vec<(NodeId, Node)>) -> (r: Vec<(NodeKind, Vec<NodeId>)>)
        ensures
            r.deep_view() == kinds_of(table.deep_view()),
    {
        let ghost tv = table.deep_view();
        let mut ks: Vec<(NodeKind, Vec<NodeId>)> = Vec::new();
        let mut i: usize = 0;
        while i < table.len()
            invariant
                i <= tv.len(),
                tv == table.deep_view(),
                tv.len() == table@.len(),
                ks.deep_view() == kinds_of(tv.take(i as int)),
            decreases tv.len() - i,
        {
            let entry = &table[i];
            proof {
                assert(entry.deep_view() == tv[i as int]);
            }
            let k = entry.1.resolved_kind();
            push_kind(&mut ks, k, &entry.0);
            i = i + 1;
            proof {
                assert(tv.take(i as int).drop_last() =~= tv.take(i as int - 1));
                assert(tv.take(i as int).last() == tv[i as int - 1]);
            }
        }
        proof {
            assert(tv.take(tv.len() as int) =~= tv);
        }
        ks
    }
}

/// How many elements of `v` have the same text as `x`.
fn count_ids(v: &Vec<NodeId>, x: &NodeId) -> (c: usize)
    ensures
        c as nat == count_of(v.deep_view(), x@),
{
    let ghost dv = v.deep_view();
    let mut c: usize = 0;
    let mut i: usize = 0;
    while i < v.len()
        invariant
            i <= dv.len(),
            dv == v.deep_view(),
            dv.len() == v@.len(),
            c <= i,
            c as nat == count_of(dv.take(i as int), x@),
        decreases dv.len() - i,
    {
        proof {
            assert(dv.take(i as int + 1).drop_last() =~= dv.take(i as int));
            assert(dv.take(i as int + 1).last() == dv[i as int]);
        }
        if v[i].eq(x) {
            proof {
                assert(dv[i as int] == x@);
            }
            c = c + 1;
        } else {
            proof {
                assert(dv[i as int] != x@);
            }
        }
        i = i + 1;
    }
    proof {
        assert(dv.take(dv.len() as int) =~= dv);
    }
    c
}

/// The first node bound to `k` in a table, if any.
pub(crate) fn find_node<'a>(table: &'a Vec<(NodeId, Node)>, k: &NodeId) -> (r: Option<&'a Node>)
    ensures
        match r {
            Some(n) => assoc_has(table.deep_view(), k@) && n.deep_view() == assoc_get(
                table.deep_view(),
                k@,
            ),
            None => !assoc_has(table.deep_view(), k@),
        },
{
    let n = table.len();
    let mut i: usize = 0;
    while i < n
        invariant
            i <= n,
            n == table@.len(),
            forall|j: int| 0 <= j < i ==> table.deep_view()[j].0 != k@,
        decreases n - i,
    {
        if table[i].0.eq(k) {
            proof {
                assert(table.deep_view()[i as int].0 == k@);
                lemma_key_index(table.deep_view(), k@);
            }
            return Some(&table[i].1);
        }
        i = i + 1;
    }
    proof {
        if assoc_has(table.deep_view(), k@) {
            let j = choose|j: int|
                0 <= j < table.deep_view().len() && table.deep_view()[j].0 == k@;
            assert(false);
        }
    }
    None
}

impl Graph {
    /// Hold forward and reverse adjacency against each other: every key
    /// present on both sides, and every edge reflected exactly once.
    fn validate_consistency(
        adj: &Vec<(NodeId, Vec<NodeId>)>,
        rev: &Vec<(NodeId, Vec<NodeId>)>,
    ) -> (r: Vec<Issue>)
        ensures
            r.deep_view() == consistency_issues(adj.deep_view(), rev.deep_view()),
    {
        let ghost av = adj.deep_view();
        let ghost rv = rev.deep_view();
        let mut issues: Vec<Issue> = Vec::new();
        let mut i: usize = 0;
        while i < adj.len()
            invariant
                i <= av.len(),
                av == adj.deep_view(),
                rv == rev.deep_view(),
                av.len() == adj@.len(),
                issues.deep_view() == forward_presence_issues(av.take(i as int), rv),
            decreases av.len() - i,
        {
            let ghost iss_old = issues.deep_view();
            proof {
                assert(av.take(i as int + 1).drop_last() =~= av.take(i as int));
                assert(av.take(i as int + 1).last() == av[i as int]);
                assert(adj[i as int].deep_view() == av[i as int]);
            }
            if find_bucket(rev, &adj[i].0).is_none() {
                issues.push(Issue::error(IssueCode::BrokenLink, adj[i].0.clone(), DETAIL_NOT_IN_REVERSE));
                proof {
                    assert(issues.deep_view() =~= iss_old.push(
                        broken_error(av[i as int].0, DETAIL_NOT_IN_REVERSE@),
                    ));
                }
            }
            i = i + 1;
            proof {
                assert(issues.deep_view() =~= forward_presence_issues(av.take(i as int), rv));
            }
        }
        proof {
            assert(av.take(av.len() as int) =~= av);
        }
        let ghost fwd = issues.deep_view();
        let mut i: usize = 0;
        while i < rev.len()
            invariant
                i <= rv.len(),
                av == adj.deep_view(),
                rv == rev.deep_view(),
                rv.len() == rev@.len(),
                issues.deep_view() == fwd + reverse_presence_issues(av, rv.take(i as int)),
            decreases rv.len() - i,
        {
            let ghost iss_old = issues.deep_view();
            proof {
                assert(rv.take(i as int + 1).drop_last() =~= rv.take(i as int));
                assert(rv.take(i as int + 1).last() == rv[i as int]);
                assert(rev[i as int].deep_view() == rv[i as int]);
            }
            if find_bucket(adj, &rev[i].0).is_none() {
                issues.push(Issue::error(IssueCode::BrokenLink, rev[i].0.clone(), DETAIL_NOT_IN_FORWARD));
                proof {
                    assert(issues.deep_view() =~= iss_old.push(
                        broken_error(rv[i as int].0, DETAIL_NOT_IN_FORWARD@),
                    ));
                }
            }
            i = i + 1;
            proof {
                assert(issues.deep_view() =~= fwd + reverse_presence_issues(av, rv.take(i as int)));
            }
        }
        proof {
            assert(rv.take(rv.len() as int) =~= rv);
        }
        let ghost base = issues.deep_view();
        let mut i: usize = 0;
        while i < adj.len()
            invariant
                i <= av.len(),
                av == adj.deep_view(),
                rv == rev.deep_view(),
                av.len() == adj@.len(),
                issues.deep_view() == base + edge_issues(av.take(i as int), rv),
            decreases av.len() - i,
        {
            let entry = &adj[i];
            let ghost src = av[i as int].0;
            let ghost targets_v = av[i as int].1;
            proof {
                assert(entry.deep_view() == av[i as int]);
                assert(entry.1.deep_view() == targets_v);
            }
            let mut j: usize = 0;
            while j < entry.1.len()
                invariant
                    j <= targets_v.len(),
                    av == adj.deep_view(),
                    rv == rev.deep_view(),
                    entry.1.deep_view() == targets_v,
                    entry.1@.len() == targets_v.len(),
                    entry.0@ == src,
                    issues.deep_view() == base + edge_issues(av.take(i as int), rv)
                        + edge_issues_of(src, targets_v.take(j as int), rv),
                decreases targets_v.len() - j,
            {
                let tgt = &entry.1[j];
                let ghost iss_old = issues.deep_view();
                proof {
                    assert(tgt@ == targets_v[j as int]);
                    assert(targets_v.take(j as int + 1).drop_last() =~= targets_v.take(j as int));
                    assert(targets_v.take(j as int + 1).last() == targets_v[j as int]);
                }
                match find_bucket(rev, tgt) {
                    None => {
                        issues.push(
                            Issue::error(IssueCode::BrokenLink, entry.0.clone(), DETAIL_EDGE_NO_BUCKET),
                        );
                        proof {
                            assert(issues.deep_view() =~= iss_old.push(
                                broken_error(src, DETAIL_EDGE_NO_BUCKET@),
                            ));
                        }
                    },
                    Some(bi) => {
                        let c = count_ids(&rev[bi].1, &entry.0);
                        proof {
                            assert(rev[bi as int].1.deep_view() == rv[bi as int].1);
                            assert(assoc_get(rv, tgt@) == rv[bi as int].1);
                        }
                        if c == 0 {
                            issues.push(
                                Issue::error(
                                    IssueCode::BrokenLink,
                                    entry.0.clone(),
                                    DETAIL_EDGE_NO_SOURCE,
                                ),
                            );
                            proof {
                                assert(issues.deep_view() =~= iss_old.push(
                                    broken_error(src, DETAIL_EDGE_NO_SOURCE@),
                                ));
                            }
                        } else if c > 1 {
                            issues.push(
                                Issue::warn(
                                    IssueCode::DuplicateLink,
                                    tgt.clone(),
                                    DETAIL_EDGE_DUP_SOURCE,
                                ),
                            );
                            proof {
                                assert(issues.deep_view() =~= iss_old.push(
                                    issue_v(
                                        Severity::Warning,
                                        IssueCode::DuplicateLink,
                                        targets_v[j as int],
                                        DETAIL_EDGE_DUP_SOURCE@,
                                    ),
                                ));
                            }
                        }
                    },
                }
                j = j + 1;
                proof {
                    assert(issues.deep_view() =~= base + edge_issues(av.take(i as int), rv)
                        + edge_issues_of(src, targets_v.take(j as int), rv));
                }
            }
            i = i + 1;
            proof {
                assert(targets_v.take(targets_v.len() as int) =~= targets_v);
                assert(av.take(i as int).drop_last() =~= av.take(i as int - 1));
                assert(av.take(i as int).last() == av[i as int - 1]);
                assert(issues.deep_view() =~= base + edge_issues(av.take(i as int), rv));
            }
        }
        proof {
            assert(av.take(av.len() as int) =~= av);
            assert(issues.deep_view() =~= consistency_issues(av, rv));
        }
        issues
    }

    /// Hold every node against the kind index: each appears exactly once in
    /// the bucket of its resolved kind.
    fn validate_by_kind(
        table: &Vec<(NodeId, Node)>,
        kinds: &Vec<(NodeKind, Vec<NodeId>)>,
    ) -> (r: Vec<Issue>)
        ensures
            r.deep_view() == kind_index_issues(table.deep_view(), kinds.deep_view()),
    {
        let ghost tv = table.deep_view();
        let ghost kv = kinds.deep_view();
        let mut issues: Vec<Issue> = Vec::new();
        let mut i: usize = 0;
        while i < table.len()
            invariant
                i <= tv.len(),
                tv == table.deep_view(),
                kv == kinds.deep_view(),
                tv.len() == table@.len(),
                issues.deep_view() == kind_index_issues(tv.take(i as int), kv),
            decreases tv.len() - i,
        {
            let entry = &table[i];
            let ghost iss_old = issues.deep_view();
            proof {
                assert(entry.deep_view() == tv[i as int]);
                assert(tv.take(i as int + 1).drop_last() =~= tv.take(i as int));
                assert(tv.take(i as int + 1).last() == tv[i as int]);
            }
            let k = entry.1.resolved_kind();
            match find_kind_bucket(kinds, k) {
                None => {
                    issues.push(
                        Issue::error(IssueCode::BrokenLink, entry.0.clone(), DETAIL_NO_KIND_BUCKET),
                    );
                    proof {
                        assert(issues.deep_view() =~= iss_old.push(
                            broken_error(tv[i as int].0, DETAIL_NO_KIND_BUCKET@),
                        ));
                    }
                },
                Some(bi) => {
                    let c = count_ids(&kinds[bi].1, &entry.0);
                    proof {
                        assert(kinds[bi as int].1.deep_view() == kv[bi as int].1);
                        assert(assoc_get(kv, k) == kv[bi as int].1);
                    }
                    if c == 0 {
                        issues.push(
                            Issue::error(
                                IssueCode::BrokenLink,
                                entry.0.clone(),
                                DETAIL_NOT_IN_KIND_BUCKET,
                            ),
                        );
                        proof {
                            assert(issues.deep_view() =~= iss_old.push(
                                broken_error(tv[i as int].0, DETAIL_NOT_IN_KIND_BUCKET@),
                            ));
                        }
                    } else if c > 1 {
                        issues.push(
                            Issue::warn(
                                IssueCode::DuplicateLink,
                                entry.0.clone(),
                                DETAIL_DUP_IN_KIND_BUCKET,
                            ),
                        );
                        proof {
                            assert(issues.deep_view() =~= iss_old.push(
                                issue_v(
                                    Severity::Warning,
                                    IssueCode::DuplicateLink,
                                    tv[i as int].0,
                                    DETAIL_DUP_IN_KIND_BUCKET@,
                                ),
                            ));
                        }
                    }
                },
            }
            i = i + 1;
            proof {
                assert(issues.deep_view() =~= kind_index_issues(tv.take(i as int), kv));
            }
        }
        proof {
            assert(tv.take(tv.len() as int) =~= tv);
        }
        issues
    }

    /// Report every node with neither forward nor reverse links, unless its
    /// kind is exempt.
    fn validate_dangling(
        adj: &Vec<(NodeId, Vec<NodeId>)>,
        rev: &Vec<(NodeId, Vec<NodeId>)>,
        table: &Vec<(NodeId, Node)>,
    ) -> (r: Vec<Issue>)
        ensures
            r.deep_view() == dangling_issues(adj.deep_view(), rev.deep_view(), table.deep_view()),
    {
        let ghost av = adj.deep_view();
        let ghost rv = rev.deep_view();
        let ghost tv = table.deep_view();
        let mut issues: Vec<Issue> = Vec::new();
        let mut i: usize = 0;
        while i < adj.len()
            invariant
                i <= av.len(),
                av == adj.deep_view(),
                rv == rev.deep_view(),
                tv == table.deep_view(),
                av.len() == adj@.len(),
                issues.deep_view() == dangling_issues(av.take(i as int), rv, tv),
            decreases av.len() - i,
        {
            let entry = &adj[i];
            let ghost iss_old = issues.deep_view();
            proof {
                assert(entry.deep_view() == av[i as int]);
                assert(av.take(i as int + 1).drop_last() =~= av.take(i as int));
                assert(av.take(i as int + 1).last() == av[i as int]);
            }
            let exempt = match find_node(table, &entry.0) {
                Some(node) => {
                    let k = node.resolved_kind();
                    k == NodeKind::Person || k == NodeKind::Team
                },
                None => false,
            };
            if !exempt {
                let outs_empty = entry.1.len() == 0;
                let ins_empty = match find_bucket(rev, &entry.0) {
                    Some(bi) => {
                        proof {
                            assert(rev[bi as int].1.deep_view() == rv[bi as int].1);
                            assert(assoc_get(rv, entry.0@) == rv[bi as int].1);
                        }
                        rev[bi].1.len() == 0
                    },
                    None => true,
                };
                proof {
                    assert(entry.1@.len() == av[i as int].1.len());
                }
                if outs_empty && ins_empty {
                    issues.push(
                        Issue::suggest(IssueCode::DandlingNode, entry.0.clone(), DETAIL_DANGLING),
                    );
                    proof {
                        assert(issues.deep_view() =~= iss_old.push(
                            issue_v(
                                Severity::Suggestion,
                                IssueCode::DandlingNode,
                                av[i as int].0,
                                DETAIL_DANGLING@,
                            ),
                        ));
                    }
                }
            }
            i = i + 1;
            proof {
                assert(issues.deep_view() =~= dangling_issues(av.take(i as int), rv, tv));
            }
        }
        proof {
            assert(av.take(av.len() as int) =~= av);
        }
        issues
    }
}

/// A fresh copy of a node table, value for value.
fn clone_table(table: &Vec<(NodeId, Node)>) -> (r: Vec<(NodeId, Node)>)
    ensures
        r.deep_view() == table.deep_view(),
{
    let mut out: Vec<(NodeId, Node)> = Vec::new();
    let mut i: usize = 0;
    while i < table.len()
        invariant
            i <= table@.len(),
            out@.len() == i as int,
            forall|j: int| 0 <= j < i ==> out.deep_view()[j] == table.deep_view()[j],
        decreases table@.len() - i,
    {
        let entry = &table[i];
        out.push((entry.0.clone(), entry.1.clone()));
        i = i + 1;
    }
    proof {
        assert(out.deep_view() =~= table.deep_view());
    }
    out
}

impl Graph {
    /// Build and validate the graph of one version's node table: an owned
    /// copy of the table, its forward and reverse adjacency, its kind
    /// index, and every issue the construction found, in order: duplicate
    /// links, consistency findings, kind-index findings, dangling nodes.
    /// Anomalies never abort the build; they accumulate as issues.
    pub fn new(view: VersionAccessor<'_>) -> (g: Graph)
        ensures
            g.nodes.deep_view() == view.needs.deep_view(),
            g.adjacency.deep_view() == adjacency_of(view.needs.deep_view()),
            g.reverse.deep_view() == reverse_of(adjacency_of(view.needs.deep_view())),
            g.kinds.deep_view() == kinds_of(view.needs.deep_view()),
            g.issues.deep_view() == construction_issues(view.needs.deep_view()),
    {
        let ghost tv = view.needs.deep_view();
        let nodes = clone_table(view.needs);
        let (adjacency, mut issues) = Self::seed_adjacency(view.needs);
        let kinds = Self::seed_by_kind(view.needs);
        let reverse = Self::seed_reverse(&adjacency);
        let mut found = Self::validate_consistency(&adjacency, &reverse);
        issues.append(&mut found);
        let mut found = Self::validate_by_kind(&nodes, &kinds);
        issues.append(&mut found);
        let mut found = Self::validate_dangling(&adjacency, &reverse, &nodes);
        issues.append(&mut found);
        proof {
            assert(issues.deep_view() =~= construction_issues(tv));
        }
        Graph { adjacency, reverse, nodes, kinds, issues }
    }

    /// How many nodes the graph holds.
    pub fn nodes_len(&self) -> (r: usize)
        ensures
            r == self.nodes.deep_view().len(),
    {
        self.nodes.len()
    }

    /// How many forward edges the graph holds; saturates at the machine
    /// limit.
    pub fn edges_len(&self) -> (r: usize)
        ensures
            edges_count(self.adjacency.deep_view()) <= usize::MAX ==> r as nat == edges_count(
                self.adjacency.deep_view(),
            ),
            edges_count(self.adjacency.deep_view()) > usize::MAX ==> r == usize::MAX,
    {
        let ghost av = self.adjacency.deep_view();
        let mut total: usize = 0;
        let mut i: usize = 0;
        while i < self.adjacency.len()
            invariant
                i <= av.len(),
                av == self.adjacency.deep_view(),
                av.len() == self.adjacency@.len(),
                edges_count(av.take(i as int)) <= usize::MAX ==> total as nat == edges_count(
                    av.take(i as int),
                ),
                edges_count(av.take(i as int)) > usize::MAX ==> total == usize::MAX,
            decreases av.len() - i,
        {
            proof {
                assert(av.take(i as int + 1).drop_last() =~= av.take(i as int));
                assert(av.take(i as int + 1).last() == av[i as int]);
                assert(self.adjacency[i as int].deep_view() == av[i as int]);
                assert(self.adjacency[i as int].1.deep_view().len()
                    == self.adjacency[i as int].1@.len());
            }
            let len = self.adjacency[i].1.len();
            if total > usize::MAX - len {
                total = usize::MAX;
            } else {
                total = total + len;
            }
            i = i + 1;
        }
        proof {
            assert(av.take(av.len() as int) =~= av);
        }
        total
    }

    /// The ids bucketed under a kind, empty when the kind has no bucket.
    pub fn of_kind(&self, k: NodeKind) -> (r: Vec<NodeId>)
        ensures
            r.deep_view() == bucket_of(self.kinds.deep_view(), k),
    {
        match find_kind_bucket(&self.kinds, k) {
            Some(i) => clone_ids(&self.kinds[i].1),
            None => Vec::new(),
        }
    }

    /// A node's outgoing neighbors, empty when it has no adjacency entry.
    pub fn out(&self, id: &NodeId) -> (r: Vec<NodeId>)
        ensures
            r.deep_view() == bucket_of(self.adjacency.deep_view(), id@),
    {
        match find_bucket(&self.adjacency, id) {
            Some(i) => clone_ids(&self.adjacency[i].1),
            None => Vec::new(),
        }
    }

    /// A node's incoming neighbors, empty when it has no reverse entry.
    pub fn inc(&self, id: &NodeId) -> (r: Vec<NodeId>)
        ensures
            r.deep_view() == bucket_of(self.reverse.deep_view(), id@),
    {
        match find_bucket(&self.reverse, id) {
            Some(i) => clone_ids(&self.reverse[i].1),
            None => Vec::new(),
        }
    }

    /// Whether any recorded issue has error severity; the caller decides
    /// what to do about it, the graph itself never halts on one.
    pub fn has_errors(&self) -> (r: bool)
        ensures
            r == has_error_issue(self.issues.deep_view()),
    {
        let mut i: usize = 0;
        while i < self.issues.len()
            invariant
                i <= self.issues@.len(),
                forall|j: int| 0 <= j < i ==> self.issues.deep_view()[j].severity != Severity::Error,
            decreases self.issues@.len() - i,
        {
            if self.issues[i].severity == Severity::Error {
                assert(self.issues.deep_view()[i as int].severity == Severity::Error);
                return true;
            }
            i = i + 1;
        }
        false
    }
}

/// Index of the first kind bucket keyed by `k`, if any.
fn find_kind_bucket(m: &Vec<(NodeKind, Vec<NodeId>)>, k: NodeKind) -> (r: Option<usize>)
    ensures
        match r {
            Some(i) => {
                &&& assoc_has(m.deep_view(), k)
                &&& i == key_index(m.deep_view(), k)
                &&& i < m@.len()
                &&& m.deep_view()[i as int].0 == k
            },
            None => !assoc_has(m.deep_view(), k),
        },
{
    let n = m.len();
    let mut i: usize = 0;
    while i < n
        invariant
            i <= n,
            n == m@.len(),
            forall|j: int| 0 <= j < i ==> m.deep_view()[j].0 != k,
        decreases n - i,
    {
        if m[i].0 == k {
            proof {
                assert(m.deep_view()[i as int].0 == k);
                lemma_key_index(m.deep_view(), k);
            }
            return Some(i);
        }
        i = i + 1;
    }
    proof {
        if assoc_has(m.deep_view(), k) {
            let j = choose|j: int| 0 <= j < m.deep_view().len() && m.deep_view()[j].0 == k;
            assert(false);
        }
    }
    None
}

/// Append `id` to the first bucket keyed `k`, creating the bucket when
/// there is none.
fn push_kind(ks: &mut Vec<(NodeKind, Vec<NodeId>)>, k: NodeKind, id: &NodeId)
    ensures
        final(ks).deep_view() == upsert_push(old(ks).deep_view(), k, id@),
{
    let ghost m = ks.deep_view();
    match find_kind_bucket(ks, k) {
        Some(i) => {
            let ghost bucket_old = ks@[i as int].1.deep_view();
            ks[i].1.push(id.clone());
            proof {
                assert(ks@[i as int].1.deep_view() =~~= bucket_old.push(id@));
                assert(ks.deep_view() =~~= m.update(i as int, (k, m[i as int].1.push(id@))));
            }
        },
        None => {
            let mut bucket: Vec<NodeId> = Vec::new();
            bucket.push(id.clone());
            proof {
                assert(bucket.deep_view() =~~= seq![id@]);
            }
            ks.push((k, bucket));
            proof {
                assert(ks.deep_view() =~~= m.push((k, seq![id@])));
            }
        },
    }
}

} // verus!
