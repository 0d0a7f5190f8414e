//! The structural laws of graph construction: how the reverse adjacency and
//! the kind index relate to the node table they were built from, and what
//! issues a build is guaranteed to report.

use vstd::prelude::*;

use super::assoc::{
    assoc_get, assoc_has, count_of, count_where, dedup, distinct_keys, key_index,
    lemma_count_contains, lemma_count_push, lemma_count_where_concat, lemma_count_where_zero,
    lemma_dedup_contains, lemma_dedup_count, lemma_key_index, lemma_push_contains,
};
use super::graph::{
    adjacency_of, broken_error, construction_issues, dangling_entry_issues, dangling_issues,
    dup_link_issues, dup_link_issues_of, dup_link_warning, edge_issues, edge_issues_of,
    ensure_key, forward_presence_issues, kind_index_issues, kinds_of, rev_add_targets,
    reverse_of, reverse_presence_issues, upsert_push, DETAIL_NOT_IN_FORWARD,
};
use super::issue::{issue_v, IssueCode, IssueV, Severity};
use super::node::{node_kind_of, NodeV};
use super::node_kind::NodeKind;

verus! {

/// The bucket length bound to `t`, zero when there is no bucket.
pub open spec fn bkt_len<K>(m: Seq<(K, Seq<Seq<char>>)>, t: K) -> nat {
    if assoc_has(m, t) {
        assoc_get(m, t).len()
    } else {
        0nat
    }
}

/// How often `s` stands in the bucket bound to `t`, zero when there is no
/// bucket.
pub open spec fn bkt_count<K>(m: Seq<(K, Seq<Seq<char>>)>, t: K, s: Seq<char>) -> nat {
    if assoc_has(m, t) {
        count_of(assoc_get(m, t), s)
    } else {
        0nat
    }
}

pub proof fn lemma_key_index_same_keys<K, V1, V2>(m1: Seq<(K, V1)>, m2: Seq<(K, V2)>, k: K)
    requires
        m1.len() == m2.len(),
        forall|i: int| 0 <= i < m1.len() ==> m1[i].0 == m2[i].0,
    ensures
        assoc_has(m1, k) == assoc_has(m2, k),
        key_index(m1, k) == key_index(m2, k),
    decreases m1.len(),
{
    assert(assoc_has(m1, k) == assoc_has(m2, k)) by {
        if assoc_has(m1, k) {
            let i = choose|i: int| 0 <= i < m1.len() && m1[i].0 == k;
            assert(m2[i].0 == k);
        }
        if assoc_has(m2, k) {
            let i = choose|i: int| 0 <= i < m2.len() && m2[i].0 == k;
            assert(m1[i].0 == k);
        }
    }
    if m1.len() > 0 && m1.first().0 != k {
        assert(forall|i: int| 0 <= i < m1.drop_first().len() ==> m1.drop_first()[i] == m1[i + 1]);
        assert(forall|i: int| 0 <= i < m2.drop_first().len() ==> m2.drop_first()[i] == m2[i + 1]);
        lemma_key_index_same_keys(m1.drop_first(), m2.drop_first(), k);
    }
}

/// What an upsert does to every bucket: the keyed bucket grows by the
/// pushed value (or appears, holding only it), and every other bucket is
/// untouched.
proof fn lemma_upsert_bucket<K>(m: Seq<(K, Seq<Seq<char>>)>, k: K, v: Seq<char>, t: K)
    ensures
        assoc_has(upsert_push(m, k, v), t) == (assoc_has(m, t) || t == k),
        t == k ==> assoc_get(upsert_push(m, k, v), k) == (if assoc_has(m, k) {
            assoc_get(m, k).push(v)
        } else {
            seq![v]
        }),
        t != k && assoc_has(m, t) ==> assoc_get(upsert_push(m, k, v), t) == assoc_get(m, t),
{
    lemma_key_index(m, k);
    lemma_key_index(m, t);
    if assoc_has(m, k) {
        let ki = key_index(m, k);
        let m2 = m.update(ki, (k, m[ki].1.push(v)));
        assert(m2[ki].0 == k);
        assert(forall|i: int| 0 <= i < m.len() ==> m2[i].0 == m[i].0);
        lemma_key_index_same_keys(m, m2, k);
        lemma_key_index_same_keys(m, m2, t);
        if t != k && assoc_has(m, t) {
            let kt = key_index(m, t);
            assert(kt != ki);
            assert(m2[kt] == m[kt]);
        }
    } else {
        let m2 = m.push((k, seq![v]));
        assert(m2[m.len() as int] == (k, seq![v]));
        assert(forall|i: int| 0 <= i < m.len() ==> m2[i] == m[i]);
        assert(assoc_has(m2, t) == (assoc_has(m, t) || t == k)) by {
            if assoc_has(m2, t) {
                let i = choose|i: int| 0 <= i < m2.len() && m2[i].0 == t;
                if i < m.len() {
                    assert(m[i].0 == t);
                }
            }
            if assoc_has(m, t) {
                let i = choose|i: int| 0 <= i < m.len() && m[i].0 == t;
                assert(m2[i].0 == t);
            }
        }
        lemma_key_index(m2, k);
        lemma_key_index(m2, t);
        if t == k {
            let ki2 = key_index(m2, k);
            if ki2 < m.len() {
                assert(m[ki2].0 == k);
            }
            assert(ki2 == m.len());
        } else if assoc_has(m, t) {
            let kt = key_index(m, t);
            let kt2 = key_index(m2, t);
            assert(m2[kt].0 == t);
            assert(kt2 <= kt);
            if kt2 < kt {
                assert(m[kt2].0 != t);
                assert(m2[kt2].0 == t);
                assert(false);
            }
        }
    }
}

/// What ensuring a key does to every bucket: nothing, except that a missing
/// keyed bucket appears empty.
proof fn lemma_ensure_bucket<K>(m: Seq<(K, Seq<Seq<char>>)>, k: K, t: K)
    ensures
        assoc_has(ensure_key(m, k), t) == (assoc_has(m, t) || t == k),
        assoc_has(m, t) ==> assoc_get(ensure_key(m, k), t) == assoc_get(m, t),
        !assoc_has(m, k) && t == k ==> assoc_get(ensure_key(m, k), k) == Seq::<Seq<char>>::empty(),
        bkt_len(ensure_key(m, k), t) == bkt_len(m, t),
        forall|s: Seq<char>| bkt_count(ensure_key(m, k), t, s) == bkt_count(m, t, s),
{
    lemma_key_index(m, k);
    lemma_key_index(m, t);
    if !assoc_has(m, k) {
        let m2 = m.push((k, Seq::<Seq<char>>::empty()));
        assert(m2[m.len() as int] == (k, Seq::<Seq<char>>::empty()));
        assert(forall|i: int| 0 <= i < m.len() ==> m2[i] == m[i]);
        assert(assoc_has(m2, t) == (assoc_has(m, t) || t == k)) by {
            if assoc_has(m2, t) {
                let i = choose|i: int| 0 <= i < m2.len() && m2[i].0 == t;
                if i < m.len() {
                    assert(m[i].0 == t);
                }
            }
            if assoc_has(m, t) {
                let i = choose|i: int| 0 <= i < m.len() && m[i].0 == t;
                assert(m2[i].0 == t);
            }
        }
        lemma_key_index(m2, t);
        if t == k {
            let ki2 = key_index(m2, k);
            if assoc_has(m2, k) && ki2 < m.len() {
                assert(m[ki2].0 == k);
            }
            assert(ki2 == m.len());
        } else if assoc_has(m, t) {
            let kt = key_index(m, t);
            let kt2 = key_index(m2, t);
            assert(m2[kt].0 == t);
            assert(kt2 <= kt);
            if kt2 < kt {
                assert(m[kt2].0 != t);
                assert(m2[kt2].0 == t);
                assert(false);
            }
        }
        assert(forall|s: Seq<char>| count_of(Seq::<Seq<char>>::empty(), s) == 0);
    }
}

/// How often `s` declares an edge to `t` over the forward adjacency: its
/// occurrences in the target lists of entries keyed `s`.
pub open spec fn src_edge_count(
    adj: Seq<(Seq<char>, Seq<Seq<char>>)>,
    s: Seq<char>,
    t: Seq<char>,
) -> nat
    decreases adj.len(),
{
    if adj.len() == 0 {
        0nat
    } else {
        src_edge_count(adj.drop_last(), s, t) + (if adj.last().0 == s {
            count_of(adj.last().1, t)
        } else {
            0nat
        })
    }
}

/// How often `t` is a declared target over the whole forward adjacency.
pub open spec fn tgt_count(adj: Seq<(Seq<char>, Seq<Seq<char>>)>, t: Seq<char>) -> nat
    decreases adj.len(),
{
    if adj.len() == 0 {
        0nat
    } else {
        tgt_count(adj.drop_last(), t) + count_of(adj.last().1, t)
    }
}

proof fn lemma_add_targets_bucket(
    rev: Seq<(Seq<char>, Seq<Seq<char>>)>,
    src: Seq<char>,
    ts: Seq<Seq<char>>,
    t: Seq<char>,
    s: Seq<char>,
)
    ensures
        assoc_has(rev_add_targets(rev, src, ts), t) == (assoc_has(rev, t) || ts.contains(t)),
        bkt_count(rev_add_targets(rev, src, ts), t, s) == bkt_count(rev, t, s) + (if s == src {
            count_of(ts, t)
        } else {
            0nat
        }),
        bkt_len(rev_add_targets(rev, src, ts), t) == bkt_len(rev, t) + count_of(ts, t),
    decreases ts.len(),
{
    if ts.len() > 0 {
        let dl = ts.drop_last();
        let last = ts.last();
        lemma_add_targets_bucket(rev, src, dl, t, s);
        let r1 = rev_add_targets(rev, src, dl);
        lemma_upsert_bucket(r1, last, src, t);
        assert(ts =~= dl.push(last));
        lemma_push_contains(dl, last, t);
        if t == last {
            if assoc_has(r1, t) {
                lemma_count_push(assoc_get(r1, t), src, s);
            } else {
                assert(seq![src].drop_last() =~= Seq::<Seq<char>>::empty());
                assert(seq![src].len() == 1);
                assert(seq![src].last() == src);
                assert(count_of(Seq::<Seq<char>>::empty(), s) == 0);
                assert(count_of(seq![src], s) == (if src == s {
                    1nat
                } else {
                    0nat
                }));
            }
        }
    }
}

/// Which buckets the reverse adjacency holds, and what each holds: the
/// bucket of `t` lists, once per declared edge, every source that declares
/// an edge to `t`; and a bucket exists exactly for the keys and targets the
/// forward adjacency mentions.
pub proof fn lemma_reverse_bucket(adj: Seq<(Seq<char>, Seq<Seq<char>>)>, t: Seq<char>, s: Seq<char>)
    ensures
        assoc_has(reverse_of(adj), t) == (exists|i: int|
            0 <= i < adj.len() && (adj[i].0 == t || adj[i].1.contains(t))),
        bkt_count(reverse_of(adj), t, s) == src_edge_count(adj, s, t),
        bkt_len(reverse_of(adj), t) == tgt_count(adj, t),
    decreases adj.len(),
{
    if adj.len() == 0 {
    } else {
        let dl = adj.drop_last();
        let e = adj.last();
        lemma_reverse_bucket(dl, t, s);
        let r1 = reverse_of(dl);
        lemma_add_targets_bucket(r1, e.0, e.1, t, s);
        let r2 = rev_add_targets(r1, e.0, e.1);
        lemma_ensure_bucket(r2, e.0, t);
        assert(assoc_has(reverse_of(adj), t) == (exists|i: int|
            0 <= i < adj.len() && (adj[i].0 == t || adj[i].1.contains(t)))) by {
            if assoc_has(reverse_of(adj), t) {
                if assoc_has(r2, t) {
                    if assoc_has(r1, t) {
                        let i = choose|i: int|
                            0 <= i < dl.len() && (dl[i].0 == t || dl[i].1.contains(t));
                        assert(adj[i].0 == t || adj[i].1.contains(t));
                    } else {
                        assert(e.1.contains(t));
                        assert(adj[adj.len() - 1].1.contains(t));
                    }
                } else {
                    assert(t == e.0);
                    assert(adj[adj.len() - 1].0 == t);
                }
            }
            if exists|i: int| 0 <= i < adj.len() && (adj[i].0 == t || adj[i].1.contains(t)) {
                let i = choose|i: int|
                    0 <= i < adj.len() && (adj[i].0 == t || adj[i].1.contains(t));
                if i < adj.len() - 1 {
                    assert(dl[i].0 == t || dl[i].1.contains(t));
                    assert(assoc_has(r1, t));
                } else {
                    assert(e.0 == t || e.1.contains(t));
                }
            }
        }
    }
}

/// How often an id stands in the kind bucket of `k`, summed over the table:
/// once per entry with that id whose node resolves to `k`.
pub open spec fn kind_count(table: Seq<(Seq<char>, NodeV)>, k: NodeKind, id: Seq<char>) -> nat
    decreases table.len(),
{
    if table.len() == 0 {
        0nat
    } else {
        kind_count(table.drop_last(), k, id) + (if node_kind_of(table.last().1) == k
            && table.last().0 == id {
            1nat
        } else {
            0nat
        })
    }
}

/// Which buckets the kind index holds, and what each holds: the bucket of
/// `k` lists, once per entry, every id whose node resolves to `k`.
pub proof fn lemma_kinds_bucket(table: Seq<(Seq<char>, NodeV)>, k: NodeKind, id: Seq<char>)
    ensures
        assoc_has(kinds_of(table), k) == (exists|i: int|
            0 <= i < table.len() && node_kind_of(table[i].1) == k),
        bkt_count(kinds_of(table), k, id) == kind_count(table, k, id),
    decreases table.len(),
{
    if table.len() == 0 {
    } else {
        let dl = table.drop_last();
        let e = table.last();
        lemma_kinds_bucket(dl, k, id);
        let k1 = kinds_of(dl);
        lemma_upsert_bucket(k1, node_kind_of(e.1), e.0, k);
        assert(assoc_has(kinds_of(table), k) == (exists|i: int|
            0 <= i < table.len() && node_kind_of(table[i].1) == k)) by {
            if assoc_has(kinds_of(table), k) {
                if assoc_has(k1, k) {
                    let i = choose|i: int| 0 <= i < dl.len() && node_kind_of(dl[i].1) == k;
                    assert(node_kind_of(table[i].1) == k);
                } else {
                    assert(node_kind_of(table[table.len() - 1].1) == k);
                }
            }
            if exists|i: int| 0 <= i < table.len() && node_kind_of(table[i].1) == k {
                let i = choose|i: int| 0 <= i < table.len() && node_kind_of(table[i].1) == k;
                if i < table.len() - 1 {
                    assert(node_kind_of(dl[i].1) == k);
                    assert(assoc_has(k1, k));
                }
            }
        }
        if k == node_kind_of(e.1) {
            if assoc_has(k1, k) {
                lemma_count_push(assoc_get(k1, k), e.0, id);
            } else {
                assert(seq![e.0].drop_last() =~= Seq::<Seq<char>>::empty());
                assert(seq![e.0].len() == 1);
                assert(seq![e.0].last() == e.0);
                assert(count_of(Seq::<Seq<char>>::empty(), id) == 0);
                assert(count_of(seq![e.0], id) == (if e.0 == id {
                    1nat
                } else {
                    0nat
                }));
            }
        }
    }
}

/// In an association without repeated keys, an entry's index is where a
/// lookup of its key lands.
pub proof fn lemma_distinct_key_at<K, V>(m: Seq<(K, V)>, i: int)
    requires
        distinct_keys(m),
        0 <= i < m.len(),
    ensures
        assoc_has(m, m[i].0),
        key_index(m, m[i].0) == i,
        assoc_get(m, m[i].0) == m[i].1,
{
    assert(assoc_has(m, m[i].0));
    lemma_key_index(m, m[i].0);
    let ki = key_index(m, m[i].0);
    assert(ki <= i);
    if ki < i {
        assert(m[ki].0 == m[i].0);
        assert(false);
    }
}

/// The forward adjacency has the table's keys, in the table's order.
pub proof fn lemma_adjacency_keys(table: Seq<(Seq<char>, NodeV)>, k: Seq<char>)
    ensures
        adjacency_of(table).len() == table.len(),
        forall|i: int| 0 <= i < table.len() ==> #[trigger] adjacency_of(table)[i].0 == table[i].0,
        forall|i: int|
            0 <= i < table.len() ==> #[trigger] adjacency_of(table)[i].1 == dedup(
                table[i].1.links,
            ),
        assoc_has(adjacency_of(table), k) == assoc_has(table, k),
        key_index(adjacency_of(table), k) == key_index(table, k),
        distinct_keys(table) ==> distinct_keys(adjacency_of(table)),
{
    lemma_key_index_same_keys(table, adjacency_of(table), k);
}

/// When no entry repeats a key, the edges declared by `s` toward `t` are
/// exactly those in its own bucket.
proof fn lemma_src_edge_count_unique(adj: Seq<(Seq<char>, Seq<Seq<char>>)>, s: Seq<char>, t: Seq<char>)
    requires
        distinct_keys(adj),
    ensures
        assoc_has(adj, s) ==> src_edge_count(adj, s, t) == count_of(assoc_get(adj, s), t),
        !assoc_has(adj, s) ==> src_edge_count(adj, s, t) == 0,
    decreases adj.len(),
{
    if adj.len() > 0 {
        let dl = adj.drop_last();
        let e = adj.last();
        assert(distinct_keys(dl));
        lemma_src_edge_count_unique(dl, s, t);
        if e.0 == s {
            assert(!assoc_has(dl, s)) by {
                if assoc_has(dl, s) {
                    let i = choose|i: int| 0 <= i < dl.len() && dl[i].0 == s;
                    assert(adj[i].0 == s && adj[adj.len() - 1].0 == s);
                }
            }
            lemma_distinct_key_at(adj, adj.len() - 1);
        } else {
            if assoc_has(dl, s) {
                let i = choose|i: int| 0 <= i < dl.len() && dl[i].0 == s;
                lemma_distinct_key_at(dl, i);
                lemma_distinct_key_at(adj, i);
            } else {
                assert(!assoc_has(adj, s)) by {
                    if assoc_has(adj, s) {
                        let i = choose|i: int| 0 <= i < adj.len() && adj[i].0 == s;
                        assert(dl[i].0 == s);
                    }
                }
            }
        }
    }
}

/// A target no list declares has no incoming edges at all.
proof fn lemma_tgt_count_zero(adj: Seq<(Seq<char>, Seq<Seq<char>>)>, t: Seq<char>)
    requires
        forall|i: int| 0 <= i < adj.len() ==> !(#[trigger] adj[i].1).contains(t),
    ensures
        tgt_count(adj, t) == 0,
    decreases adj.len(),
{
    if adj.len() > 0 {
        lemma_tgt_count_zero(adj.drop_last(), t);
        lemma_count_contains(adj.last().1, t);
        assert(adj[adj.len() - 1].1 == adj.last().1);
    }
}

/// Counting over a sequence whose every element satisfies the predicate.
proof fn lemma_count_where_all<A>(s: Seq<A>, p: spec_fn(A) -> bool)
    requires
        forall|i: int| 0 <= i < s.len() ==> p(s[i]),
    ensures
        count_where(s, p) == s.len(),
    decreases s.len(),
{
    if s.len() > 0 {
        lemma_count_where_all(s.drop_last(), p);
    }
}

/// Counting over a singleton.
proof fn lemma_count_where_singleton<A>(x: A, p: spec_fn(A) -> bool)
    ensures
        count_where(seq![x], p) == (if p(x) {
            1nat
        } else {
            0nat
        }),
{
    assert(seq![x].drop_last() =~= Seq::<A>::empty());
    assert(seq![x].last() == x);
    assert(count_where(Seq::<A>::empty(), p) == 0);
}

/// Forward and reverse adjacency share identical key sets whenever every
/// declared link target is itself a node of the table. (A target that
/// resolves to no node gains a reverse bucket without a forward entry, and
/// the build reports it as a broken link.)
pub proof fn lemma_forward_reverse_same_keys(table: Seq<(Seq<char>, NodeV)>)
    requires
        forall|i: int, j: int|
            0 <= i < table.len() && 0 <= j < table[i].1.links.len() ==> assoc_has(
                table,
                #[trigger] table[i].1.links[j],
            ),
    ensures
        forall|k: Seq<char>|
            assoc_has(adjacency_of(table), k) == assoc_has(reverse_of(adjacency_of(table)), k),
{
    let adj = adjacency_of(table);
    assert forall|k: Seq<char>| assoc_has(adj, k) == assoc_has(reverse_of(adj), k) by {
        lemma_reverse_bucket(adj, k, k);
        lemma_adjacency_keys(table, k);
        if assoc_has(adj, k) {
            let i = choose|i: int| 0 <= i < adj.len() && adj[i].0 == k;
            assert(adj[i].0 == k || adj[i].1.contains(k));
        }
        if assoc_has(reverse_of(adj), k) {
            let i = choose|i: int| 0 <= i < adj.len() && (adj[i].0 == k || adj[i].1.contains(k));
            if adj[i].1.contains(k) {
                lemma_dedup_contains(table[i].1.links, k);
                let j = choose|j: int| 0 <= j < table[i].1.links.len() && table[i].1.links[j] == k;
                assert(assoc_has(table, table[i].1.links[j]));
            } else {
                assert(assoc_has(adj, k));
            }
        }
    }
}

/// Every recorded forward edge s→t is reflected exactly once: the reverse
/// bucket of t lists s exactly one time.
pub proof fn lemma_edge_reflected_once(table: Seq<(Seq<char>, NodeV)>, s: Seq<char>, t: Seq<char>)
    requires
        distinct_keys(table),
        assoc_has(adjacency_of(table), s),
        assoc_get(adjacency_of(table), s).contains(t),
    ensures
        assoc_has(reverse_of(adjacency_of(table)), t),
        count_of(assoc_get(reverse_of(adjacency_of(table)), t), s) == 1,
{
    let adj = adjacency_of(table);
    lemma_adjacency_keys(table, s);
    assert(distinct_keys(adj));
    lemma_reverse_bucket(adj, t, s);
    lemma_src_edge_count_unique(adj, s, t);
    lemma_key_index(table, s);
    let ki = key_index(table, s);
    assert(adj[ki] == (table[ki].0, dedup(table[ki].1.links)));
    assert(assoc_get(adj, s) == dedup(table[ki].1.links));
    lemma_dedup_count(table[ki].1.links, t);
    lemma_dedup_contains(table[ki].1.links, t);
    assert(count_of(assoc_get(adj, s), t) == 1);
    assert(bkt_count(reverse_of(adj), t, s) == 1);
    assert(assoc_has(reverse_of(adj), t));
}

/// A node that links to a nonexistent id keeps the broken edge in its
/// forward adjacency, and the build reports at least one broken-link error
/// whose subject is the missing target.
pub proof fn lemma_broken_link_reported(table: Seq<(Seq<char>, NodeV)>, s: Seq<char>, t: Seq<char>)
    requires
        distinct_keys(table),
        assoc_has(table, s),
        assoc_get(table, s).links.contains(t),
        !assoc_has(table, t),
    ensures
        assoc_get(adjacency_of(table), s).contains(t),
        construction_issues(table).contains(broken_error(t, DETAIL_NOT_IN_FORWARD@)),
{
    let adj = adjacency_of(table);
    let rev = reverse_of(adj);
    lemma_adjacency_keys(table, s);
    lemma_adjacency_keys(table, t);
    lemma_key_index(table, s);
    let ki = key_index(table, s);
    assert(assoc_get(adj, s) == dedup(table[ki].1.links));
    lemma_dedup_contains(table[ki].1.links, t);
    assert(assoc_get(adj, s).contains(t));
    lemma_reverse_bucket(adj, t, t);
    assert(assoc_has(rev, t)) by {
        assert(adj[ki].0 == t || adj[ki].1.contains(t));
    }
    let rj = choose|j: int| 0 <= j < rev.len() && rev[j].0 == t;
    lemma_reverse_presence_hit(adj, rev, rj);
    let issue = broken_error(t, DETAIL_NOT_IN_FORWARD@);
    let part = reverse_presence_issues(adj, rev);
    let pi = choose|i: int| 0 <= i < part.len() && part[i] == issue;
    let all = construction_issues(table);
    let pre = dup_link_issues(table) + forward_presence_issues(adj, rev);
    assert(all =~= pre + part + edge_issues(adj, rev) + kind_index_issues(table, kinds_of(table))
        + dangling_issues(adj, rev, table));
    assert(all[pre.len() + pi] == issue);
}

/// A reverse key without a forward entry is reported as missing from the
/// forward adjacency.
proof fn lemma_reverse_presence_hit(
    adj: Seq<(Seq<char>, Seq<Seq<char>>)>,
    rev: Seq<(Seq<char>, Seq<Seq<char>>)>,
    j: int,
)
    requires
        0 <= j < rev.len(),
        !assoc_has(adj, rev[j].0),
    ensures
        reverse_presence_issues(adj, rev).contains(broken_error(rev[j].0, DETAIL_NOT_IN_FORWARD@)),
    decreases rev.len(),
{
    let issue = broken_error(rev[j].0, DETAIL_NOT_IN_FORWARD@);
    if j == rev.len() - 1 {
        let part = reverse_presence_issues(adj, rev);
        assert(rev.last() == rev[j]);
        assert(part[part.len() - 1] == issue);
    } else {
        assert(rev.drop_last()[j] == rev[j]);
        lemma_reverse_presence_hit(adj, rev.drop_last(), j);
        let pre = reverse_presence_issues(adj, rev.drop_last());
        let pi = choose|i: int| 0 <= i < pre.len() && pre[i] == issue;
        assert(reverse_presence_issues(adj, rev)[pi] == issue);
    }
}

/// A duplicate-link warning about `s`.
pub open spec fn is_dup_link_for(s: Seq<char>) -> spec_fn(IssueV) -> bool {
    |iv: IssueV| iv.code == IssueCode::DuplicateLink && iv.subject == s
}

/// A dangling-node finding about `s`.
pub open spec fn is_dangling_for(s: Seq<char>) -> spec_fn(IssueV) -> bool {
    |iv: IssueV| iv.code == IssueCode::DandlingNode && iv.subject == s
}

proof fn lemma_dup_issues_of_shape(src: Seq<char>, links: Seq<Seq<char>>)
    ensures
        dup_link_issues_of(src, links).len() + dedup(links).len() == links.len(),
        forall|i: int|
            0 <= i < dup_link_issues_of(src, links).len() ==> dup_link_issues_of(src, links)[i]
                == dup_link_warning(src),
    decreases links.len(),
{
    if links.len() > 0 {
        lemma_dup_issues_of_shape(src, links.drop_last());
        lemma_dedup_contains(links.drop_last(), links.last());
    }
}

proof fn lemma_dup_issues_count(table: Seq<(Seq<char>, NodeV)>, s: Seq<char>)
    requires
        distinct_keys(table),
    ensures
        assoc_has(table, s) ==> count_where(dup_link_issues(table), is_dup_link_for(s)) + dedup(
            assoc_get(table, s).links,
        ).len() == assoc_get(table, s).links.len(),
        !assoc_has(table, s) ==> count_where(dup_link_issues(table), is_dup_link_for(s)) == 0,
    decreases table.len(),
{
    let p = is_dup_link_for(s);
    if table.len() > 0 {
        let dl = table.drop_last();
        let e = table.last();
        assert(distinct_keys(dl));
        lemma_dup_issues_count(dl, s);
        lemma_dup_issues_of_shape(e.0, e.1.links);
        let own = dup_link_issues_of(e.0, e.1.links);
        lemma_count_where_concat(dup_link_issues(dl), own, p);
        if e.0 == s {
            assert(!assoc_has(dl, s)) by {
                if assoc_has(dl, s) {
                    let i = choose|i: int| 0 <= i < dl.len() && dl[i].0 == s;
                    assert(table[i].0 == s && table[table.len() - 1].0 == s);
                }
            }
            lemma_distinct_key_at(table, table.len() - 1);
            lemma_count_where_all(own, p);
        } else {
            lemma_count_where_zero(own, p);
            if assoc_has(dl, s) {
                let i = choose|i: int| 0 <= i < dl.len() && dl[i].0 == s;
                lemma_distinct_key_at(dl, i);
                lemma_distinct_key_at(table, i);
            } else {
                assert(!assoc_has(table, s)) by {
                    if assoc_has(table, s) {
                        let i = choose|i: int| 0 <= i < table.len() && table[i].0 == s;
                        assert(dl[i].0 == s);
                    }
                }
            }
        }
    }
}

proof fn lemma_forward_presence_codes(
    adj: Seq<(Seq<char>, Seq<Seq<char>>)>,
    rev: Seq<(Seq<char>, Seq<Seq<char>>)>,
)
    ensures
        forall|i: int|
            0 <= i < forward_presence_issues(adj, rev).len() ==> (
            #[trigger] forward_presence_issues(adj, rev)[i]).code == IssueCode::BrokenLink,
    decreases adj.len(),
{
    if adj.len() > 0 {
        lemma_forward_presence_codes(adj.drop_last(), rev);
    }
}

proof fn lemma_reverse_presence_codes(
    adj: Seq<(Seq<char>, Seq<Seq<char>>)>,
    rev: Seq<(Seq<char>, Seq<Seq<char>>)>,
)
    ensures
        forall|i: int|
            0 <= i < reverse_presence_issues(adj, rev).len() ==> (
            #[trigger] reverse_presence_issues(adj, rev)[i]).code == IssueCode::BrokenLink,
    decreases rev.len(),
{
    if rev.len() > 0 {
        lemma_reverse_presence_codes(adj, rev.drop_last());
    }
}

proof fn lemma_edge_issues_of_codes(
    src: Seq<char>,
    targets: Seq<Seq<char>>,
    rev: Seq<(Seq<char>, Seq<Seq<char>>)>,
)
    ensures
        forall|i: int|
            0 <= i < edge_issues_of(src, targets, rev).len() ==> ((
            #[trigger] edge_issues_of(src, targets, rev)[i]).code == IssueCode::BrokenLink || edge_issues_of(
                src,
                targets,
                rev,
            )[i].code == IssueCode::DuplicateLink),
        (forall|j: int| 0 <= j < targets.len() ==> bkt_count(rev, #[trigger] targets[j], src) <= 1)
            ==> forall|i: int|
            0 <= i < edge_issues_of(src, targets, rev).len() ==> (
            #[trigger] edge_issues_of(src, targets, rev)[i]).code == IssueCode::BrokenLink,
    decreases targets.len(),
{
    if targets.len() > 0 {
        lemma_edge_issues_of_codes(src, targets.drop_last(), rev);
        assert(forall|j: int|
            0 <= j < targets.drop_last().len() ==> targets.drop_last()[j] == targets[j]);
        assert(targets[targets.len() - 1] == targets.last());
    }
}

proof fn lemma_edge_issues_codes(
    adj: Seq<(Seq<char>, Seq<Seq<char>>)>,
    rev: Seq<(Seq<char>, Seq<Seq<char>>)>,
)
    ensures
        forall|i: int|
            0 <= i < edge_issues(adj, rev).len() ==> ((#[trigger] edge_issues(adj, rev)[i]).code
                == IssueCode::BrokenLink || edge_issues(adj, rev)[i].code
                == IssueCode::DuplicateLink),
        (forall|i: int, j: int|
            0 <= i < adj.len() && 0 <= j < adj[i].1.len() ==> bkt_count(
                rev,
                #[trigger] adj[i].1[j],
                adj[i].0,
            ) <= 1) ==> forall|i: int|
            0 <= i < edge_issues(adj, rev).len() ==> (#[trigger] edge_issues(adj, rev)[i]).code
                == IssueCode::BrokenLink,
    decreases adj.len(),
{
    if adj.len() > 0 {
        lemma_edge_issues_codes(adj.drop_last(), rev);
        lemma_edge_issues_of_codes(adj.last().0, adj.last().1, rev);
        assert(forall|i: int|
            0 <= i < adj.drop_last().len() ==> adj.drop_last()[i] == adj[i]);
        assert(adj[adj.len() - 1] == adj.last());
    }
}

proof fn lemma_kind_issues_codes(
    table: Seq<(Seq<char>, NodeV)>,
    kinds: Seq<(NodeKind, Seq<Seq<char>>)>,
)
    ensures
        forall|i: int|
            0 <= i < kind_index_issues(table, kinds).len() ==> ((
            #[trigger] kind_index_issues(table, kinds)[i]).code == IssueCode::BrokenLink
                || kind_index_issues(table, kinds)[i].code == IssueCode::DuplicateLink),
        (forall|i: int|
            0 <= i < table.len() ==> bkt_count(
                kinds,
                node_kind_of(#[trigger] table[i].1),
                table[i].0,
            ) <= 1) ==> forall|i: int|
            0 <= i < kind_index_issues(table, kinds).len() ==> (
            #[trigger] kind_index_issues(table, kinds)[i]).code == IssueCode::BrokenLink,
    decreases table.len(),
{
    if table.len() > 0 {
        lemma_kind_issues_codes(table.drop_last(), kinds);
        assert(forall|i: int|
            0 <= i < table.drop_last().len() ==> table.drop_last()[i] == table[i]);
        assert(table[table.len() - 1] == table.last());
    }
}

proof fn lemma_dangling_entry_shape(
    e: (Seq<char>, Seq<Seq<char>>),
    rev: Seq<(Seq<char>, Seq<Seq<char>>)>,
    table: Seq<(Seq<char>, NodeV)>,
)
    ensures
        dangling_entry_issues(e, rev, table) == Seq::<IssueV>::empty() || dangling_entry_issues(
            e,
            rev,
            table,
        ) == seq![
            issue_v(
                Severity::Suggestion,
                IssueCode::DandlingNode,
                e.0,
                super::graph::DETAIL_DANGLING@,
            ),
        ],
{
}

proof fn lemma_dangling_count_key(
    adj: Seq<(Seq<char>, Seq<Seq<char>>)>,
    rev: Seq<(Seq<char>, Seq<Seq<char>>)>,
    table: Seq<(Seq<char>, NodeV)>,
    s: Seq<char>,
)
    requires
        distinct_keys(adj),
    ensures
        count_where(dangling_issues(adj, rev, table), is_dangling_for(s)) == (if assoc_has(
            adj,
            s,
        ) {
            count_where(
                dangling_entry_issues(adj[key_index(adj, s)], rev, table),
                is_dangling_for(s),
            )
        } else {
            0nat
        }),
    decreases adj.len(),
{
    let p = is_dangling_for(s);
    if adj.len() > 0 {
        let dl = adj.drop_last();
        let e = adj.last();
        assert(distinct_keys(dl));
        lemma_dangling_count_key(dl, rev, table, s);
        lemma_dangling_entry_shape(e, rev, table);
        let own = dangling_entry_issues(e, rev, table);
        lemma_count_where_concat(dangling_issues(dl, rev, table), own, p);
        if own.len() > 0 {
            lemma_count_where_singleton(own[0], p);
            assert(own =~= seq![own[0]]);
        } else {
            assert(own =~= Seq::<IssueV>::empty());
        }
        if e.0 == s {
            assert(!assoc_has(dl, s)) by {
                if assoc_has(dl, s) {
                    let i = choose|i: int| 0 <= i < dl.len() && dl[i].0 == s;
                    assert(adj[i].0 == s && adj[adj.len() - 1].0 == s);
                }
            }
            lemma_distinct_key_at(adj, adj.len() - 1);
        } else {
            assert(count_where(own, p) == 0);
            if assoc_has(dl, s) {
                let i = choose|i: int| 0 <= i < dl.len() && dl[i].0 == s;
                lemma_distinct_key_at(dl, i);
                lemma_distinct_key_at(adj, i);
            } else {
                assert(!assoc_has(adj, s)) by {
                    if assoc_has(adj, s) {
                        let i = choose|i: int| 0 <= i < adj.len() && adj[i].0 == s;
                        assert(dl[i].0 == s);
                    }
                }
            }
        }
    }
}

/// Every adjacency bucket is free of duplicates: deduplication leaves each
/// target at most once per source.
pub proof fn lemma_adjacency_buckets_distinct(table: Seq<(Seq<char>, NodeV)>, i: int)
    requires
        0 <= i < table.len(),
    ensures
        adjacency_of(table)[i].1.no_duplicates(),
{
    super::assoc::lemma_dedup_no_duplicates(table[i].1.links);
}

/// Every node stands exactly once in the kind bucket of its resolved kind.
pub proof fn lemma_kind_bucket_exactly_once(table: Seq<(Seq<char>, NodeV)>, i: int)
    requires
        distinct_keys(table),
        0 <= i < table.len(),
    ensures
        assoc_has(kinds_of(table), node_kind_of(table[i].1)),
        count_of(assoc_get(kinds_of(table), node_kind_of(table[i].1)), table[i].0) == 1,
{
    let k = node_kind_of(table[i].1);
    let id = table[i].0;
    lemma_kinds_bucket(table, k, id);
    lemma_kind_count_le_one(table, k, id);
    lemma_kind_count_positive(table, k, id, i);
    assert(bkt_count(kinds_of(table), k, id) == 1);
    assert(assoc_has(kinds_of(table), k)) by {
        assert(node_kind_of(table[i].1) == k);
    }
}

proof fn lemma_kind_count_positive(table: Seq<(Seq<char>, NodeV)>, k: NodeKind, id: Seq<char>, i: int)
    requires
        0 <= i < table.len(),
        table[i].0 == id,
        node_kind_of(table[i].1) == k,
    ensures
        kind_count(table, k, id) >= 1,
    decreases table.len(),
{
    if i < table.len() - 1 {
        assert(table.drop_last()[i] == table[i]);
        lemma_kind_count_positive(table.drop_last(), k, id, i);
    }
}

proof fn lemma_kind_count_le_one(table: Seq<(Seq<char>, NodeV)>, k: NodeKind, id: Seq<char>)
    requires
        distinct_keys(table),
    ensures
        kind_count(table, k, id) <= 1,
        !assoc_has(table, id) ==> kind_count(table, k, id) == 0,
    decreases table.len(),
{
    if table.len() > 0 {
        let dl = table.drop_last();
        let e = table.last();
        assert(distinct_keys(dl));
        lemma_kind_count_le_one(dl, k, id);
        if e.0 == id {
            assert(!assoc_has(dl, id)) by {
                if assoc_has(dl, id) {
                    let i = choose|i: int| 0 <= i < dl.len() && dl[i].0 == id;
                    assert(table[i].0 == id && table[table.len() - 1].0 == id);
                }
            }
            assert(assoc_has(table, id)) by {
                assert(table[table.len() - 1].0 == id);
            }
        } else {
            if !assoc_has(table, id) {
                assert(!assoc_has(dl, id)) by {
                    if assoc_has(dl, id) {
                        let i = choose|i: int| 0 <= i < dl.len() && dl[i].0 == id;
                        assert(table[i].0 == id);
                    }
                }
            } else {
                if assoc_has(dl, id) {
                } else {
                    let i = choose|i: int| 0 <= i < table.len() && table[i].0 == id;
                    assert(dl[i].0 == id);
                }
            }
        }
    }
}

/// All reverse buckets of a deduplicated adjacency with distinct keys list
/// each source at most once.
proof fn lemma_rev_counts_bounded(table: Seq<(Seq<char>, NodeV)>)
    requires
        distinct_keys(table),
    ensures
        forall|i: int, j: int|
            0 <= i < adjacency_of(table).len() && 0 <= j < adjacency_of(table)[i].1.len()
                ==> bkt_count(
                reverse_of(adjacency_of(table)),
                #[trigger] adjacency_of(table)[i].1[j],
                adjacency_of(table)[i].0,
            ) <= 1,
{
    let adj = adjacency_of(table);
    assert forall|i: int, j: int|
        0 <= i < adj.len() && 0 <= j < adj[i].1.len() implies bkt_count(
        reverse_of(adj),
        #[trigger] adj[i].1[j],
        adj[i].0,
    ) <= 1 by {
        let src = adj[i].0;
        let tgt = adj[i].1[j];
        lemma_adjacency_keys(table, src);
        assert(distinct_keys(adj));
        lemma_reverse_bucket(adj, tgt, src);
        lemma_src_edge_count_unique(adj, src, tgt);
        lemma_distinct_key_at(adj, i);
        lemma_dedup_count(table[i].1.links, tgt);
        assert(adj[i].1 == dedup(table[i].1.links));
    }
}

/// A node that declares the same forward target twice, and no other target
/// more than once, keeps exactly one edge to it and draws exactly one
/// duplicate-link warning.
pub proof fn lemma_duplicate_link_once(table: Seq<(Seq<char>, NodeV)>, s: Seq<char>, t: Seq<char>)
    requires
        distinct_keys(table),
        assoc_has(table, s),
        count_of(assoc_get(table, s).links, t) == 2,
        assoc_get(table, s).links.len() == dedup(assoc_get(table, s).links).len() + 1,
    ensures
        count_of(assoc_get(adjacency_of(table), s), t) == 1,
        count_where(construction_issues(table), is_dup_link_for(s)) == 1,
{
    let adj = adjacency_of(table);
    let rev = reverse_of(adj);
    let kinds = kinds_of(table);
    let p = is_dup_link_for(s);
    let links = assoc_get(table, s).links;
    lemma_adjacency_keys(table, s);
    lemma_key_index(table, s);
    let ki = key_index(table, s);
    assert(assoc_get(adj, s) == dedup(table[ki].1.links));
    lemma_dedup_count(links, t);
    lemma_count_contains(links, t);
    assert(count_of(assoc_get(adj, s), t) == 1);
    // the whole issue list, split into its four parts
    let part_dup = dup_link_issues(table);
    let part_fwd = forward_presence_issues(adj, rev);
    let part_rev = reverse_presence_issues(adj, rev);
    let part_edges = edge_issues(adj, rev);
    let part_kinds = kind_index_issues(table, kinds);
    let part_dangling = dangling_issues(adj, rev, table);
    lemma_count_where_concat(part_fwd, part_rev, p);
    lemma_count_where_concat(part_fwd + part_rev, part_edges, p);
    lemma_count_where_concat(part_dup, part_fwd + part_rev + part_edges, p);
    lemma_count_where_concat(part_dup + (part_fwd + part_rev + part_edges), part_kinds, p);
    lemma_count_where_concat(
        part_dup + (part_fwd + part_rev + part_edges) + part_kinds,
        part_dangling,
        p,
    );
    lemma_dup_issues_count(table, s);
    assert(count_where(part_dup, p) == 1);
    lemma_forward_presence_codes(adj, rev);
    lemma_count_where_zero(part_fwd, p);
    lemma_reverse_presence_codes(adj, rev);
    lemma_count_where_zero(part_rev, p);
    lemma_rev_counts_bounded(table);
    lemma_edge_issues_codes(adj, rev);
    lemma_count_where_zero(part_edges, p);
    assert forall|i: int|
        0 <= i < table.len() implies bkt_count(
        kinds,
        node_kind_of(#[trigger] table[i].1),
        table[i].0,
    ) <= 1 by {
        lemma_kinds_bucket(table, node_kind_of(table[i].1), table[i].0);
        lemma_kind_count_le_one(table, node_kind_of(table[i].1), table[i].0);
    }
    lemma_kind_issues_codes(table, kinds);
    lemma_count_where_zero(part_kinds, p);
    assert forall|i: int| 0 <= i < part_dangling.len() implies !p(part_dangling[i]) by {
        lemma_dangling_codes_at(adj, rev, table, i);
    }
    lemma_count_where_zero(part_dangling, p);
}

proof fn lemma_dangling_codes_at(
    adj: Seq<(Seq<char>, Seq<Seq<char>>)>,
    rev: Seq<(Seq<char>, Seq<Seq<char>>)>,
    table: Seq<(Seq<char>, NodeV)>,
    i: int,
)
    requires
        0 <= i < dangling_issues(adj, rev, table).len(),
    ensures
        dangling_issues(adj, rev, table)[i].code == IssueCode::DandlingNode,
        dangling_issues(adj, rev, table)[i].severity == Severity::Suggestion,
    decreases adj.len(),
{
    if adj.len() > 0 {
        let pre = dangling_issues(adj.drop_last(), rev, table);
        if i < pre.len() {
            lemma_dangling_codes_at(adj.drop_last(), rev, table, i);
        } else {
            lemma_dangling_entry_shape(adj.last(), rev, table);
        }
    }
}

/// A node with no forward and no reverse links whose kind is not exempt
/// draws exactly one dangling-node suggestion.
pub proof fn lemma_dangling_reported(table: Seq<(Seq<char>, NodeV)>, s: Seq<char>)
    requires
        distinct_keys(table),
        assoc_has(table, s),
        assoc_get(table, s).links.len() == 0,
        forall|i: int| 0 <= i < table.len() ==> !(#[trigger] table[i].1).links.contains(s),
        !super::graph::dangling_exempt(node_kind_of(assoc_get(table, s))),
    ensures
        count_where(construction_issues(table), is_dangling_for(s)) == 1,
{
    lemma_dangling_count(table, s);
    let adj = adjacency_of(table);
    let rev = reverse_of(adj);
    lemma_adjacency_keys(table, s);
    lemma_key_index(table, s);
    let ki = key_index(table, s);
    assert(distinct_keys(adj));
    lemma_distinct_key_at(adj, ki);
    let e = adj[ki];
    assert(e.0 == s);
    assert(e.1 == dedup(table[ki].1.links));
    assert(table[ki].1 == assoc_get(table, s));
    assert(table[ki].1.links =~= Seq::<Seq<char>>::empty());
    assert(e.1.len() == 0);
    lemma_reverse_bucket(adj, s, s);
    assert(assoc_has(rev, s)) by {
        assert(adj[ki].0 == s || adj[ki].1.contains(s));
    }
    assert forall|i: int| 0 <= i < adj.len() implies !(#[trigger] adj[i].1).contains(s) by {
        assert(adj[i].1 == dedup(table[i].1.links));
        lemma_dedup_contains(table[i].1.links, s);
    }
    lemma_tgt_count_zero(adj, s);
    assert(assoc_get(rev, s).len() == 0);
    let own = dangling_entry_issues(e, rev, table);
    let issue = issue_v(
        Severity::Suggestion,
        IssueCode::DandlingNode,
        s,
        super::graph::DETAIL_DANGLING@,
    );
    assert(own == seq![issue]);
    lemma_dangling_count_key(adj, rev, table, s);
    lemma_count_where_singleton(issue, is_dangling_for(s));
}

/// A node of an exempt kind never draws a dangling-node suggestion, however
/// isolated it stands.
pub proof fn lemma_dangling_exempt_quiet(table: Seq<(Seq<char>, NodeV)>, s: Seq<char>)
    requires
        distinct_keys(table),
        assoc_has(table, s),
        super::graph::dangling_exempt(node_kind_of(assoc_get(table, s))),
    ensures
        count_where(construction_issues(table), is_dangling_for(s)) == 0,
{
    lemma_dangling_count(table, s);
    let adj = adjacency_of(table);
    let rev = reverse_of(adj);
    lemma_adjacency_keys(table, s);
    lemma_key_index(table, s);
    let ki = key_index(table, s);
    assert(distinct_keys(adj));
    lemma_distinct_key_at(adj, ki);
    let e = adj[ki];
    assert(e.0 == s);
    assert(dangling_entry_issues(e, rev, table) == Seq::<IssueV>::empty());
    lemma_dangling_count_key(adj, rev, table, s);
    assert(count_where(Seq::<IssueV>::empty(), is_dangling_for(s)) == 0);
}

/// Only the dangling check speaks of dangling nodes: the other three issue
/// groups never carry that code.
proof fn lemma_dangling_count(table: Seq<(Seq<char>, NodeV)>, s: Seq<char>)
    ensures
        count_where(construction_issues(table), is_dangling_for(s)) == count_where(
            dangling_issues(
                adjacency_of(table),
                reverse_of(adjacency_of(table)),
                table,
            ),
            is_dangling_for(s),
        ),
{
    let adj = adjacency_of(table);
    let rev = reverse_of(adj);
    let kinds = kinds_of(table);
    let p = is_dangling_for(s);
    let part_dup = dup_link_issues(table);
    let part_fwd = forward_presence_issues(adj, rev);
    let part_rev = reverse_presence_issues(adj, rev);
    let part_edges = edge_issues(adj, rev);
    let part_kinds = kind_index_issues(table, kinds);
    let part_dangling = dangling_issues(adj, rev, table);
    lemma_count_where_concat(part_fwd, part_rev, p);
    lemma_count_where_concat(part_fwd + part_rev, part_edges, p);
    lemma_count_where_concat(part_dup, part_fwd + part_rev + part_edges, p);
    lemma_count_where_concat(part_dup + (part_fwd + part_rev + part_edges), part_kinds, p);
    lemma_count_where_concat(
        part_dup + (part_fwd + part_rev + part_edges) + part_kinds,
        part_dangling,
        p,
    );
    assert forall|i: int| 0 <= i < part_dup.len() implies !p(part_dup[i]) by {
        lemma_dup_codes_at(table, i);
    }
    lemma_count_where_zero(part_dup, p);
    lemma_forward_presence_codes(adj, rev);
    lemma_count_where_zero(part_fwd, p);
    lemma_reverse_presence_codes(adj, rev);
    lemma_count_where_zero(part_rev, p);
    lemma_edge_issues_codes(adj, rev);
    lemma_count_where_zero(part_edges, p);
    lemma_kind_issues_codes(table, kinds);
    lemma_count_where_zero(part_kinds, p);
}

proof fn lemma_dup_codes_at(table: Seq<(Seq<char>, NodeV)>, i: int)
    requires
        0 <= i < dup_link_issues(table).len(),
    ensures
        dup_link_issues(table)[i].code == IssueCode::DuplicateLink,
    decreases table.len(),
{
    if table.len() > 0 {
        let pre = dup_link_issues(table.drop_last());
        if i < pre.len() {
            lemma_dup_codes_at(table.drop_last(), i);
        } else {
            lemma_dup_issues_of_shape(table.last().0, table.last().1.links);
        }
    }
}

} // verus!
