//! Spec-level helpers over association sequences: ordered key/value pairs
//! where a lookup finds the first binding of a key.

use vstd::prelude::*;

verus! {

/// Index of the first entry bound to `k`, or `m.len()` when there is none.
pub open spec fn key_index<K, V>(m: Seq<(K, V)>, k: K) -> int
    decreases m.len(),
{
    if m.len() == 0 {
        0
    } else if m.first().0 == k {
        0
    } else {
        1 + key_index(m.drop_first(), k)
    }
}

/// Whether some entry is bound to `k`.
pub open spec fn assoc_has<K, V>(m: Seq<(K, V)>, k: K) -> bool {
    exists|i: int| 0 <= i < m.len() && m[i].0 == k
}

/// The first value bound to `k`.
pub open spec fn assoc_get<K, V>(m: Seq<(K, V)>, k: K) -> V
    recommends
        assoc_has(m, k),
{
    m[key_index(m, k)].1
}

/// Keys of all entries, in order.
pub open spec fn assoc_keys<K, V>(m: Seq<(K, V)>) -> Seq<K> {
    m.map_values(|e: (K, V)| e.0)
}

/// No two entries share a key.
pub open spec fn distinct_keys<K, V>(m: Seq<(K, V)>) -> bool {
    forall|i: int, j: int| 0 <= i < j < m.len() ==> m[i].0 != m[j].0
}

/// `key_index` is the least index bound to `k`, and lies at the end when no
/// entry is.
pub proof fn lemma_key_index<K, V>(m: Seq<(K, V)>, k: K)
    ensures
        assoc_has(m, k) ==> {
            &&& 0 <= key_index(m, k) < m.len()
            &&& m[key_index(m, k)].0 == k
            &&& forall|j: int| 0 <= j < key_index(m, k) ==> m[j].0 != k
        },
        !assoc_has(m, k) ==> key_index(m, k) == m.len(),
    decreases m.len(),
{
    if m.len() == 0 {
    } else if m.first().0 == k {
        assert(m[0].0 == k);
    } else {
        let t = m.drop_first();
        lemma_key_index(t, k);
        assert(forall|i: int| 0 <= i < t.len() ==> t[i] == m[i + 1]);
        if assoc_has(m, k) {
            let i = choose|i: int| 0 <= i < m.len() && m[i].0 == k;
            assert(t[i - 1].0 == k);
            assert(assoc_has(t, k));
            let ki = key_index(t, k);
            assert(m[1 + ki].0 == k);
            assert forall|j: int| 0 <= j < 1 + ki implies m[j].0 != k by {
                if j >= 1 {
                    assert(t[j - 1].0 != k);
                }
            }
        } else {
            assert(!assoc_has(t, k)) by {
                if assoc_has(t, k) {
                    let i = choose|i: int| 0 <= i < t.len() && t[i].0 == k;
                    assert(m[i + 1].0 == k);
                }
            }
        }
    }
}

/// What a push adds to the elements of a sequence.
pub proof fn lemma_push_contains<A>(s: Seq<A>, v: A, x: A)
    ensures
        s.push(v).contains(x) == (s.contains(x) || x == v),
{
    let p = s.push(v);
    if s.contains(x) {
        let i = choose|i: int| 0 <= i < s.len() && s[i] == x;
        assert(p[i] == x);
    }
    assert(p[p.len() - 1] == v);
    if p.contains(x) && x != v {
        let i = choose|i: int| 0 <= i < p.len() && p[i] == x;
        assert(s[i] == x);
    }
}

/// How many elements of `s` equal `x`.
pub open spec fn count_of<A>(s: Seq<A>, x: A) -> nat
    decreases s.len(),
{
    if s.len() == 0 {
        0nat
    } else {
        count_of(s.drop_last(), x) + (if s.last() == x {
            1nat
        } else {
            0nat
        })
    }
}

/// An element occurs in `s` exactly when its count is positive.
pub proof fn lemma_count_contains<A>(s: Seq<A>, x: A)
    ensures
        (count_of(s, x) > 0) == s.contains(x),
    decreases s.len(),
{
    if s.len() > 0 {
        lemma_count_contains(s.drop_last(), x);
        if s.last() != x && s.contains(x) {
            let i = choose|i: int| 0 <= i < s.len() && s[i] == x;
            assert(s.drop_last()[i] == x);
        }
        if s.drop_last().contains(x) {
            let i = choose|i: int| 0 <= i < s.len() - 1 && s.drop_last()[i] == x;
            assert(s[i] == x);
        }
    }
}

/// What a push adds to a count.
pub proof fn lemma_count_push<A>(s: Seq<A>, v: A, x: A)
    ensures
        count_of(s.push(v), x) == count_of(s, x) + (if v == x {
            1nat
        } else {
            0nat
        }),
{
    assert(s.push(v).drop_last() =~= s);
    assert(s.push(v).last() == v);
}

/// How many elements of `s` satisfy `p`.
pub open spec fn count_where<A>(s: Seq<A>, p: spec_fn(A) -> bool) -> nat
    decreases s.len(),
{
    if s.len() == 0 {
        0nat
    } else {
        count_where(s.drop_last(), p) + (if p(s.last()) {
            1nat
        } else {
            0nat
        })
    }
}

/// Counting distributes over concatenation.
pub proof fn lemma_count_where_concat<A>(a: Seq<A>, b: Seq<A>, p: spec_fn(A) -> bool)
    ensures
        count_where(a + b, p) == count_where(a, p) + count_where(b, p),
    decreases b.len(),
{
    if b.len() == 0 {
        assert(a + b =~= a);
    } else {
        assert((a + b).drop_last() =~= a + b.drop_last());
        assert((a + b).last() == b.last());
        lemma_count_where_concat(a, b.drop_last(), p);
    }
}

/// A count of zero over elements none of which satisfy `p`.
pub proof fn lemma_count_where_zero<A>(s: Seq<A>, p: spec_fn(A) -> bool)
    requires
        forall|i: int| 0 <= i < s.len() ==> !p(s[i]),
    ensures
        count_where(s, p) == 0,
    decreases s.len(),
{
    if s.len() > 0 {
        lemma_count_where_zero(s.drop_last(), p);
    }
}

/// `s` with every repeat of an earlier element dropped: the first
/// occurrences, in order.
pub open spec fn dedup<A>(s: Seq<A>) -> Seq<A>
    decreases s.len(),
{
    if s.len() == 0 {
        s
    } else if s.drop_last().contains(s.last()) {
        dedup(s.drop_last())
    } else {
        dedup(s.drop_last()).push(s.last())
    }
}

/// Deduplication keeps exactly the elements of `s`.
pub proof fn lemma_dedup_contains<A>(s: Seq<A>, x: A)
    ensures
        dedup(s).contains(x) == s.contains(x),
    decreases s.len(),
{
    if s.len() > 0 {
        let dl = s.drop_last();
        lemma_dedup_contains(dl, x);
        assert(s.contains(x) == (dl.contains(x) || x == s.last())) by {
            if s.contains(x) {
                let i = choose|i: int| 0 <= i < s.len() && s[i] == x;
                if i < s.len() - 1 {
                    assert(dl[i] == x);
                } else {
                    assert(x == s.last());
                }
            }
            if dl.contains(x) {
                let i = choose|i: int| 0 <= i < dl.len() && dl[i] == x;
                assert(s[i] == x);
            }
            if x == s.last() {
                assert(s[s.len() - 1] == x);
            }
        }
        if !dl.contains(s.last()) {
            let d = dedup(dl).push(s.last());
            assert(d.contains(x) == (dedup(dl).contains(x) || x == s.last())) by {
                if dedup(dl).contains(x) {
                    let i = choose|i: int| 0 <= i < dedup(dl).len() && dedup(dl)[i] == x;
                    assert(d[i] == x);
                }
                assert(d[d.len() - 1] == s.last());
                if d.contains(x) {
                    let i = choose|i: int| 0 <= i < d.len() && d[i] == x;
                    if i < d.len() - 1 {
                        assert(dedup(dl)[i] == x);
                    }
                }
            }
        }
    }
}

/// Deduplication keeps each element exactly once.
pub proof fn lemma_dedup_count<A>(s: Seq<A>, x: A)
    ensures
        count_of(dedup(s), x) == if s.contains(x) {
            1nat
        } else {
            0nat
        },
    decreases s.len(),
{
    lemma_dedup_contains(s, x);
    lemma_count_contains(dedup(s), x);
    lemma_dedup_no_duplicates(s);
    lemma_count_no_duplicates(dedup(s), x);
}

/// A sequence without duplicates counts every element at most once.
pub proof fn lemma_count_no_duplicates<A>(s: Seq<A>, x: A)
    requires
        s.no_duplicates(),
    ensures
        count_of(s, x) <= 1,
    decreases s.len(),
{
    if s.len() > 0 {
        assert(s.drop_last().no_duplicates());
        lemma_count_no_duplicates(s.drop_last(), x);
        if s.last() == x {
            lemma_count_contains(s.drop_last(), x);
            if s.drop_last().contains(x) {
                let i = choose|i: int| 0 <= i < s.len() - 1 && s.drop_last()[i] == x;
                assert(s[i] == s[s.len() - 1]);
            }
        }
    }
}

/// Deduplication leaves no duplicates.
pub proof fn lemma_dedup_no_duplicates<A>(s: Seq<A>)
    ensures
        dedup(s).no_duplicates(),
    decreases s.len(),
{
    if s.len() > 0 {
        lemma_dedup_no_duplicates(s.drop_last());
        if !s.drop_last().contains(s.last()) {
            lemma_dedup_contains(s.drop_last(), s.last());
        }
    }
}

} // verus!
