use vstd::prelude::*;

use crate::policy::model::{
    code_resolved, message_resolved, resolve_code, resolve_message, resolve_severity,
    severity_resolved, Defaults, DefaultsV, Rule, RuleV,
};
use crate::representation::assoc::{assoc_get, assoc_has, lemma_push_contains};
use crate::representation::attr::{
    attr_lookup, attr_vs, lemma_attr_vs_index, lemma_attr_vs_len, lookup_attr, AttrV, AttrValue,
};
use crate::representation::graph::{bucket_of, find_node, Graph, GraphV};
use crate::representation::issue::{issue_v, Issue, IssueCode, IssueV, Severity};
use crate::representation::node::node_kind_of;
use crate::representation::node_id::NodeId;
use crate::representation::node_kind::{kind_of, NodeKind};
use vstd::seq_lib::seq_to_set_is_finite;
use vstd::set_lib::lemma_set_subset_finite;

verus! {

/// The code a reach-kind issue carries when the rule sets none.
pub const FALLBACK_CODE: &'static str = "REACH_KIND";

/// The message a reach-kind issue carries when the rule sets none.
pub const FALLBACK_MESSAGE: &'static str = "missing required reachable target";

/// The rule's parameters once resolved: the kinds that count as targets,
/// the required number of matches, and an optional hop bound.
pub ghost struct ReachParamsV {
    pub target_kinds: Seq<NodeKind>,
    pub min: int,
    pub max_hops: Option<int>,
}

/// Whether every element is a string.
pub open spec fn all_text(vs: Seq<AttrV>) -> bool {
    forall|i: int| 0 <= i < vs.len() ==> vs[i] is Text
}

/// The kinds the strings resolve to, in order.
pub open spec fn kinds_from(vs: Seq<AttrV>) -> Seq<NodeKind> {
    vs.map_values(|v: AttrV| kind_of(v->Text_0))
}

/// The payload's parameters: `target_kinds` must be a list of strings,
/// `min` absent or a non-negative integer (absent counts as zero), and
/// `max_hops` absent, null, or a non-negative integer. Any other payload
/// falls back to no target kinds, a minimum of one, and no hop bound.
pub open spec fn reach_params_of(params: AttrV) -> ReachParamsV {
    let fallback = ReachParamsV { target_kinds: Seq::empty(), min: 1, max_hops: None };
    match params {
        AttrV::Object(es) => match attr_lookup(es, "target_kinds"@) {
            Option::Some(tk) => match tk {
                AttrV::List(vs) => {
                    let min_ok = match attr_lookup(es, "min"@) {
                        Option::None => true,
                        Option::Some(v) => v matches AttrV::Int(n) && v->Int_0 >= 0,
                    };
                    let hops_ok = match attr_lookup(es, "max_hops"@) {
                        Option::None => true,
                        Option::Some(v) => v is Null || (v matches AttrV::Int(n) && v->Int_0 >= 0),
                    };
                    if all_text(vs) && min_ok && hops_ok {
                        ReachParamsV {
                            target_kinds: kinds_from(vs),
                            min: match attr_lookup(es, "min"@) {
                                Option::Some(v) => v->Int_0 as int,
                                Option::None => 0,
                            },
                            max_hops: match attr_lookup(es, "max_hops"@) {
                                Option::Some(v) => if v is Null {
                                    None
                                } else {
                                    Some(v->Int_0 as int)
                                },
                                Option::None => None,
                            },
                        }
                    } else {
                        fallback
                    }
                },
                _ => fallback,
            },
            Option::None => fallback,
        },
        _ => fallback,
    }
}

/// The hop bound a rule runs with: its own parameter, else the document
/// default, else two.
pub open spec fn hops_resolved(p: ReachParamsV, defaults: DefaultsV) -> int {
    match p.max_hops {
        Option::Some(h) => h,
        Option::None => match defaults.max_hops {
            Option::Some(h) => h as int,
            Option::None => 2,
        },
    }
}

/// The number of matches a rule demands: at least one, whatever `min` says.
pub open spec fn threshold_of(p: ReachParamsV) -> int {
    if p.min > 1 {
        p.min
    } else {
        1
    }
}

/// Everything reachable in one hop from some member of `s`.
pub open spec fn step_set(
    adj: Seq<(Seq<char>, Seq<Seq<char>>)>,
    s: Set<Seq<char>>,
) -> Set<Seq<char>> {
    Set::new(|t: Seq<char>| exists|id: Seq<char>| s.contains(id) && bucket_of(adj, id).contains(t))
}

/// Everything reachable in one hop from some element of `ids`.
pub open spec fn step_ids(
    adj: Seq<(Seq<char>, Seq<Seq<char>>)>,
    ids: Seq<Seq<char>>,
) -> Set<Seq<char>>
    decreases ids.len(),
{
    if ids.len() == 0 {
        Set::empty()
    } else {
        step_ids(adj, ids.drop_last()).union(bucket_of(adj, ids.last()).to_set())
    }
}

/// Everything within the given number of hops of `start`, the start node
/// included.
pub open spec fn reach_within(
    adj: Seq<(Seq<char>, Seq<Seq<char>>)>,
    start: Seq<char>,
    hops: int,
) -> Set<Seq<char>>
    decreases hops,
{
    if hops <= 0 {
        set![start]
    } else {
        reach_within(adj, start, hops - 1).union(step_set(adj, reach_within(adj, start, hops - 1)))
    }
}

/// Whether a reachable id counts as a match: it names a node of the graph
/// whose resolved kind is among the targets.
pub open spec fn qualifies(g: GraphV, targets: Seq<NodeKind>, id: Seq<char>) -> bool {
    assoc_has(g.nodes, id) && targets.contains(node_kind_of(assoc_get(g.nodes, id)))
}

/// The matching ids in `s`, the start node never counted.
pub open spec fn matched_of(
    g: GraphV,
    targets: Seq<NodeKind>,
    start: Seq<char>,
    s: Set<Seq<char>>,
) -> Set<Seq<char>> {
    s.remove(start).filter(|id: Seq<char>| qualifies(g, targets, id))
}

/// How many distinct nodes within the hop bound match, the start node never
/// counted.
pub open spec fn match_count(g: GraphV, targets: Seq<NodeKind>, start: Seq<char>, hops: int) -> nat {
    matched_of(g, targets, start, reach_within(g.adjacency, start, hops)).len()
}

/// A step from a union is the union of the steps.
proof fn lemma_step_union(adj: Seq<(Seq<char>, Seq<Seq<char>>)>, a: Set<Seq<char>>, b: Set<Seq<char>>)
    ensures
        step_set(adj, a.union(b)) == step_set(adj, a).union(step_set(adj, b)),
{
    assert forall|t: Seq<char>| step_set(adj, a.union(b)).contains(t) implies step_set(
        adj,
        a,
    ).union(step_set(adj, b)).contains(t) by {
        let id = choose|id: Seq<char>| a.union(b).contains(id) && bucket_of(adj, id).contains(t);
        if a.contains(id) {
            assert(step_set(adj, a).contains(t));
        } else {
            assert(step_set(adj, b).contains(t));
        }
    }
    assert forall|t: Seq<char>| step_set(adj, a).union(step_set(adj, b)).contains(t) implies step_set(
        adj,
        a.union(b),
    ).contains(t) by {
        if step_set(adj, a).contains(t) {
            let id = choose|id: Seq<char>| a.contains(id) && bucket_of(adj, id).contains(t);
            assert(a.union(b).contains(id));
        } else {
            let id = choose|id: Seq<char>| b.contains(id) && bucket_of(adj, id).contains(t);
            assert(a.union(b).contains(id));
        }
    }
    assert(step_set(adj, a.union(b)) =~= step_set(adj, a).union(step_set(adj, b)));
}

/// A step from a subset reaches no further.
proof fn lemma_step_monotone(
    adj: Seq<(Seq<char>, Seq<Seq<char>>)>,
    a: Set<Seq<char>>,
    b: Set<Seq<char>>,
)
    requires
        a.subset_of(b),
    ensures
        step_set(adj, a).subset_of(step_set(adj, b)),
{
    assert forall|t: Seq<char>| step_set(adj, a).contains(t) implies step_set(adj, b).contains(t) by {
        let id = choose|id: Seq<char>| a.contains(id) && bucket_of(adj, id).contains(t);
        assert(b.contains(id) && bucket_of(adj, id).contains(t));
    }
}

/// Stepping from the elements of a sequence is stepping from its set.
proof fn lemma_step_ids_eq(adj: Seq<(Seq<char>, Seq<Seq<char>>)>, ids: Seq<Seq<char>>)
    ensures
        step_ids(adj, ids) == step_set(adj, ids.to_set()),
    decreases ids.len(),
{
    if ids.len() == 0 {
        assert forall|t: Seq<char>| !step_set(adj, ids.to_set()).contains(t) by {
            if step_set(adj, ids.to_set()).contains(t) {
                let id = choose|id: Seq<char>|
                    ids.to_set().contains(id) && bucket_of(adj, id).contains(t);
            }
        }
        assert(step_ids(adj, ids) =~= step_set(adj, ids.to_set()));
    } else {
        let dl = ids.drop_last();
        let last = ids.last();
        lemma_step_ids_eq(adj, dl);
        assert(ids.to_set() =~= dl.to_set().union(set![last])) by {
            assert forall|x: Seq<char>| ids.to_set().contains(x) implies dl.to_set().union(
                set![last],
            ).contains(x) by {
                let i = choose|i: int| 0 <= i < ids.len() && ids[i] == x;
                if i < ids.len() - 1 {
                    assert(dl[i] == x);
                    assert(dl.contains(x));
                }
            }
            assert forall|x: Seq<char>| dl.to_set().union(set![last]).contains(x) implies ids.to_set()
                .contains(x) by {
                if dl.to_set().contains(x) {
                    let i = choose|i: int| 0 <= i < dl.len() && dl[i] == x;
                    assert(ids[i] == x);
                } else {
                    assert(ids[ids.len() - 1] == x);
                }
            }
        }
        lemma_step_union(adj, dl.to_set(), set![last]);
        assert(step_set(adj, set![last]) =~= bucket_of(adj, last).to_set()) by {
            assert forall|t: Seq<char>| step_set(adj, set![last]).contains(t) implies bucket_of(
                adj,
                last,
            ).to_set().contains(t) by {
                let id = choose|id: Seq<char>|
                    set![last].contains(id) && bucket_of(adj, id).contains(t);
                assert(id == last);
            }
            assert forall|t: Seq<char>| bucket_of(adj, last).to_set().contains(t) implies step_set(
                adj,
                set![last],
            ).contains(t) by {
                assert(set![last].contains(last) && bucket_of(adj, last).contains(t));
            }
        }
        assert(step_ids(adj, ids) =~= step_set(adj, ids.to_set()));
    }
}

/// What one node contributes: an issue exactly when fewer matches than the
/// threshold are reachable from it within the hop bound.
pub open spec fn flag_of(
    g: GraphV,
    id: Seq<char>,
    targets: Seq<NodeKind>,
    threshold: int,
    hops: int,
    sev: Severity,
    code: IssueCode,
    msg: Seq<char>,
) -> Seq<IssueV> {
    if (match_count(g, targets, id, hops) as int) < threshold {
        seq![issue_v(sev, code, id, msg)]
    } else {
        Seq::empty()
    }
}

/// The rule's findings over a bucket of node ids, in order.
pub open spec fn issues_over_ids(
    g: GraphV,
    ids: Seq<Seq<char>>,
    targets: Seq<NodeKind>,
    threshold: int,
    hops: int,
    sev: Severity,
    code: IssueCode,
    msg: Seq<char>,
) -> Seq<IssueV>
    decreases ids.len(),
{
    if ids.len() == 0 {
        Seq::empty()
    } else {
        issues_over_ids(g, ids.drop_last(), targets, threshold, hops, sev, code, msg) + flag_of(
            g,
            ids.last(),
            targets,
            threshold,
            hops,
            sev,
            code,
            msg,
        )
    }
}

/// The rule's findings over the selected kinds, in selector order.
pub open spec fn issues_over_kinds(
    g: GraphV,
    ks: Seq<NodeKind>,
    targets: Seq<NodeKind>,
    threshold: int,
    hops: int,
    sev: Severity,
    code: IssueCode,
    msg: Seq<char>,
) -> Seq<IssueV>
    decreases ks.len(),
{
    if ks.len() == 0 {
        Seq::empty()
    } else {
        issues_over_kinds(g, ks.drop_last(), targets, threshold, hops, sev, code, msg)
            + issues_over_ids(
            g,
            bucket_of(g.kinds, ks.last()),
            targets,
            threshold,
            hops,
            sev,
            code,
            msg,
        )
    }
}

/// Everything the reach-kind rule reports for one graph: each selected node
/// from which fewer target-kind nodes than the threshold are reachable
/// within the hop bound, flagged once.
pub open spec fn reach_kind_issues(g: GraphV, rule: RuleV, defaults: DefaultsV) -> Seq<IssueV> {
    let p = reach_params_of(rule.params);
    issues_over_kinds(
        g,
        rule.kinds,
        p.target_kinds,
        threshold_of(p),
        hops_resolved(p, defaults),
        severity_resolved(rule, defaults),
        code_resolved(rule, FALLBACK_CODE@),
        message_resolved(rule, FALLBACK_MESSAGE@),
    )
}

/// Once no step leaves the reached set, more hops reach nothing new.
proof fn lemma_reach_stable(
    adj: Seq<(Seq<char>, Seq<Seq<char>>)>,
    start: Seq<char>,
    d: int,
    h: int,
)
    requires
        0 <= d <= h,
        step_set(adj, reach_within(adj, start, d)).subset_of(reach_within(adj, start, d)),
    ensures
        reach_within(adj, start, h) == reach_within(adj, start, d),
    decreases h - d,
{
    if h > d {
        lemma_reach_stable(adj, start, d, h - 1);
        assert(reach_within(adj, start, h) =~= reach_within(adj, start, d));
    }
}

/// A node with no outgoing edges reaches nothing but itself, and the start
/// node never counts: with any threshold of at least one, the rule always
/// flags it.
pub proof fn lemma_no_outgoing_always_flagged(
    g: GraphV,
    id: Seq<char>,
    targets: Seq<NodeKind>,
    threshold: int,
    hops: int,
    sev: Severity,
    code: IssueCode,
    msg: Seq<char>,
)
    requires
        bucket_of(g.adjacency, id).len() == 0,
        threshold >= 1,
    ensures
        match_count(g, targets, id, hops) == 0,
        flag_of(g, id, targets, threshold, hops, sev, code, msg) == seq![
            issue_v(sev, code, id, msg),
        ],
{
    lemma_reach_alone(g.adjacency, id, hops);
    let m = matched_of(g, targets, id, set![id]);
    assert(m =~= Set::<Seq<char>>::empty()) by {
        assert(forall|x: Seq<char>| !(set![id].remove(id).contains(x)));
    }
    assert(m.len() == 0);
}

/// With no outgoing edges, no number of hops reaches past the start node.
proof fn lemma_reach_alone(adj: Seq<(Seq<char>, Seq<Seq<char>>)>, id: Seq<char>, hops: int)
    requires
        bucket_of(adj, id).len() == 0,
    ensures
        reach_within(adj, id, hops) == set![id],
    decreases hops,
{
    if hops > 0 {
        lemma_reach_alone(adj, id, hops - 1);
        assert forall|t: Seq<char>| !(step_set(adj, set![id]).contains(t)) by {
            if step_set(adj, set![id]).contains(t) {
                let w = choose|w: Seq<char>| set![id].contains(w) && bucket_of(adj, w).contains(t);
                assert(w == id);
                let j = choose|j: int|
                    0 <= j < bucket_of(adj, id).len() && bucket_of(adj, id)[j] == t;
            }
        }
        assert(reach_within(adj, id, hops) =~= set![id]);
    }
}

/// The rule's parameters in executable form.
struct ReachParams {
    target_kinds: Vec<NodeKind>,
    min: u64,
    max_hops: Option<u64>,
}

/// The parameters every malformed payload falls back to.
fn fallback_params() -> (r: ReachParams)
    ensures
        r.target_kinds.deep_view() == Seq::<NodeKind>::empty(),
        r.min == 1,
        r.max_hops is None,
{
    let r = ReachParams { target_kinds: Vec::new(), min: 1, max_hops: None };
    proof {
        assert(r.target_kinds.deep_view() =~= Seq::<NodeKind>::empty());
    }
    r
}

/// The rule's parameters, read from the payload.
fn parse_params(params: &AttrValue) -> (r: ReachParams)
    ensures
        r.target_kinds.deep_view() == reach_params_of(params.deep_view()).target_kinds,
        r.min as int == reach_params_of(params.deep_view()).min,
        match r.max_hops {
            Some(h) => reach_params_of(params.deep_view()).max_hops == Option::Some(h as int),
            None => reach_params_of(params.deep_view()).max_hops is None,
        },
{
    match params {
        AttrValue::Object(es) => {
            let ghost esv = crate::representation::attr::attr_kvs(es@);
            match lookup_attr(es, "target_kinds") {
                Option::Some(tkv) => {
                    proof {
                        assert(attr_lookup(esv, "target_kinds"@) == Option::Some(
                            tkv.deep_view(),
                        ));
                    }
                    match tkv {
                        AttrValue::List(vs) => {
                            let ghost lv = attr_vs(vs@);
                            proof {
                                lemma_attr_vs_len(vs@);
                                assert(tkv.deep_view() == AttrV::List(lv));
                            }
                            let mut kinds: Vec<NodeKind> = Vec::new();
                            let mut i: usize = 0;
                            while i < vs.len()
                                invariant
                                    i <= vs@.len(),
                                    lv == attr_vs(vs@),
                                    lv.len() == vs@.len(),
                                    params.deep_view() == AttrV::Object(
                                        crate::representation::attr::attr_kvs(es@),
                                    ),
                                    attr_lookup(
                                        crate::representation::attr::attr_kvs(es@),
                                        "target_kinds"@,
                                    ) == Option::Some(AttrV::List(lv)),
                                    kinds@.len() == i as int,
                                    forall|k: int| 0 <= k < i ==> lv[k] is Text,
                                    forall|k: int|
                                        0 <= k < i ==> kinds.deep_view()[k] == kind_of(
                                            lv[k]->Text_0,
                                        ),
                                decreases vs@.len() - i,
                            {
                                proof {
                                    lemma_attr_vs_index(vs@, i as int);
                                }
                                let ghost kinds_old = kinds.deep_view();
                                match &vs[i] {
                                    AttrValue::Text(t) => {
                                        kinds.push(NodeKind::from_str(t.as_str()));
                                        proof {
                                            assert(vs@[i as int] == AttrValue::Text(*t));
                                            assert(lv[i as int] == AttrV::Text(t@));
                                            assert(kinds.deep_view() =~= kinds_old.push(
                                                kind_of(t@),
                                            ));
                                        }
                                    },
                                    _ => {
                                        proof {
                                            assert(!(lv[i as int] is Text));
                                            assert(!all_text(lv));
                                        }
                                        return fallback_params();
                                    },
                                }
                                i = i + 1;
                            }
                            proof {
                                assert(all_text(lv));
                                assert(kinds.deep_view() =~= kinds_from(lv));
                            }
                            let min_v: u64;
                            match lookup_attr(es, "min") {
                                Option::None => {
                                    proof {
                                        assert(attr_lookup(esv, "min"@) is None);
                                    }
                                    min_v = 0;
                                },
                                Option::Some(mv) => {
                                    proof {
                                        assert(attr_lookup(esv, "min"@) == Option::Some(
                                            mv.deep_view(),
                                        ));
                                    }
                                    match mv {
                                        AttrValue::Int(n) => {
                                            if *n >= 0 {
                                                min_v = *n as u64;
                                            } else {
                                                return fallback_params();
                                            }
                                        },
                                        _ => {
                                            return fallback_params();
                                        },
                                    }
                                },
                            }
                            let hops_v: Option<u64>;
                            match lookup_attr(es, "max_hops") {
                                Option::None => {
                                    proof {
                                        assert(attr_lookup(esv, "max_hops"@) is None);
                                    }
                                    hops_v = None;
                                },
                                Option::Some(hv) => {
                                    proof {
                                        assert(attr_lookup(esv, "max_hops"@) == Option::Some(
                                            hv.deep_view(),
                                        ));
                                    }
                                    match hv {
                                        AttrValue::Null => {
                                            hops_v = None;
                                        },
                                        AttrValue::Int(n) => {
                                            if *n >= 0 {
                                                hops_v = Some(*n as u64);
                                            } else {
                                                return fallback_params();
                                            }
                                        },
                                        _ => {
                                            return fallback_params();
                                        },
                                    }
                                },
                            }
                            ReachParams { target_kinds: kinds, min: min_v, max_hops: hops_v }
                        },
                        _ => fallback_params(),
                    }
                },
                Option::None => fallback_params(),
            }
        },
        _ => fallback_params(),
    }
}

/// Whether `k` is among the targets.
fn contains_kind(targets: &Vec<NodeKind>, k: NodeKind) -> (r: bool)
    ensures
        r == targets.deep_view().contains(k),
{
    let mut i: usize = 0;
    while i < targets.len()
        invariant
            i <= targets@.len(),
            forall|j: int| 0 <= j < i ==> targets@[j] != k,
        decreases targets@.len() - i,
    {
        if targets[i] == k {
            assert(targets.deep_view()[i as int] == k);
            return true;
        }
        i = i + 1;
    }
    assert(forall|j: int|
        0 <= j < targets.deep_view().len() ==> targets.deep_view()[j] != k);
    false
}

/// Whether the id names a node whose resolved kind is among the targets.
fn qualifies_exec(g: &Graph, targets: &Vec<NodeKind>, id: &NodeId) -> (r: bool)
    ensures
        r == qualifies(g.deep_view(), targets.deep_view(), id@),
{
    match find_node(&g.nodes, id) {
        Option::Some(node) => contains_kind(targets, node.resolved_kind()),
        Option::None => false,
    }
}

/// Count the distinct nodes within the hop bound of `start` whose kind is
/// among the targets, by a breadth-first walk over forward adjacency. The
/// start node itself never counts, and no node is counted twice.
fn count_matches(g: &Graph, start: &NodeId, hops: u64, targets: &Vec<NodeKind>) -> (hits: usize)
    ensures
        hits as nat == match_count(g.deep_view(), targets.deep_view(), start@, hops as int),
{
    broadcast use seq_to_set_is_finite, lemma_set_subset_finite;

    let ghost gv = g.deep_view();
    let ghost adjv = gv.adjacency;
    let ghost tks = targets.deep_view();
    let ghost st = start@;
    let mut seen: Vec<NodeId> = Vec::new();
    seen.push(start.clone());
    let mut frontier: Vec<NodeId> = Vec::new();
    frontier.push(start.clone());
    let mut hits: usize = 0;
    let mut depth: u64 = 0;
    proof {
        assert(seen.deep_view() =~= seq![st]);
        assert(frontier.deep_view() =~= seq![st]);
        assert(seq![st][0] == st);
        assert(seq![st].contains(st));
        assert forall|x: Seq<char>| seq![st].contains(x) implies x == st by {
            let i = choose|i: int| 0 <= i < seq![st].len() && seq![st][i] == x;
        }
        assert(seq![st].to_set() =~= set![st]);
        assert(seen.deep_view().to_set() =~= set![st]);
        assert(frontier.deep_view().to_set() =~= set![st]);
        assert(reach_within(adjv, st, 0) == set![st]);
        assert(matched_of(gv, tks, st, set![st]) =~= Set::<Seq<char>>::empty());
        assert(set![st].difference(set![st]) =~= Set::<Seq<char>>::empty());
        assert forall|t: Seq<char>| !step_set(adjv, Set::<Seq<char>>::empty()).contains(t) by {
            if step_set(adjv, Set::<Seq<char>>::empty()).contains(t) {
                let id = choose|id: Seq<char>|
                    Set::<Seq<char>>::empty().contains(id) && bucket_of(adjv, id).contains(t);
            }
        }
    }
    while depth < hops && frontier.len() > 0
        invariant
            depth <= hops,
            gv == g.deep_view(),
            adjv == gv.adjacency,
            tks == targets.deep_view(),
            st == start@,
            seen.deep_view().no_duplicates(),
            seen.deep_view().to_set() == reach_within(adjv, st, depth as int),
            seen.deep_view().to_set().contains(st),
            frontier.deep_view().to_set().subset_of(seen.deep_view().to_set()),
            step_set(
                adjv,
                seen.deep_view().to_set().difference(frontier.deep_view().to_set()),
            ).subset_of(seen.deep_view().to_set()),
            hits <= seen@.len(),
            hits as nat == matched_of(gv, tks, st, seen.deep_view().to_set()).len(),
        decreases hops - depth,
    {
        let ghost r_d = reach_within(adjv, st, depth as int);
        let ghost frontier_v = frontier.deep_view();
        let ghost fs = frontier_v.to_set();
        let mut next: Vec<NodeId> = Vec::new();
        proof {
            assert(seen.deep_view().to_set().union(step_ids(adjv, frontier_v.take(0)))
                =~= r_d);
            assert(next.deep_view().to_set() =~= r_d.difference(r_d));
            assert(r_d.difference(r_d) =~= Set::<Seq<char>>::empty());
        }
        let mut fi: usize = 0;
        while fi < frontier.len()
            invariant
                fi <= frontier_v.len(),
                gv == g.deep_view(),
                adjv == gv.adjacency,
                tks == targets.deep_view(),
                st == start@,
                frontier_v == frontier.deep_view(),
                frontier_v.len() == frontier@.len(),
                r_d.contains(st),
                seen.deep_view().no_duplicates(),
                seen.deep_view().to_set() == r_d.union(step_ids(adjv, frontier_v.take(fi as int))),
                next.deep_view().to_set() == seen.deep_view().to_set().difference(r_d),
                hits <= seen@.len(),
                hits as nat == matched_of(gv, tks, st, seen.deep_view().to_set()).len(),
            decreases frontier_v.len() - fi,
        {
            let outs = g.out(&frontier[fi]);
            let ghost outs_v = outs.deep_view();
            let ghost base = r_d.union(step_ids(adjv, frontier_v.take(fi as int)));
            proof {
                assert(frontier[fi as int]@ == frontier_v[fi as int]);
                assert(outs_v == bucket_of(adjv, frontier_v[fi as int]));
                assert(base.union(outs_v.take(0).to_set()) =~= base);
            }
            let mut ti: usize = 0;
            while ti < outs.len()
                invariant
                    ti <= outs_v.len(),
                    gv == g.deep_view(),
                    adjv == gv.adjacency,
                    tks == targets.deep_view(),
                    st == start@,
                    outs_v == outs.deep_view(),
                    outs_v.len() == outs@.len(),
                    r_d.contains(st),
                    base == r_d.union(step_ids(adjv, frontier_v.take(fi as int))),
                    seen.deep_view().no_duplicates(),
                    seen.deep_view().to_set() == base.union(outs_v.take(ti as int).to_set()),
                    next.deep_view().to_set() == seen.deep_view().to_set().difference(r_d),
                    hits <= seen@.len(),
                    hits as nat == matched_of(gv, tks, st, seen.deep_view().to_set()).len(),
                decreases outs_v.len() - ti,
            {
                let t = &outs[ti];
                let ghost seen_old = seen.deep_view();
                let ghost next_old = next.deep_view();
                proof {
                    assert(t@ == outs_v[ti as int]);
                    assert(outs_v.take(ti as int + 1) =~= outs_v.take(ti as int).push(
                        outs_v[ti as int],
                    ));
                    assert forall|x: Seq<char>|
                        outs_v.take(ti as int + 1).to_set().contains(x) == (outs_v.take(
                            ti as int,
                        ).to_set().contains(x) || x == outs_v[ti as int]) by {
                        lemma_push_contains(outs_v.take(ti as int), outs_v[ti as int], x);
                    }
                }
                if !crate::representation::graph::contains_id(&seen, t) {
                    seen.push(t.clone());
                    next.push(t.clone());
                    let n_seen = seen.len();
                    proof {
                        assert(seen@.len() == seen_old.len() + 1);
                        assert(hits < n_seen);
                    }
                    let is_match = qualifies_exec(g, targets, t);
                    if is_match {
                        hits = hits + 1;
                    }
                    proof {
                        assert(seen.deep_view() =~= seen_old.push(t@));
                        assert(next.deep_view() =~= next_old.push(t@));
                        assert(seen.deep_view().no_duplicates()) by {
                            assert(!seen_old.contains(t@));
                            assert(forall|k: int|
                                0 <= k < seen_old.len() ==> seen.deep_view()[k] == seen_old[k]);
                            assert(seen.deep_view()[seen_old.len() as int] == t@);
                        }
                        assert forall|x: Seq<char>|
                            seen.deep_view().to_set().contains(x) == seen_old.to_set().insert(
                                t@,
                            ).contains(x) by {
                            lemma_push_contains(seen_old, t@, x);
                        }
                        assert(seen.deep_view().to_set() =~= seen_old.to_set().insert(t@));
                        assert(!r_d.contains(t@)) by {
                            assert(base.contains(t@) ==> seen_old.to_set().contains(t@));
                        }
                        assert forall|x: Seq<char>|
                            seen.deep_view().to_set().contains(x) == base.union(
                                outs_v.take(ti as int + 1).to_set(),
                            ).contains(x) by {
                            lemma_push_contains(seen_old, t@, x);
                            lemma_push_contains(outs_v.take(ti as int), outs_v[ti as int], x);
                        }
                        assert(seen.deep_view().to_set() =~= base.union(
                            outs_v.take(ti as int + 1).to_set(),
                        ));
                        assert forall|x: Seq<char>|
                            next.deep_view().to_set().contains(x) == seen.deep_view().to_set()
                                .difference(r_d).contains(x) by {
                            lemma_push_contains(next_old, t@, x);
                            lemma_push_contains(seen_old, t@, x);
                            assert(next.deep_view().to_set().contains(x) == (next_old.to_set()
                                .contains(x) || x == t@));
                            assert(next_old.to_set().contains(x) == (seen_old.to_set().contains(x)
                                && !r_d.contains(x)));
                            assert(seen.deep_view().to_set().contains(x) == (seen_old.to_set()
                                .contains(x) || x == t@));
                        }
                        assert(next.deep_view().to_set() =~= seen.deep_view().to_set().difference(
                            r_d,
                        ));
                        let m_old = matched_of(gv, tks, st, seen_old.to_set());
                        let m_new = matched_of(gv, tks, st, seen.deep_view().to_set());
                        assert forall|x: Seq<char>| m_old.contains(x) implies seen_old.to_set()
                            .contains(x) by {}
                        assert(m_old.subset_of(seen_old.to_set()));
                        assert(seen_old.to_set().finite());
                        lemma_set_subset_finite(seen_old.to_set(), m_old);
                        assert(m_old.finite());
                        assert(seen_old.to_set().contains(st));
                        assert(t@ != st);
                        assert(!m_old.contains(t@));
                        if is_match {
                            assert(m_new =~= m_old.insert(t@));
                            assert(m_new.len() == m_old.len() + 1);
                        } else {
                            assert(m_new =~= m_old);
                        }
                    }
                } else {
                    proof {
                        assert(seen_old.to_set().contains(t@));
                        assert(seen.deep_view().to_set() =~= base.union(
                            outs_v.take(ti as int + 1).to_set(),
                        ));
                    }
                }
                ti = ti + 1;
            }
            fi = fi + 1;
            proof {
                assert(outs_v.take(outs_v.len() as int) =~= outs_v);
                assert(frontier_v.take(fi as int).drop_last() =~= frontier_v.take(fi as int - 1));
                assert(frontier_v.take(fi as int).last() == frontier_v[fi as int - 1]);
                assert(step_ids(adjv, frontier_v.take(fi as int)) == step_ids(
                    adjv,
                    frontier_v.take(fi as int - 1),
                ).union(bucket_of(adjv, frontier_v[fi as int - 1]).to_set()));
                assert(seen.deep_view().to_set() =~= r_d.union(
                    step_ids(adjv, frontier_v.take(fi as int)),
                ));
            }
        }
        proof {
            assert(frontier_v.take(frontier_v.len() as int) =~= frontier_v);
            lemma_step_ids_eq(adjv, frontier_v);
            assert(fs.subset_of(r_d));
            assert(step_set(adjv, r_d.difference(fs)).subset_of(r_d));
            assert(r_d =~= r_d.difference(fs).union(fs));
            lemma_step_union(adjv, r_d.difference(fs), fs);
            assert(step_set(adjv, r_d) == step_set(adjv, r_d.difference(fs)).union(
                step_set(adjv, fs),
            ));
            assert(seen.deep_view().to_set() =~= reach_within(adjv, st, depth as int + 1)) by {
                assert(reach_within(adjv, st, depth as int + 1) == r_d.union(step_set(adjv, r_d)));
                assert(seen.deep_view().to_set() == r_d.union(step_set(adjv, fs)));
                assert(r_d.union(step_set(adjv, fs)) =~= r_d.union(step_set(adjv, r_d)));
            }
            assert(seen.deep_view().to_set().difference(next.deep_view().to_set()) =~= r_d);
            assert(step_set(
                adjv,
                seen.deep_view().to_set().difference(next.deep_view().to_set()),
            ).subset_of(seen.deep_view().to_set())) by {
                assert(step_set(adjv, r_d).subset_of(r_d.union(step_set(adjv, fs))));
            }
            assert(next.deep_view().to_set().subset_of(seen.deep_view().to_set()));
        }
        frontier = next;
        depth = depth + 1;
    }
    proof {
        if depth < hops {
            assert(frontier.deep_view().len() == 0);
            assert(frontier.deep_view().to_set() =~= Set::<Seq<char>>::empty());
            assert(seen.deep_view().to_set().difference(frontier.deep_view().to_set())
                =~= seen.deep_view().to_set());
            lemma_reach_stable(adjv, st, depth as int, hops as int);
        }
    }
    hits
}

/// Flag every selected node from which fewer target-kind nodes than the
/// threshold are reachable within the hop bound.
pub fn run(g: &Graph, rule: &Rule, defaults: &Defaults) -> (r: Vec<Issue>)
    ensures
        r.deep_view() == reach_kind_issues(g.deep_view(), rule.deep_view(), defaults.deep_view()),
{
    let ghost gv = g.deep_view();
    let ghost kv = rule.selector.kinds.deep_view();
    let ghost pv = reach_params_of(rule.deep_view().params);
    let ghost sev_v = severity_resolved(rule.deep_view(), defaults.deep_view());
    let ghost code_v = code_resolved(rule.deep_view(), FALLBACK_CODE@);
    let ghost msg_v = message_resolved(rule.deep_view(), FALLBACK_MESSAGE@);
    let params = parse_params(&rule.params);
    let hops: u64 = match params.max_hops {
        Some(h) => h,
        None => match defaults.max_hops {
            Some(h) => h,
            None => 2,
        },
    };
    let threshold: u64 = if params.min > 1 {
        params.min
    } else {
        1
    };
    proof {
        assert(hops as int == hops_resolved(pv, defaults.deep_view()));
        assert(threshold as int == threshold_of(pv));
    }
    let sev = resolve_severity(rule, defaults);
    let code = resolve_code(rule, FALLBACK_CODE);
    let msg = resolve_message(rule, FALLBACK_MESSAGE);
    let mut out: Vec<Issue> = Vec::new();
    let mut i: usize = 0;
    while i < rule.selector.kinds.len()
        invariant
            i <= kv.len(),
            gv == g.deep_view(),
            kv == rule.selector.kinds.deep_view(),
            kv.len() == rule.selector.kinds@.len(),
            params.target_kinds.deep_view() == pv.target_kinds,
            threshold as int == threshold_of(pv),
            hops as int == hops_resolved(pv, defaults.deep_view()),
            sev == sev_v,
            code == code_v,
            msg@ == msg_v,
            out.deep_view() == issues_over_kinds(
                gv,
                kv.take(i as int),
                pv.target_kinds,
                threshold_of(pv),
                hops_resolved(pv, defaults.deep_view()),
                sev_v,
                code_v,
                msg_v,
            ),
        decreases kv.len() - i,
    {
        let ids = g.of_kind(rule.selector.kinds[i]);
        let ghost idv = ids.deep_view();
        proof {
            assert(kv[i as int] == rule.selector.kinds@[i as int]);
            assert(idv == bucket_of(gv.kinds, kv[i as int]));
        }
        let mut j: usize = 0;
        while j < ids.len()
            invariant
                j <= idv.len(),
                gv == g.deep_view(),
                idv == ids.deep_view(),
                idv.len() == ids@.len(),
                params.target_kinds.deep_view() == pv.target_kinds,
                threshold as int == threshold_of(pv),
                hops as int == hops_resolved(pv, defaults.deep_view()),
                sev == sev_v,
                code == code_v,
                msg@ == msg_v,
                out.deep_view() == issues_over_kinds(
                    gv,
                    kv.take(i as int),
                    pv.target_kinds,
                    threshold_of(pv),
                    hops_resolved(pv, defaults.deep_view()),
                    sev_v,
                    code_v,
                    msg_v,
                ) + issues_over_ids(
                    gv,
                    idv.take(j as int),
                    pv.target_kinds,
                    threshold_of(pv),
                    hops_resolved(pv, defaults.deep_view()),
                    sev_v,
                    code_v,
                    msg_v,
                ),
            decreases idv.len() - j,
        {
            let ghost iss_old = out.deep_view();
            proof {
                assert(idv.take(j as int + 1).drop_last() =~= idv.take(j as int));
                assert(idv.take(j as int + 1).last() == idv[j as int]);
                assert(ids[j as int]@ == idv[j as int]);
            }
            let hits = count_matches(g, &ids[j], hops, &params.target_kinds);
            if (hits as u64) < threshold {
                out.push(
                    Issue { severity: sev, code, subject: ids[j].clone(), detail: msg.to_owned() },
                );
                proof {
                    assert(out.deep_view() =~= iss_old.push(
                        issue_v(sev_v, code_v, idv[j as int], msg_v),
                    ));
                }
            }
            j = j + 1;
            proof {
                assert(out.deep_view() =~= issues_over_kinds(
                    gv,
                    kv.take(i as int),
                    pv.target_kinds,
                    threshold_of(pv),
                    hops_resolved(pv, defaults.deep_view()),
                    sev_v,
                    code_v,
                    msg_v,
                ) + issues_over_ids(
                    gv,
                    idv.take(j as int),
                    pv.target_kinds,
                    threshold_of(pv),
                    hops_resolved(pv, defaults.deep_view()),
                    sev_v,
                    code_v,
                    msg_v,
                ));
            }
        }
        i = i + 1;
        proof {
            assert(idv.take(idv.len() as int) =~= idv);
            assert(kv.take(i as int).drop_last() =~= kv.take(i as int - 1));
            assert(kv.take(i as int).last() == kv[i as int - 1]);
            assert(out.deep_view() =~= issues_over_kinds(
                gv,
                kv.take(i as int),
                pv.target_kinds,
                threshold_of(pv),
                hops_resolved(pv, defaults.deep_view()),
                sev_v,
                code_v,
                msg_v,
            ));
        }
    }
    proof {
        assert(kv.take(kv.len() as int) =~= kv);
    }
    out
}

} // verus!
