use vstd::prelude::*;

use crate::policy::model::{
    code_resolved, message_resolved, resolve_code, resolve_message, resolve_severity,
    severity_resolved, Defaults, DefaultsV, Rule, RuleV,
};
use crate::representation::attr::{attr_lookup, lookup_attr, AttrV, AttrValue};
use crate::representation::graph::{bucket_of, Graph, GraphV};
use crate::representation::issue::{issue_v, Issue, IssueCode, IssueV, Severity};
use crate::representation::node_kind::NodeKind;

verus! {

/// The code a has-outgoing issue carries when the rule sets none.
pub const FALLBACK_CODE: &'static str = "HAS_OUTGOING";

/// The message a has-outgoing issue carries when the rule sets none.
pub const FALLBACK_MESSAGE: &'static str = "missing required forward links";

/// The minimum out-degree the rule demands: a non-negative integer bound to
/// `min` in the payload; any other payload falls back to 1.
pub open spec fn min_param_of(params: AttrV) -> int {
    match params {
        AttrV::Object(es) => match attr_lookup(es, "min"@) {
            Option::Some(v) => match v {
                AttrV::Int(n) => if n >= 0 {
                    n as int
                } else {
                    1
                },
                _ => 1,
            },
            Option::None => 1,
        },
        _ => 1,
    }
}

/// The minimum out-degree the rule demands.
fn min_param(params: &AttrValue) -> (m: u64)
    ensures
        m as int == min_param_of(params.deep_view()),
{
    match params {
        AttrValue::Object(es) => match lookup_attr(es, "min") {
            Option::Some(v) => match v {
                AttrValue::Int(n) => if *n >= 0 {
                    *n as u64
                } else {
                    1
                },
                _ => 1,
            },
            Option::None => 1,
        },
        _ => 1,
    }
}

/// What one node contributes: an issue exactly when its out-degree is below
/// the minimum.
pub open spec fn flag_of(
    g: GraphV,
    id: Seq<char>,
    min: int,
    sev: Severity,
    code: IssueCode,
    msg: Seq<char>,
) -> Seq<IssueV> {
    if (bucket_of(g.adjacency, id).len() as int) < min {
        seq![issue_v(sev, code, id, msg)]
    } else {
        Seq::empty()
    }
}

/// The rule's findings over a bucket of node ids, in order.
pub open spec fn issues_over_ids(
    g: GraphV,
    ids: Seq<Seq<char>>,
    min: int,
    sev: Severity,
    code: IssueCode,
    msg: Seq<char>,
) -> Seq<IssueV>
    decreases ids.len(),
{
    if ids.len() == 0 {
        Seq::empty()
    } else {
        issues_over_ids(g, ids.drop_last(), min, sev, code, msg) + flag_of(
            g,
            ids.last(),
            min,
            sev,
            code,
            msg,
        )
    }
}

/// The rule's findings over the selected kinds, in selector order.
pub open spec fn issues_over_kinds(
    g: GraphV,
    ks: Seq<NodeKind>,
    min: int,
    sev: Severity,
    code: IssueCode,
    msg: Seq<char>,
) -> Seq<IssueV>
    decreases ks.len(),
{
    if ks.len() == 0 {
        Seq::empty()
    } else {
        issues_over_kinds(g, ks.drop_last(), min, sev, code, msg) + issues_over_ids(
            g,
            bucket_of(g.kinds, ks.last()),
            min,
            sev,
            code,
            msg,
        )
    }
}

/// Everything the has-outgoing rule reports for one graph: each selected
/// node whose out-degree is below the minimum, flagged once.
pub open spec fn has_outgoing_issues(g: GraphV, rule: RuleV, defaults: DefaultsV) -> Seq<IssueV> {
    issues_over_kinds(
        g,
        rule.kinds,
        min_param_of(rule.params),
        severity_resolved(rule, defaults),
        code_resolved(rule, FALLBACK_CODE@),
        message_resolved(rule, FALLBACK_MESSAGE@),
    )
}

/// Flag every selected node whose out-degree is below the rule's minimum.
pub fn run(g: &Graph, rule: &Rule, defaults: &Defaults) -> (r: Vec<Issue>)
    ensures
        r.deep_view() == has_outgoing_issues(g.deep_view(), rule.deep_view(), defaults.deep_view()),
{
    let ghost gv = g.deep_view();
    let ghost kv = rule.selector.kinds.deep_view();
    let ghost min_v = min_param_of(rule.deep_view().params);
    let ghost sev_v = severity_resolved(rule.deep_view(), defaults.deep_view());
    let ghost code_v = code_resolved(rule.deep_view(), FALLBACK_CODE@);
    let ghost msg_v = message_resolved(rule.deep_view(), FALLBACK_MESSAGE@);
    let min = min_param(&rule.params);
    let sev = resolve_severity(rule, defaults);
    let code = resolve_code(rule, FALLBACK_CODE);
    let msg = resolve_message(rule, FALLBACK_MESSAGE);
    let mut out: Vec<Issue> = Vec::new();
    let mut i: usize = 0;
    while i < rule.selector.kinds.len()
        invariant
            i <= kv.len(),
            gv == g.deep_view(),
            kv == rule.selector.kinds.deep_view(),
            kv.len() == rule.selector.kinds@.len(),
            min as int == min_v,
            sev == sev_v,
            code == code_v,
            msg@ == msg_v,
            out.deep_view() == issues_over_kinds(gv, kv.take(i as int), min_v, sev_v, code_v, msg_v),
        decreases kv.len() - i,
    {
        let ids = g.of_kind(rule.selector.kinds[i]);
        let ghost idv = ids.deep_view();
        proof {
            assert(kv[i as int] == rule.selector.kinds@[i as int]);
            assert(idv == bucket_of(gv.kinds, kv[i as int]));
        }
        let mut j: usize = 0;
        while j < ids.len()
            invariant
                j <= idv.len(),
                gv == g.deep_view(),
                idv == ids.deep_view(),
                idv.len() == ids@.len(),
                min as int == min_v,
                sev == sev_v,
                code == code_v,
                msg@ == msg_v,
                out.deep_view() == issues_over_kinds(gv, kv.take(i as int), min_v, sev_v, code_v, msg_v)
                    + issues_over_ids(gv, idv.take(j as int), min_v, sev_v, code_v, msg_v),
            decreases idv.len() - j,
        {
            let ghost iss_old = out.deep_view();
            proof {
                assert(idv.take(j as int + 1).drop_last() =~= idv.take(j as int));
                assert(idv.take(j as int + 1).last() == idv[j as int]);
                assert(ids[j as int]@ == idv[j as int]);
            }
            let deg = g.out(&ids[j]).len();
            proof {
                assert(deg as int == bucket_of(gv.adjacency, idv[j as int]).len() as int);
            }
            if (deg as u64) < min {
                out.push(
                    Issue { severity: sev, code, subject: ids[j].clone(), detail: msg.to_owned() },
                );
                proof {
                    assert(out.deep_view() =~= iss_old.push(
                        issue_v(sev_v, code_v, idv[j as int], msg_v),
                    ));
                }
            }
            j = j + 1;
            proof {
                assert(out.deep_view() =~= issues_over_kinds(
                    gv,
                    kv.take(i as int),
                    min_v,
                    sev_v,
                    code_v,
                    msg_v,
                ) + issues_over_ids(gv, idv.take(j as int), min_v, sev_v, code_v, msg_v));
            }
        }
        i = i + 1;
        proof {
            assert(idv.take(idv.len() as int) =~= idv);
            assert(kv.take(i as int).drop_last() =~= kv.take(i as int - 1));
            assert(kv.take(i as int).last() == kv[i as int - 1]);
            assert(out.deep_view() =~= issues_over_kinds(
                gv,
                kv.take(i as int),
                min_v,
                sev_v,
                code_v,
                msg_v,
            ));
        }
    }
    proof {
        assert(kv.take(kv.len() as int) =~= kv);
    }
    out
}

} // verus!
