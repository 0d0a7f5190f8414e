use vstd::prelude::*;

use crate::policy::model::{
    code_resolved, message_resolved, resolve_code, resolve_message, resolve_severity,
    severity_resolved, Defaults, DefaultsV, Rule, RuleError, RuleV,
};
use crate::representation::assoc::{assoc_get, assoc_has};
use crate::representation::attr::{attr_lookup, lookup_attr, AttrV, AttrValue};
use crate::representation::graph::{bucket_of, find_node, Graph, GraphV};
use crate::representation::issue::{issue_v, Issue, IssueCode, IssueV, Severity};
use crate::representation::node::field_present_in;
use crate::representation::node_kind::NodeKind;

verus! {

/// The message a field-present issue carries when the rule sets none.
pub const FALLBACK_MESSAGE: &'static str = "required field missing";

/// The rule's one mandatory parameter: the string bound to `field` in the
/// payload. Any other payload fails the rule invocation.
pub open spec fn field_param_of(params: AttrV) -> Option<Seq<char>> {
    match params {
        AttrV::Object(es) => match attr_lookup(es, "field"@) {
            Option::Some(v) => match v {
                AttrV::Text(s) => Option::Some(s),
                _ => Option::None,
            },
            Option::None => Option::None,
        },
        _ => Option::None,
    }
}

/// The rule's mandatory field name, if the payload carries one.
fn field_param<'a>(params: &'a AttrValue) -> (r: Option<&'a String>)
    ensures
        match r {
            Some(s) => field_param_of(params.deep_view()) == Option::Some(s@),
            None => field_param_of(params.deep_view()) is None,
        },
{
    match params {
        AttrValue::Object(es) => match lookup_attr(es, "field") {
            Option::Some(v) => match v {
                AttrValue::Text(s) => Some(s),
                _ => None,
            },
            Option::None => None,
        },
        _ => None,
    }
}

/// What one node contributes: an issue exactly when it exists and the named
/// field is absent or empty on it.
pub open spec fn flag_of(
    g: GraphV,
    id: Seq<char>,
    field: Seq<char>,
    sev: Severity,
    code: IssueCode,
    msg: Seq<char>,
) -> Seq<IssueV> {
    if assoc_has(g.nodes, id) && !field_present_in(assoc_get(g.nodes, id), field) {
        seq![issue_v(sev, code, id, msg)]
    } else {
        Seq::empty()
    }
}

/// The rule's findings over a bucket of node ids, in order.
pub open spec fn issues_over_ids(
    g: GraphV,
    ids: Seq<Seq<char>>,
    field: Seq<char>,
    sev: Severity,
    code: IssueCode,
    msg: Seq<char>,
) -> Seq<IssueV>
    decreases ids.len(),
{
    if ids.len() == 0 {
        Seq::empty()
    } else {
        issues_over_ids(g, ids.drop_last(), field, sev, code, msg) + flag_of(
            g,
            ids.last(),
            field,
            sev,
            code,
            msg,
        )
    }
}

/// The rule's findings over the selected kinds, in selector order.
pub open spec fn issues_over_kinds(
    g: GraphV,
    ks: Seq<NodeKind>,
    field: Seq<char>,
    sev: Severity,
    code: IssueCode,
    msg: Seq<char>,
) -> Seq<IssueV>
    decreases ks.len(),
{
    if ks.len() == 0 {
        Seq::empty()
    } else {
        issues_over_kinds(g, ks.drop_last(), field, sev, code, msg) + issues_over_ids(
            g,
            bucket_of(g.kinds, ks.last()),
            field,
            sev,
            code,
            msg,
        )
    }
}

/// Everything the field-present rule reports for one graph: each selected
/// node on which the named field is absent or empty, flagged once. Empty
/// when the payload carries no field name.
pub open spec fn field_present_issues(g: GraphV, rule: RuleV, defaults: DefaultsV) -> Seq<IssueV> {
    match field_param_of(rule.params) {
        Option::None => Seq::empty(),
        Option::Some(field) => issues_over_kinds(
            g,
            rule.kinds,
            field,
            severity_resolved(rule, defaults),
            code_resolved(rule, rule.rule_id),
            message_resolved(rule, FALLBACK_MESSAGE@),
        ),
    }
}

/// Flag every selected node on which the rule's field is absent or empty.
/// A payload without the mandatory field name fails the invocation.
pub fn run(g: &Graph, rule: &Rule, defaults: &Defaults) -> (r: Result<Vec<Issue>, RuleError>)
    ensures
        match r {
            Ok(v) => field_param_of(rule.deep_view().params) is Some && v.deep_view()
                == field_present_issues(g.deep_view(), rule.deep_view(), defaults.deep_view()),
            Err(e) => field_param_of(rule.deep_view().params) is None && e
                == RuleError::MissingParam,
        },
{
    let field = match field_param(&rule.params) {
        Some(f) => f,
        None => {
            return Err(RuleError::MissingParam);
        },
    };
    let ghost gv = g.deep_view();
    let ghost kv = rule.selector.kinds.deep_view();
    let ghost field_v = field@;
    let ghost sev_v = severity_resolved(rule.deep_view(), defaults.deep_view());
    let ghost code_v = code_resolved(rule.deep_view(), rule.deep_view().rule_id);
    let ghost msg_v = message_resolved(rule.deep_view(), FALLBACK_MESSAGE@);
    let sev = resolve_severity(rule, defaults);
    let code = resolve_code(rule, rule.rule_id.as_str());
    let msg = resolve_message(rule, FALLBACK_MESSAGE);
    let mut out: Vec<Issue> = Vec::new();
    let mut i: usize = 0;
    while i < rule.selector.kinds.len()
        invariant
            i <= kv.len(),
            gv == g.deep_view(),
            kv == rule.selector.kinds.deep_view(),
            kv.len() == rule.selector.kinds@.len(),
            field@ == field_v,
            sev == sev_v,
            code == code_v,
            msg@ == msg_v,
            out.deep_view() == issues_over_kinds(gv, kv.take(i as int), field_v, sev_v, code_v, msg_v),
        decreases kv.len() - i,
    {
        let ids = g.of_kind(rule.selector.kinds[i]);
        let ghost idv = ids.deep_view();
        proof {
            assert(kv[i as int] == rule.selector.kinds@[i as int]);
            assert(idv == bucket_of(gv.kinds, kv[i as int]));
        }
        let mut j: usize = 0;
        while j < ids.len()
            invariant
                j <= idv.len(),
                gv == g.deep_view(),
                idv == ids.deep_view(),
                idv.len() == ids@.len(),
                field@ == field_v,
                sev == sev_v,
                code == code_v,
                msg@ == msg_v,
                out.deep_view() == issues_over_kinds(gv, kv.take(i as int), field_v, sev_v, code_v, msg_v)
                    + issues_over_ids(gv, idv.take(j as int), field_v, sev_v, code_v, msg_v),
            decreases idv.len() - j,
        {
            let ghost iss_old = out.deep_view();
            proof {
                assert(idv.take(j as int + 1).drop_last() =~= idv.take(j as int));
                assert(idv.take(j as int + 1).last() == idv[j as int]);
                assert(ids[j as int]@ == idv[j as int]);
            }
            match find_node(&g.nodes, &ids[j]) {
                Some(node) => {
                    if !node.field_present(field.as_str()) {
                        out.push(
                            Issue {
                                severity: sev,
                                code,
                                subject: ids[j].clone(),
                                detail: msg.to_owned(),
                            },
                        );
                        proof {
                            assert(out.deep_view() =~= iss_old.push(
                                issue_v(sev_v, code_v, idv[j as int], msg_v),
                            ));
                        }
                    }
                },
                None => {},
            }
            j = j + 1;
            proof {
                assert(out.deep_view() =~= issues_over_kinds(
                    gv,
                    kv.take(i as int),
                    field_v,
                    sev_v,
                    code_v,
                    msg_v,
                ) + issues_over_ids(gv, idv.take(j as int), field_v, sev_v, code_v, msg_v));
            }
        }
        i = i + 1;
        proof {
            assert(idv.take(idv.len() as int) =~= idv);
            assert(kv.take(i as int).drop_last() =~= kv.take(i as int - 1));
            assert(kv.take(i as int).last() == kv[i as int - 1]);
            assert(out.deep_view() =~= issues_over_kinds(
                gv,
                kv.take(i as int),
                field_v,
                sev_v,
                code_v,
                msg_v,
            ));
        }
    }
    proof {
        assert(kv.take(kv.len() as int) =~= kv);
    }
    Ok(out)
}

} // verus!
