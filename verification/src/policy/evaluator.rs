use vstd::prelude::*;

use crate::policy::field_present;
use crate::policy::has_outgoing;
use crate::policy::model::{DefaultsV, Policies, RuleError, RuleV};
use crate::policy::registry::{builtins_table, registry_lookup, BuiltinRule, Registry};
use crate::representation::graph::{Graph, GraphV};
use crate::representation::issue::{Issue, IssueV};

verus! {

/// What one rule contributes: nothing when its identifier resolves to no
/// compiled-in rule, the rule's findings when it does, or the failure that
/// aborts the evaluation.
pub open spec fn rule_outcome(g: GraphV, rule: RuleV, defaults: DefaultsV) -> Result<
    Seq<IssueV>,
    RuleError,
> {
    match registry_lookup(builtins_table(), rule.rule_id) {
        Option::None => Ok(Seq::empty()),
        Option::Some(BuiltinRule::HasOutgoing) => Ok(
            has_outgoing::has_outgoing_issues(g, rule, defaults),
        ),
        Option::Some(BuiltinRule::ReachKind) => Ok(
            crate::policy::reach_kind::reach_kind_issues(g, rule, defaults),
        ),
        Option::Some(BuiltinRule::FieldPresent) => {
            if field_present::field_param_of(rule.params) is Some {
                Ok(field_present::field_present_issues(g, rule, defaults))
            } else {
                Err(RuleError::MissingParam)
            }
        },
    }
}

/// The whole evaluation: every rule's findings concatenated in declaration
/// order, or the first rule failure.
pub open spec fn evaluation_of(g: GraphV, rules: Seq<RuleV>, defaults: DefaultsV) -> Result<
    Seq<IssueV>,
    RuleError,
>
    decreases rules.len(),
{
    if rules.len() == 0 {
        Ok(Seq::empty())
    } else {
        match evaluation_of(g, rules.drop_last(), defaults) {
            Err(e) => Err(e),
            Ok(pre) => match rule_outcome(g, rules.last(), defaults) {
                Err(e) => Err(e),
                Ok(found) => Ok(pre + found),
            },
        }
    }
}

/// Run a rules document against a graph: resolve each rule through the
/// registry in declaration order, append what it finds, and let an
/// unresolved identifier contribute nothing. A failing rule invocation
/// aborts the evaluation; it is reported apart from any issue list.
pub fn evaluate(g: &Graph, p: &Policies) -> (r: Result<Vec<Issue>, RuleError>)
    ensures
        match r {
            Ok(v) => evaluation_of(g.deep_view(), p.deep_view().rules, p.deep_view().defaults)
                == Ok::<Seq<IssueV>, RuleError>(v.deep_view()),
            Err(e) => evaluation_of(g.deep_view(), p.deep_view().rules, p.deep_view().defaults)
                == Err::<Seq<IssueV>, RuleError>(e),
        },
{
    let ghost gv = g.deep_view();
    let ghost rv = p.rules.deep_view();
    let ghost dv = p.defaults.deep_view();
    let reg = Registry::builtins();
    let mut out: Vec<Issue> = Vec::new();
    proof {
        assert(out.deep_view() =~= Seq::<IssueV>::empty());
        assert(rv.take(0).len() == 0);
    }
    let mut i: usize = 0;
    while i < p.rules.len()
        invariant
            i <= rv.len(),
            gv == g.deep_view(),
            rv == p.rules.deep_view(),
            dv == p.defaults.deep_view(),
            rv.len() == p.rules@.len(),
            reg.entries.deep_view() == builtins_table(),
            evaluation_of(gv, rv.take(i as int), dv) == Ok::<Seq<IssueV>, RuleError>(
                out.deep_view(),
            ),
        decreases rv.len() - i,
    {
        let rule = &p.rules[i];
        let ghost iss_old = out.deep_view();
        proof {
            assert(rule.deep_view() == rv[i as int]);
            assert(rv.take(i as int + 1).drop_last() =~= rv.take(i as int));
            assert(rv.take(i as int + 1).last() == rv[i as int]);
        }
        match reg.get(rule.rule_id.as_str()) {
            None => {
                proof {
                    assert(rule_outcome(gv, rv[i as int], dv) == Ok::<Seq<IssueV>, RuleError>(
                        Seq::empty(),
                    ));
                    assert(out.deep_view() =~= iss_old + Seq::<IssueV>::empty());
                }
            },
            Some(BuiltinRule::HasOutgoing) => {
                let mut found = has_outgoing::run(g, rule, &p.defaults);
                let ghost fv = found.deep_view();
                out.append(&mut found);
                proof {
                    assert(rule_outcome(gv, rv[i as int], dv) == Ok::<Seq<IssueV>, RuleError>(fv));
                    assert(out.deep_view() =~= iss_old + fv);
                }
            },
            Some(BuiltinRule::ReachKind) => {
                let mut found = crate::policy::reach_kind::run(g, rule, &p.defaults);
                let ghost fv = found.deep_view();
                out.append(&mut found);
                proof {
                    assert(rule_outcome(gv, rv[i as int], dv) == Ok::<Seq<IssueV>, RuleError>(fv));
                    assert(out.deep_view() =~= iss_old + fv);
                }
            },
            Some(BuiltinRule::FieldPresent) => {
                match field_present::run(g, rule, &p.defaults) {
                    Ok(mut found) => {
                        let ghost fv = found.deep_view();
                        out.append(&mut found);
                        proof {
                            assert(rule_outcome(gv, rv[i as int], dv) == Ok::<
                                Seq<IssueV>,
                                RuleError,
                            >(fv));
                            assert(out.deep_view() =~= iss_old + fv);
                        }
                    },
                    Err(e) => {
                        proof {
                            assert(rule_outcome(gv, rv[i as int], dv) == Err::<
                                Seq<IssueV>,
                                RuleError,
                            >(e));
                            lemma_evaluation_err(gv, rv, dv, i as int, e);
                        }
                        return Err(e);
                    },
                }
            },
        }
        i = i + 1;
        proof {
            assert(evaluation_of(gv, rv.take(i as int), dv) == Ok::<Seq<IssueV>, RuleError>(
                out.deep_view(),
            ));
        }
    }
    proof {
        assert(rv.take(rv.len() as int) =~= rv);
    }
    Ok(out)
}

/// A rule whose identifier resolves to no compiled-in rule contributes
/// nothing: dropping it from the document leaves the evaluation unchanged,
/// and the run does not abort on its account.
pub proof fn lemma_unknown_rule_ignored(
    g: GraphV,
    rules: Seq<RuleV>,
    defaults: DefaultsV,
    i: int,
)
    requires
        0 <= i < rules.len(),
        registry_lookup(builtins_table(), rules[i].rule_id) is None,
    ensures
        evaluation_of(g, rules, defaults) == evaluation_of(g, rules.remove(i), defaults),
    decreases rules.len(),
{
    if i == rules.len() - 1 {
        assert(rules.remove(i) =~= rules.drop_last());
        assert(rule_outcome(g, rules.last(), defaults) == Ok::<Seq<IssueV>, RuleError>(
            Seq::empty(),
        ));
        match evaluation_of(g, rules.drop_last(), defaults) {
            Ok(pre) => {
                assert(pre + Seq::<IssueV>::empty() =~= pre);
            },
            Err(_) => {},
        }
    } else {
        assert(rules.drop_last()[i] == rules[i]);
        lemma_unknown_rule_ignored(g, rules.drop_last(), defaults, i);
        let r2 = rules.remove(i);
        assert(r2.drop_last() =~= rules.drop_last().remove(i));
        assert(r2.last() == rules.last());
    }
}

/// Evaluation is a function of the graph and the rules document alone: two
/// runs over the same inputs yield the same issue list, item for item and
/// in the same order.
pub proof fn lemma_evaluation_deterministic(
    g: GraphV,
    rules: Seq<RuleV>,
    defaults: DefaultsV,
    r1: Seq<IssueV>,
    r2: Seq<IssueV>,
)
    requires
        evaluation_of(g, rules, defaults) == Ok::<Seq<IssueV>, RuleError>(r1),
        evaluation_of(g, rules, defaults) == Ok::<Seq<IssueV>, RuleError>(r2),
    ensures
        r1 == r2,
{
}

/// Once a rule fails, the whole evaluation reports that first failure,
/// whatever rules follow.
proof fn lemma_evaluation_err(g: GraphV, rules: Seq<RuleV>, defaults: DefaultsV, i: int, e: RuleError)
    requires
        0 <= i < rules.len(),
        evaluation_of(g, rules.take(i), defaults) is Ok,
        rule_outcome(g, rules[i], defaults) == Err::<Seq<IssueV>, RuleError>(e),
    ensures
        evaluation_of(g, rules, defaults) == Err::<Seq<IssueV>, RuleError>(e),
    decreases rules.len(),
{
    if i == rules.len() - 1 {
        assert(rules.take(i) =~= rules.drop_last());
        assert(rules.last() == rules[i]);
    } else {
        assert(rules.drop_last().take(i) =~= rules.take(i));
        assert(rules.drop_last()[i] == rules[i]);
        lemma_evaluation_err(g, rules.drop_last(), defaults, i, e);
    }
}

} // verus!
