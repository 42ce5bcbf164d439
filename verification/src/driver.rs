//! Running a program: what is planned for every stratum, and in which order it is done.
use vstd::prelude::*;

use crate::ir::{ids_below, Graph, Inst, InstId, Ir};
use crate::physical::{plans, Op, Plan};
use crate::plan_expr::{PlanError, PlanState};
use crate::planner::{rule_planned, Planner, Settings};
use crate::schedule::{is_recursive, relation_read, stratum_rules};
use crate::schedule::{premises_of, read_relation, recursive, rules_of, text_lists, texts};

verus! {

/// The plans of a stratum. Those of a recursive one are run once, then those over new rows are
/// repeated until nothing is new.
pub enum StratumPlan {
    NonRecursive(Vec<Op>),
    Recursive { initial_ops: Vec<Op>, delta_plans: Vec<Op> },
}

/// The model of a [`StratumPlan`].
pub enum StratumModel {
    NonRecursive(Seq<Plan>),
    Recursive { initial: Seq<Plan>, deltas: Seq<Plan> },
}

impl View for StratumPlan {
    type V = StratumModel;

    open spec fn view(&self) -> StratumModel {
        match self {
            StratumPlan::NonRecursive(ops) => StratumModel::NonRecursive(plans(ops@)),
            StratumPlan::Recursive { initial_ops, delta_plans } => StratumModel::Recursive {
                initial: plans(initial_ops@),
                deltas: plans(delta_plans@),
            },
        }
    }
}

/// The models of the plans of strata. A stratum without rules has none.
pub open spec fn stratum_models(v: Seq<Option<StratumPlan>>) -> Seq<Option<StratumModel>> {
    Seq::new(
        v.len(),
        |i: int|
            match v[i] {
                Some(p) => Some(p@),
                None => None,
            },
    )
}

/// The outcome of planning rules.
pub type RulePlans = Result<Seq<Plan>, PlanError>;

/// The outcome with the plan of one more rule.
pub open spec fn also_planned(s: Settings, g: Graph, so_far: RulePlans, rule: InstId) -> (Graph, RulePlans) {
    match so_far {
        Err(e) => (g, Err(e)),
        Ok(ps) => {
            let (p, r) = rule_planned(s, PlanState { g, fresh: 0 }, rule);
            match r {
                Ok(plan) => (p.g, Ok(ps.push(plan))),
                Err(e) => (p.g, Err(e)),
            }
        },
    }
}

/// The outcome of planning the first `n` rules.
pub open spec fn rules_planned(hash_join: bool, g: Graph, rules: Seq<InstId>, n: nat) -> (Graph, RulePlans)
    decreases n,
{
    if n == 0 {
        (g, Ok(Seq::empty()))
    } else {
        let (h, so_far) = rules_planned(hash_join, g, rules, (n - 1) as nat);
        also_planned(Settings { delta: None, at: None, hash_join }, h, so_far, rules[n - 1])
    }
}

/// The outcome of planning a rule over the new rows of each of its first `n` premises that
/// reads a relation of the stratum.
pub open spec fn rule_deltas(
    hash_join: bool,
    g: Graph,
    so_far: RulePlans,
    rule: InstId,
    premises: Seq<InstId>,
    names: Seq<Seq<char>>,
    n: nat,
) -> (Graph, RulePlans)
    decreases n,
{
    if n == 0 {
        (g, so_far)
    } else {
        let (h, before) = rule_deltas(hash_join, g, so_far, rule, premises, names, (n - 1) as nat);
        if before is Err {
            (h, before)
        } else {
            match read_relation(h, premises[n - 1], names) {
                Some(predicate) => also_planned(
                    Settings { delta: Some(predicate), at: Some((n - 1) as usize), hash_join },
                    h,
                    before,
                    rule,
                ),
                None => (h, before),
            }
        }
    }
}

/// The outcome of planning the first `n` rules over new rows.
pub open spec fn deltas_planned(hash_join: bool, g: Graph, rules: Seq<InstId>, names: Seq<Seq<char>>, n: nat) -> (
    Graph,
    RulePlans,
)
    decreases n,
{
    if n == 0 {
        (g, Ok(Seq::empty()))
    } else {
        let (h, before) = deltas_planned(hash_join, g, rules, names, (n - 1) as nat);
        if before is Err {
            (h, before)
        } else {
            let premises = premises_of(h, rules[n - 1]);
            rule_deltas(hash_join, h, before, rules[n - 1], premises, names, premises.len())
        }
    }
}

/// The outcome of planning a stratum.
pub open spec fn stratum_planned(hash_join: bool, g: Graph, names: Seq<Seq<char>>) -> (
    Graph,
    Result<Option<StratumModel>, PlanError>,
) {
    let rules = rules_of(g, names, g.nodes.len());
    if rules.len() == 0 {
        (g, Ok(None))
    } else {
        let (h, first) = rules_planned(hash_join, g, rules, rules.len());
        match first {
            Err(e) => (h, Err(e)),
            Ok(initial) => if !recursive(g, rules, names) {
                (h, Ok(Some(StratumModel::NonRecursive(initial))))
            } else {
                let (k, again) = deltas_planned(hash_join, h, rules, names, rules.len());
                match again {
                    Err(e) => (k, Err(e)),
                    Ok(deltas) => (k, Ok(Some(StratumModel::Recursive { initial, deltas }))),
                }
            },
        }
    }
}

/// The outcome of planning the first `n` strata: the first error, if there is one.
pub open spec fn strata_planned(hash_join: bool, g: Graph, strata: Seq<Seq<Seq<char>>>, n: nat) -> (
    Graph,
    Result<Seq<Option<StratumModel>>, PlanError>,
)
    decreases n,
{
    if n == 0 {
        (g, Ok(Seq::empty()))
    } else {
        let (h, before) = strata_planned(hash_join, g, strata, (n - 1) as nat);
        match before {
            Err(e) => (h, Err(e)),
            Ok(ps) => {
                let (k, one) = stratum_planned(hash_join, h, strata[n - 1]);
                match one {
                    Err(e) => (k, Err(e)),
                    Ok(p) => (k, Ok(ps.push(p))),
                }
            },
        }
    }
}

/// The model of the outcome of planning rules.
pub open spec fn plans_of(r: Result<Vec<Op>, PlanError>) -> RulePlans {
    match r {
        Ok(ops) => Ok(plans(ops@)),
        Err(e) => Err(e),
    }
}

/// Plans a rule and appends its plan.
fn plan_next(ir: &mut Ir, s: Settings, ops: &mut Vec<Op>, rule: InstId) -> (r: Result<(), PlanError>)
    requires
        s.delta is None ==> s.at is None,
        old(ir)@.wf(),
        old(ir)@.has(rule),
    ensures
        final(ir)@.wf(),
        old(ir)@.extended_by(final(ir)@),
        ({
            let (g, out) = also_planned(s, old(ir)@, RulePlans::Ok(plans(old(ops)@)), rule);
            &&& final(ir)@ == g
            &&& match r {
                Ok(_) => out == RulePlans::Ok(plans(final(ops)@)),
                Err(e) => out == RulePlans::Err(e),
            }
        }),
{
    let ghost before = plans(ops@);
    let mut planner = Planner::new(ir).with_hash_join(s.hash_join);
    if let Some(d) = s.delta {
        planner = match s.at {
            Some(place) => planner.with_delta_at(d, place),
            None => planner.with_delta(d),
        };
    }
    match planner.plan_rule(rule) {
        Ok(op) => {
            let ghost p = op@;
            ops.push(op);
            assert(plans(ops@) =~= before.push(p));
            Ok(())
        },
        Err(e) => Err(e),
    }
}

proof fn lemma_rules_fail(hash_join: bool, g: Graph, rules: Seq<InstId>, k: nat, n: nat)
    requires
        k <= n,
        rules_planned(hash_join, g, rules, k).1 is Err,
    ensures
        rules_planned(hash_join, g, rules, n) == rules_planned(hash_join, g, rules, k),
    decreases n,
{
    if k < n {
        lemma_rules_fail(hash_join, g, rules, k, (n - 1) as nat);
    }
}

/// Plans rules.
fn plan_all(ir: &mut Ir, hash_join: bool, rules: &Vec<InstId>) -> (r: Result<Vec<Op>, PlanError>)
    requires
        old(ir)@.wf(),
        ids_below(rules@, old(ir)@.nodes.len()),
    ensures
        final(ir)@.wf(),
        old(ir)@.extended_by(final(ir)@),
        (final(ir)@, plans_of(r)) == rules_planned(hash_join, old(ir)@, rules@, rules@.len()),
{
    let ghost g = ir@;
    let mut ops: Vec<Op> = Vec::new();
    let mut n: usize = 0;
    assert(plans(ops@) =~= Seq::<Plan>::empty());
    while n < rules.len()
        invariant
            ir@.wf(),
            g.extended_by(ir@),
            n <= rules@.len(),
            (ir@, RulePlans::Ok(plans(ops@))) == rules_planned(hash_join, g, rules@, n as nat),
        decreases rules@.len() - n,
    {
        match plan_next(ir, Settings { delta: None, at: None, hash_join }, &mut ops, rules[n]) {
            Ok(_) => {},
            Err(e) => {
                proof {
                    lemma_rules_fail(hash_join, g, rules@, (n + 1) as nat, rules@.len());
                }
                return Err(e);
            },
        }
        n += 1;
    }
    Ok(ops)
}

proof fn lemma_rule_deltas_fail(
    hash_join: bool,
    g: Graph,
    so_far: RulePlans,
    rule: InstId,
    premises: Seq<InstId>,
    names: Seq<Seq<char>>,
    k: nat,
    n: nat,
)
    requires
        k <= n,
        rule_deltas(hash_join, g, so_far, rule, premises, names, k).1 is Err,
    ensures
        rule_deltas(hash_join, g, so_far, rule, premises, names, n) == rule_deltas(
            hash_join,
            g,
            so_far,
            rule,
            premises,
            names,
            k,
        ),
    decreases n,
{
    if k < n {
        lemma_rule_deltas_fail(hash_join, g, so_far, rule, premises, names, k, (n - 1) as nat);
    }
}

proof fn lemma_deltas_fail(hash_join: bool, g: Graph, rules: Seq<InstId>, names: Seq<Seq<char>>, k: nat, n: nat)
    requires
        k <= n,
        deltas_planned(hash_join, g, rules, names, k).1 is Err,
    ensures
        deltas_planned(hash_join, g, rules, names, n) == deltas_planned(hash_join, g, rules, names, k),
    decreases n,
{
    if k < n {
        lemma_deltas_fail(hash_join, g, rules, names, k, (n - 1) as nat);
    }
}

/// Plans rules over new rows.
fn plan_all_deltas(ir: &mut Ir, hash_join: bool, rules: &Vec<InstId>, names: &Vec<String>) -> (r: Result<
    Vec<Op>,
    PlanError,
>)
    requires
        old(ir)@.wf(),
        ids_below(rules@, old(ir)@.nodes.len()),
    ensures
        final(ir)@.wf(),
        old(ir)@.extended_by(final(ir)@),
        (final(ir)@, plans_of(r)) == deltas_planned(
            hash_join,
            old(ir)@,
            rules@,
            texts(names@),
            rules@.len(),
        ),
{
    let ghost g = ir@;
    let ghost stratum = texts(names@);
    let mut ops: Vec<Op> = Vec::new();
    let mut n: usize = 0;
    assert(plans(ops@) =~= Seq::<Plan>::empty());
    while n < rules.len()
        invariant
            ir@.wf(),
            g.extended_by(ir@),
            n <= rules@.len(),
            (ir@, RulePlans::Ok(plans(ops@))) == deltas_planned(hash_join, g, rules@, stratum, n as nat),
        decreases rules@.len() - n,
    {
        let rule = rules[n];
        let ghost h = ir@;
        let ghost here = RulePlans::Ok(plans(ops@));
        proof {
            assert(h.nodes[rule.0 as int].fits(rule.0 as nat, h.names.len(), h.strings.len()));
        }
        let mut premises: Vec<InstId> = Vec::new();
        if let Inst::Rule { premises: found, .. } = ir.get(rule) {
            premises = crate::ir::copy_items(found);
        }
        assert(premises@ =~= premises_of(h, rule));
        let mut k: usize = 0;
        while k < premises.len()
            invariant
                ir@.wf(),
                h.extended_by(ir@),
                g.extended_by(ir@),
                k <= premises@.len(),
                (ir@, RulePlans::Ok(plans(ops@))) == rule_deltas(
                    hash_join,
                    h,
                    here,
                    rule,
                    premises@,
                    stratum,
                    k as nat,
                ),
            decreases premises@.len() - k,
        {
            if let Some(predicate) = relation_read(ir, premises[k], names) {
                match plan_next(ir, Settings { delta: Some(predicate), at: Some(k), hash_join }, &mut ops, rule) {
                    Ok(_) => {},
                    Err(e) => {
                        proof {
                            lemma_rule_deltas_fail(
                                hash_join,
                                h,
                                here,
                                rule,
                                premises@,
                                stratum,
                                (k + 1) as nat,
                                premises@.len(),
                            );
                            lemma_deltas_fail(
                                hash_join,
                                g,
                                rules@,
                                stratum,
                                (n + 1) as nat,
                                rules@.len(),
                            );
                        }
                        return Err(e);
                    },
                }
            }
            k += 1;
        }
        n += 1;
    }
    Ok(ops)
}

/// The model of the outcome of planning a stratum.
pub open spec fn stratum_of(r: Result<Option<StratumPlan>, PlanError>) -> Result<Option<StratumModel>, PlanError> {
    match r {
        Ok(Some(p)) => Ok(Some(p@)),
        Ok(None) => Ok(None),
        Err(e) => Err(e),
    }
}

/// Plans a stratum.
fn plan_stratum(ir: &mut Ir, hash_join: bool, names: &Vec<String>) -> (r: Result<
    Option<StratumPlan>,
    PlanError,
>)
    requires
        old(ir)@.wf(),
    ensures
        final(ir)@.wf(),
        old(ir)@.extended_by(final(ir)@),
        (final(ir)@, stratum_of(r)) == stratum_planned(hash_join, old(ir)@, texts(names@)),
{
    let rules = stratum_rules(ir, names);
    if rules.len() == 0 {
        return Ok(None);
    }
    let again = is_recursive(ir, &rules, names);
    match plan_all(ir, hash_join, &rules) {
        Err(e) => Err(e),
        Ok(initial_ops) => {
            if !again {
                return Ok(Some(StratumPlan::NonRecursive(initial_ops)));
            }
            match plan_all_deltas(ir, hash_join, &rules, names) {
                Err(e) => Err(e),
                Ok(delta_plans) => Ok(Some(StratumPlan::Recursive { initial_ops, delta_plans })),
            }
        },
    }
}

proof fn lemma_strata_fail(hash_join: bool, g: Graph, strata: Seq<Seq<Seq<char>>>, k: nat, n: nat)
    requires
        k <= n,
        strata_planned(hash_join, g, strata, k).1 is Err,
    ensures
        strata_planned(hash_join, g, strata, n) == strata_planned(hash_join, g, strata, k),
    decreases n,
{
    if k < n {
        lemma_strata_fail(hash_join, g, strata, k, (n - 1) as nat);
    }
}

/// Plans a stratified program. `strata` lists the names of the relations of every stratum.
pub fn plan_strata(ir: &mut Ir, hash_join: bool, strata: &Vec<Vec<String>>) -> (r: Result<
    Vec<Option<StratumPlan>>,
    PlanError,
>)
    requires
        old(ir)@.wf(),
    ensures
        final(ir)@.wf(),
        old(ir)@.extended_by(final(ir)@),
        ({
            let (g, out) = strata_planned(hash_join, old(ir)@, text_lists(strata@), strata@.len());
            &&& final(ir)@ == g
            &&& match r {
                Ok(ps) => out == Ok::<Seq<Option<StratumModel>>, PlanError>(stratum_models(ps@)),
                Err(e) => out == Err::<Seq<Option<StratumModel>>, PlanError>(e),
            }
        }),
{
    let ghost g = ir@;
    let ghost all = text_lists(strata@);
    let mut out: Vec<Option<StratumPlan>> = Vec::new();
    let mut n: usize = 0;
    assert(stratum_models(out@) =~= Seq::<Option<StratumModel>>::empty());
    while n < strata.len()
        invariant
            ir@.wf(),
            g.extended_by(ir@),
            n <= strata@.len(),
            (ir@, Ok::<Seq<Option<StratumModel>>, PlanError>(stratum_models(out@))) == strata_planned(
                hash_join,
                g,
                all,
                n as nat,
            ),
        decreases strata@.len() - n,
    {
        assert(all[n as int] == texts(strata@[n as int]@));
        let ghost before = stratum_models(out@);
        match plan_stratum(ir, hash_join, &strata[n]) {
            Ok(p) => {
                out.push(p);
                assert(stratum_models(out@).drop_last() =~= before);
                assert(stratum_models(out@) =~= before.push(stratum_models(out@).last()));
            },
            Err(e) => {
                proof {
                    lemma_strata_fail(hash_join, g, all, (n + 1) as nat, strata@.len());
                }
                return Err(e);
            },
        }
        n += 1;
    }
    Ok(out)
}

} // verus!
