//! What the plans of a program mean: each derives what one of its rules gives.
use vstd::prelude::*;

use crate::driver::{
    deltas_planned, rule_deltas, rules_planned, strata_planned, stratum_planned, RulePlans, StratumModel,
};
use crate::ir::{Graph, InstId, NameId, Node};
use crate::physical::Plan;
use crate::plan_expr::PlanState;
use crate::plan_laws::{lemma_plan_means, lemma_rule_state, plannable_at};
use crate::plan_meaning::{
    derives, new_reads, plain_vars, room, rule_gives, rule_is_safe, rule_news, rule_weight, World,
};
use crate::plan_terms::{lemma_fits, lemma_same, names_in, rule_places};
use crate::planner::{rule_planned, split, Settings};
use crate::schedule::{head_name, premises_of, read_relation, reads_stratum, recursive, rules_of};
use crate::value::Val;

verus! {

/// The rule has no groups, binds its variables before it uses them, and a machine can count its
/// premises.
pub open spec fn simple_rule(g: Graph, rule: InstId) -> bool {
    &&& g.has(rule)
    &&& g.node(rule) is Rule
    &&& rule_is_safe(g, rule)
    &&& split(g, g.node(rule)->Rule_transform, g.node(rule)->Rule_transform.len()).len() == 1
    &&& premises_of(g, rule).len() <= usize::MAX
}

/// Every rule is a simple one, and no variable is called like a temporary.
pub open spec fn simple_program(g: Graph) -> bool {
    &&& g.wf()
    &&& plain_vars(g)
    &&& forall|rule: InstId| g.has(rule) && g.node(rule) is Rule ==> #[trigger] simple_rule(g, rule)
}

/// So many times a number.
pub open spec fn times(n: nat, weight: nat) -> nat
    decreases n,
{
    if n == 0 {
        0
    } else {
        times((n - 1) as nat, weight) + weight
    }
}

/// How much there is to plan in the first `n` rules.
pub open spec fn rules_weight(g: Graph, rules: Seq<InstId>, n: nat) -> nat
    decreases n,
{
    if n == 0 {
        0
    } else {
        rules_weight(g, rules, (n - 1) as nat) + rule_weight(g, rules[n - 1])
    }
}

/// How much there is to plan in the first `n` rules over new rows.
pub open spec fn deltas_weight(g: Graph, rules: Seq<InstId>, n: nat) -> nat
    decreases n,
{
    if n == 0 {
        0
    } else {
        deltas_weight(g, rules, (n - 1) as nat) + times(
            premises_of(g, rules[n - 1]).len(),
            rule_weight(g, rules[n - 1]),
        )
    }
}

/// How much there is to plan in a stratum.
pub open spec fn stratum_weight(g: Graph, names: Seq<Seq<char>>) -> nat {
    let rules = rules_of(g, names, g.nodes.len());
    rules_weight(g, rules, rules.len()) + deltas_weight(g, rules, rules.len())
}

/// How much there is to plan in the first `n` strata.
pub open spec fn strata_weight(g: Graph, strata: Seq<Seq<Seq<char>>>, n: nat) -> nat
    decreases n,
{
    if n == 0 {
        0
    } else {
        strata_weight(g, strata, (n - 1) as nat) + stratum_weight(g, strata[n - 1])
    }
}

/// A graph once so much was planned.
pub open spec fn grown(g: Graph, h: Graph, used: nat) -> bool {
    &&& g.wf()
    &&& h.wf()
    &&& g.extended_by(h)
    &&& plain_vars(h)
    &&& rule_places(h.nodes) == rule_places(g.nodes)
    &&& h.names.len() <= g.names.len() + 2 * used
    &&& h.nodes.len() <= g.nodes.len() + used
}

/// There is room for so much planning.
pub open spec fn roomy(g: Graph, total: nat) -> bool {
    room(PlanState { g, fresh: 0 }, total)
}

/// Planning one more rule.
proof fn lemma_one(s: Settings, g: Graph, h: Graph, rule: InstId, used: nat, total: nat)
    requires
        simple_program(g),
        simple_rule(g, rule),
        grown(g, h, used),
        roomy(g, total),
        used + rule_weight(g, rule) <= total,
    ensures
        plannable_at(g, PlanState { g: h, fresh: 0 }, rule),
        grown(g, rule_planned(s, PlanState { g: h, fresh: 0 }, rule).0.g, used + rule_weight(g, rule)),
        h.extended_by(rule_planned(s, PlanState { g: h, fresh: 0 }, rule).0.g),
{
    let p = PlanState { g: h, fresh: 0 };
    assert(plannable_at(g, p, rule));
    lemma_rule_state(s, g, p, rule);
    let q = rule_planned(s, p, rule).0.g;
    lemma_extended(g, h, q);
}

/// A graph that extends one that extends another.
pub(crate) proof fn lemma_extended(a: Graph, b: Graph, c: Graph)
    requires
        a.extended_by(b),
        b.extended_by(c),
    ensures
        a.extended_by(c),
{
    assert(a.nodes =~= c.nodes.subrange(0, a.nodes.len() as int));
    assert(a.names =~= c.names.subrange(0, a.names.len() as int));
    assert(a.strings =~= c.strings.subrange(0, a.strings.len() as int));
}

/// A plan stands for a rule with some premises that are asked for new rows only: it derives what
/// the rule gives, whatever relations hold and functions compute.
pub open spec fn stands_for(names: Seq<Seq<char>>, plan: Plan, g: Graph, recent: Set<int>, rule: InstId) -> bool {
    forall|w: World, rel: NameId, row: Seq<Val>|
        #[trigger] derives(w, names, plan, Map::empty(), rel, row) <==> rule_gives(
            w,
            recent,
            g,
            rule,
            rel,
            row,
        )
}

/// The plan of one more rule.
proof fn lemma_one_stands(
    s: Settings,
    g: Graph,
    h: Graph,
    rule: InstId,
    used: nat,
    total: nat,
    names: Seq<Seq<char>>,
)
    requires
        simple_program(g),
        simple_rule(g, rule),
        grown(g, h, used),
        roomy(g, total),
        used + rule_weight(g, rule) <= total,
        rule_planned(s, PlanState { g: h, fresh: 0 }, rule).1 is Ok,
        names_in(rule_planned(s, PlanState { g: h, fresh: 0 }, rule).0.g, names),
    ensures
        stands_for(
            names,
            rule_planned(s, PlanState { g: h, fresh: 0 }, rule).1->Ok_0,
            g,
            rule_news(g, s, rule),
            rule,
        ),
{
    let p = PlanState { g: h, fresh: 0 };
    lemma_one(s, g, h, rule, used, total);
    let plan = rule_planned(s, p, rule).1->Ok_0;
    assert forall|w: World, rel: NameId, row: Seq<Val>| #[trigger] derives(
        w,
        names,
        plan,
        Map::empty(),
        rel,
        row,
    ) <==> rule_gives(w, rule_news(g, s, rule), g, rule, rel, row) by {
        lemma_plan_means(w, s, g, p, rule, names, rel, row);
    }
}

/// Names that hold those of a graph hold those of an earlier one.
proof fn lemma_names_in(g: Graph, later: Graph, names: Seq<Seq<char>>)
    requires
        g.extended_by(later),
        names_in(later, names),
    ensures
        names_in(g, names),
{
    assert(g.names =~= names.subrange(0, g.names.len() as int));
}

/// Every rule of a list is a simple one of the graph.
pub open spec fn simple_rules(g: Graph, rules: Seq<InstId>) -> bool {
    forall|i: int| 0 <= i < rules.len() ==> simple_rule(g, #[trigger] rules[i])
}

/// Planning rules.
pub(crate) proof fn lemma_rules_grown(hash_join: bool, g: Graph, h: Graph, rules: Seq<InstId>, n: nat, used: nat, total: nat)
    requires
        simple_program(g),
        simple_rules(g, rules),
        grown(g, h, used),
        roomy(g, total),
        n <= rules.len(),
        used + rules_weight(g, rules, n) <= total,
    ensures
        grown(g, rules_planned(hash_join, h, rules, n).0, used + rules_weight(g, rules, n)),
        h.extended_by(rules_planned(hash_join, h, rules, n).0),
    decreases n,
{
    if n > 0 {
        lemma_rules_grown(hash_join, g, h, rules, (n - 1) as nat, used, total);
        let (k, so_far) = rules_planned(hash_join, h, rules, (n - 1) as nat);
        let s = Settings { delta: None, at: None, hash_join };
        assert(simple_rule(g, rules[n - 1]));
        let now = used + rules_weight(g, rules, (n - 1) as nat);
        if so_far is Ok {
            lemma_one(s, g, k, rules[n - 1], now, total);
            lemma_extended(h, k, rule_planned(s, PlanState { g: k, fresh: 0 }, rules[n - 1]).0.g);
        }
    } else {
        assert(h.extended_by(h));
    }
}

/// The plans of rules stand for them.
pub(crate) proof fn lemma_rules_stand(
    hash_join: bool,
    g: Graph,
    h: Graph,
    rules: Seq<InstId>,
    n: nat,
    used: nat,
    total: nat,
    names: Seq<Seq<char>>,
)
    requires
        simple_program(g),
        simple_rules(g, rules),
        grown(g, h, used),
        roomy(g, total),
        n <= rules.len(),
        used + rules_weight(g, rules, n) <= total,
        rules_planned(hash_join, h, rules, n).1 is Ok,
        names_in(rules_planned(hash_join, h, rules, n).0, names),
    ensures
        rules_planned(hash_join, h, rules, n).1->Ok_0.len() == n,
        forall|i: int|
            0 <= i < n ==> stands_for(
                names,
                #[trigger] rules_planned(hash_join, h, rules, n).1->Ok_0[i],
                g,
                Set::empty(),
                rules[i],
            ),
    decreases n,
{
    if n > 0 {
        let (k, so_far) = rules_planned(hash_join, h, rules, (n - 1) as nat);
        let s = Settings { delta: None, at: None, hash_join };
        let rule = rules[n - 1];
        assert(simple_rule(g, rule));
        let now = used + rules_weight(g, rules, (n - 1) as nat);
        lemma_rules_grown(hash_join, g, h, rules, (n - 1) as nat, used, total);
        lemma_one(s, g, k, rule, now, total);
        lemma_names_in(k, rule_planned(s, PlanState { g: k, fresh: 0 }, rule).0.g, names);
        lemma_rules_stand(hash_join, g, h, rules, (n - 1) as nat, used, total, names);
        lemma_one_stands(s, g, k, rule, now, total, names);
        assert(rule_news(g, s, rule) =~= Set::<int>::empty());
        let ps = rules_planned(hash_join, h, rules, n).1->Ok_0;
        assert forall|i: int| 0 <= i < n implies stands_for(names, #[trigger] ps[i], g, Set::empty(), rules[i]) by {
            if i < n - 1 {
                assert(so_far->Ok_0[i] == ps[i]);
            }
        }
    }
}

/// Some plan of a list stands for a rule with the new rows of a premise.
pub open spec fn has_plan_for(
    names: Seq<Seq<char>>,
    plans: Seq<Plan>,
    hash_join: bool,
    g: Graph,
    rule: InstId,
    k: int,
    rel: NameId,
) -> bool {
    exists|d: int|
        0 <= d < plans.len() && stands_for(
            names,
            #[trigger] plans[d],
            g,
            new_reads(
                g,
                Settings { delta: Some(rel), at: Some(k as usize), hash_join },
                premises_of(g, rule),
            ),
            rule,
        )
}

/// The plan stands for one of the rules, with some premises that are asked for new rows only.
pub open spec fn stands_for_some(names: Seq<Seq<char>>, plan: Plan, g: Graph, rules: Seq<InstId>) -> bool {
    exists|i: int, recent: Set<int>|
        0 <= i < rules.len() && #[trigger] stands_for(names, plan, g, recent, #[trigger] rules[i])
}

/// Every plan stands for one of the rules.
pub open spec fn each_stands(names: Seq<Seq<char>>, plans: Seq<Plan>, g: Graph, rules: Seq<InstId>) -> bool {
    forall|d: int| 0 <= d < plans.len() ==> stands_for_some(names, #[trigger] plans[d], g, rules)
}

/// One more plan.
proof fn lemma_more_plans(
    names: Seq<Seq<char>>,
    plans: Seq<Plan>,
    plan: Plan,
    hash_join: bool,
    g: Graph,
    rule: InstId,
    k: int,
    rel: NameId,
)
    requires
        has_plan_for(names, plans, hash_join, g, rule, k, rel),
    ensures
        has_plan_for(names, plans.push(plan), hash_join, g, rule, k, rel),
{
    let recent = new_reads(
        g,
        Settings { delta: Some(rel), at: Some(k as usize), hash_join },
        premises_of(g, rule),
    );
    let d = choose|d: int| 0 <= d < plans.len() && stands_for(names, #[trigger] plans[d], g, recent, rule);
    assert(plans.push(plan)[d] == plans[d]);
}

/// Planning a rule over new rows.
proof fn lemma_rule_deltas_grown(
    hash_join: bool,
    g: Graph,
    h: Graph,
    so_far: RulePlans,
    rule: InstId,
    names: Seq<Seq<char>>,
    n: nat,
    used: nat,
    total: nat,
)
    requires
        simple_program(g),
        simple_rule(g, rule),
        grown(g, h, used),
        roomy(g, total),
        n <= premises_of(g, rule).len(),
        used + times(n, rule_weight(g, rule)) <= total,
    ensures
        grown(
            g,
            rule_deltas(hash_join, h, so_far, rule, premises_of(g, rule), names, n).0,
            used + times(n, rule_weight(g, rule)),
        ),
        h.extended_by(rule_deltas(hash_join, h, so_far, rule, premises_of(g, rule), names, n).0),
    decreases n,
{
    if n > 0 {
        let premises = premises_of(g, rule);
        lemma_rule_deltas_grown(hash_join, g, h, so_far, rule, names, (n - 1) as nat, used, total);
        let (k, before) = rule_deltas(hash_join, h, so_far, rule, premises, names, (n - 1) as nat);
        let now = used + times((n - 1) as nat, rule_weight(g, rule));
        if before is Ok {
            if let Some(predicate) = read_relation(k, premises[n - 1], names) {
                let s = Settings { delta: Some(predicate), at: Some((n - 1) as usize), hash_join };
                lemma_one(s, g, k, rule, now, total);
                lemma_extended(h, k, rule_planned(s, PlanState { g: k, fresh: 0 }, rule).0.g);
            }
        }
    } else {
        assert(h.extended_by(h));
    }
}

/// A premise reads the same in a later graph.
proof fn lemma_same_read(g: Graph, h: Graph, premise: InstId, names: Seq<Seq<char>>)
    requires
        g.wf(),
        g.extended_by(h),
        g.has(premise),
    ensures
        read_relation(h, premise, names) == read_relation(g, premise, names),
{
    lemma_fits(g, premise);
    lemma_same(g, h, premise);
}

/// The plans of a rule over new rows.
#[verifier::rlimit(30)]
proof fn lemma_rule_deltas_stand(
    hash_join: bool,
    g: Graph,
    h: Graph,
    so_far: RulePlans,
    rules: Seq<InstId>,
    i: int,
    stratum: Seq<Seq<char>>,
    n: nat,
    used: nat,
    total: nat,
    names: Seq<Seq<char>>,
)
    requires
        simple_program(g),
        0 <= i < rules.len(),
        simple_rule(g, rules[i]),
        grown(g, h, used),
        roomy(g, total),
        n <= premises_of(g, rules[i]).len(),
        used + times(n, rule_weight(g, rules[i])) <= total,
        so_far is Ok,
        each_stands(names, so_far->Ok_0, g, rules),
        rule_deltas(hash_join, h, so_far, rules[i], premises_of(g, rules[i]), stratum, n).1 is Ok,
        names_in(rule_deltas(hash_join, h, so_far, rules[i], premises_of(g, rules[i]), stratum, n).0, names),
    ensures
        ({
            let out = rule_deltas(hash_join, h, so_far, rules[i], premises_of(g, rules[i]), stratum, n).1->Ok_0;
            &&& each_stands(names, out, g, rules)
            &&& forall|k: int|
                0 <= k < n && read_relation(g, premises_of(g, rules[i])[k], stratum) is Some ==> #[trigger]
                has_plan_for(
                    names,
                    out,
                    hash_join,
                    g,
                    rules[i],
                    k,
                    read_relation(g, premises_of(g, rules[i])[k], stratum)->Some_0,
                )
            &&& forall|rule: InstId, k: int, rel: NameId|
                has_plan_for(names, so_far->Ok_0, hash_join, g, rule, k, rel) ==> #[trigger] has_plan_for(
                    names,
                    out,
                    hash_join,
                    g,
                    rule,
                    k,
                    rel,
                )
        }),
    decreases n,
{
    let rule = rules[i];
    let premises = premises_of(g, rule);
    if n > 0 {
        lemma_rule_deltas_grown(hash_join, g, h, so_far, rule, stratum, (n - 1) as nat, used, total);
        let (m, before) = rule_deltas(hash_join, h, so_far, rule, premises, stratum, (n - 1) as nat);
        let (e, out) = rule_deltas(hash_join, h, so_far, rule, premises, stratum, n);
        let now = used + times((n - 1) as nat, rule_weight(g, rule));
        lemma_fits(g, rule);
        lemma_same_read(g, m, premises[n - 1], stratum);
        match read_relation(m, premises[n - 1], stratum) {
            Some(predicate) => {
                let s = Settings { delta: Some(predicate), at: Some((n - 1) as usize), hash_join };
                lemma_one(s, g, m, rule, now, total);
                let (q, r) = rule_planned(s, PlanState { g: m, fresh: 0 }, rule);
                lemma_names_in(m, q.g, names);
                lemma_rule_deltas_stand(
                    hash_join,
                    g,
                    h,
                    so_far,
                    rules,
                    i,
                    stratum,
                    (n - 1) as nat,
                    used,
                    total,
                    names,
                );
                lemma_one_stands(s, g, m, rule, now, total, names);
                let old = before->Ok_0;
                let plan = r->Ok_0;
                assert(out->Ok_0 == old.push(plan));
                assert(rule_news(g, s, rule) == new_reads(g, s, premises));
                assert(stands_for(names, plan, g, new_reads(g, s, premises), rules[i]));
                assert(stands_for_some(names, plan, g, rules));
                assert(each_stands(names, out->Ok_0, g, rules)) by {
                    assert forall|d: int| 0 <= d < out->Ok_0.len() implies stands_for_some(
                        names,
                        #[trigger] out->Ok_0[d],
                        g,
                        rules,
                    ) by {
                        if d < old.len() {
                            assert(out->Ok_0[d] == old[d]);
                        }
                    }
                }
                assert forall|x: InstId, k: int, rel: NameId|
                    has_plan_for(names, old, hash_join, g, x, k, rel) implies #[trigger] has_plan_for(
                    names,
                    out->Ok_0,
                    hash_join,
                    g,
                    x,
                    k,
                    rel,
                ) by {
                    lemma_more_plans(names, old, plan, hash_join, g, x, k, rel);
                }
                assert(out->Ok_0[old.len() as int] == plan);
                assert(has_plan_for(names, out->Ok_0, hash_join, g, rule, n - 1, predicate));
                assert forall|k: int|
                    0 <= k < n && read_relation(g, premises[k], stratum) is Some implies #[trigger] has_plan_for(
                    names,
                    out->Ok_0,
                    hash_join,
                    g,
                    rule,
                    k,
                    read_relation(g, premises[k], stratum)->Some_0,
                ) by {
                    if k < n - 1 {
                        assert(has_plan_for(
                            names,
                            old,
                            hash_join,
                            g,
                            rule,
                            k,
                            read_relation(g, premises[k], stratum)->Some_0,
                        ));
                    }
                }
            },
            None => {
                lemma_rule_deltas_stand(
                    hash_join,
                    g,
                    h,
                    so_far,
                    rules,
                    i,
                    stratum,
                    (n - 1) as nat,
                    used,
                    total,
                    names,
                );
            },
        }
    }
}

/// Planning rules over new rows.
proof fn lemma_deltas_grown(
    hash_join: bool,
    g: Graph,
    h: Graph,
    rules: Seq<InstId>,
    stratum: Seq<Seq<char>>,
    n: nat,
    used: nat,
    total: nat,
)
    requires
        simple_program(g),
        simple_rules(g, rules),
        grown(g, h, used),
        roomy(g, total),
        n <= rules.len(),
        used + deltas_weight(g, rules, n) <= total,
    ensures
        grown(g, deltas_planned(hash_join, h, rules, stratum, n).0, used + deltas_weight(g, rules, n)),
        h.extended_by(deltas_planned(hash_join, h, rules, stratum, n).0),
    decreases n,
{
    if n > 0 {
        lemma_deltas_grown(hash_join, g, h, rules, stratum, (n - 1) as nat, used, total);
        let (k, before) = deltas_planned(hash_join, h, rules, stratum, (n - 1) as nat);
        let rule = rules[n - 1];
        assert(simple_rule(g, rule));
        let now = used + deltas_weight(g, rules, (n - 1) as nat);
        if before is Ok {
            lemma_same(g, k, rule);
            assert(premises_of(k, rule) == premises_of(g, rule));
            let m = premises_of(g, rule).len();
            lemma_rule_deltas_grown(hash_join, g, k, before, rule, stratum, m, now, total);
            lemma_extended(
                h,
                k,
                rule_deltas(hash_join, k, before, rule, premises_of(g, rule), stratum, m).0,
            );
        }
    } else {
        assert(h.extended_by(h));
    }
}

/// The plans over new rows have one for every premise of the first `n` rules that reads a
/// relation of the stratum.
pub open spec fn covers(
    names: Seq<Seq<char>>,
    plans: Seq<Plan>,
    hash_join: bool,
    g: Graph,
    rules: Seq<InstId>,
    stratum: Seq<Seq<char>>,
    n: nat,
) -> bool {
    forall|i: int, k: int|
        0 <= i < n && 0 <= k < premises_of(g, rules[i]).len() && read_relation(
            g,
            premises_of(g, rules[i])[k],
            stratum,
        ) is Some ==> #[trigger] has_plan_for(
            names,
            plans,
            hash_join,
            g,
            rules[i],
            k,
            read_relation(g, premises_of(g, rules[i])[k], stratum)->Some_0,
        )
}

/// The plans of rules over new rows.
#[verifier::rlimit(30)]
proof fn lemma_deltas_stand(
    hash_join: bool,
    g: Graph,
    h: Graph,
    rules: Seq<InstId>,
    stratum: Seq<Seq<char>>,
    n: nat,
    used: nat,
    total: nat,
    names: Seq<Seq<char>>,
)
    requires
        simple_program(g),
        simple_rules(g, rules),
        grown(g, h, used),
        roomy(g, total),
        n <= rules.len(),
        used + deltas_weight(g, rules, n) <= total,
        deltas_planned(hash_join, h, rules, stratum, n).1 is Ok,
        names_in(deltas_planned(hash_join, h, rules, stratum, n).0, names),
    ensures
        each_stands(names, deltas_planned(hash_join, h, rules, stratum, n).1->Ok_0, g, rules),
        covers(names, deltas_planned(hash_join, h, rules, stratum, n).1->Ok_0, hash_join, g, rules, stratum, n),
    decreases n,
{
    if n > 0 {
        lemma_deltas_grown(hash_join, g, h, rules, stratum, (n - 1) as nat, used, total);
        let (k, before) = deltas_planned(hash_join, h, rules, stratum, (n - 1) as nat);
        let rule = rules[n - 1];
        assert(simple_rule(g, rule));
        let now = used + deltas_weight(g, rules, (n - 1) as nat);
        lemma_same(g, k, rule);
        assert(premises_of(k, rule) == premises_of(g, rule));
        let m = premises_of(g, rule).len();
        lemma_rule_deltas_grown(hash_join, g, k, before, rule, stratum, m, now, total);
        let (e, out) = rule_deltas(hash_join, k, before, rule, premises_of(g, rule), stratum, m);
        lemma_names_in(k, e, names);
        lemma_deltas_stand(hash_join, g, h, rules, stratum, (n - 1) as nat, used, total, names);
        lemma_rule_deltas_stand(hash_join, g, k, before, rules, n - 1, stratum, m, now, total, names);
        assert(covers(names, out->Ok_0, hash_join, g, rules, stratum, n)) by {
            assert forall|i: int, j: int|
                0 <= i < n && 0 <= j < premises_of(g, rules[i]).len() && read_relation(
                    g,
                    premises_of(g, rules[i])[j],
                    stratum,
                ) is Some implies #[trigger] has_plan_for(
                names,
                out->Ok_0,
                hash_join,
                g,
                rules[i],
                j,
                read_relation(g, premises_of(g, rules[i])[j], stratum)->Some_0,
            ) by {
                if i < n - 1 {
                    assert(has_plan_for(
                        names,
                        before->Ok_0,
                        hash_join,
                        g,
                        rules[i],
                        j,
                        read_relation(g, premises_of(g, rules[i])[j], stratum)->Some_0,
                    ));
                }
            }
        }
    }
}

/// The rules of a stratum are simple ones that add to its relations.
pub(crate) proof fn lemma_rules_of(g: Graph, names: Seq<Seq<char>>, n: nat)
    requires
        simple_program(g),
        n <= g.nodes.len(),
    ensures
        simple_rules(g, rules_of(g, names, n)),
        forall|i: int|
            0 <= i < rules_of(g, names, n).len() ==> in_stratum(g, #[trigger] rules_of(g, names, n)[i], names),
    decreases n,
{
    if n > 0 {
        lemma_rules_of(g, names, (n - 1) as nat);
        let rest = rules_of(g, names, (n - 1) as nat);
        let all = rules_of(g, names, n);
        let id = InstId((n - 1) as usize);
        assert forall|i: int| 0 <= i < all.len() implies simple_rule(g, #[trigger] all[i]) && in_stratum(
            g,
            all[i],
            names,
        ) by {
            if i < rest.len() {
                assert(all[i] == rest[i]);
            } else {
                assert(all[i] == id);
                assert(g.has(id) && g.node(id) is Rule);
            }
        }
    }
}

/// The rule adds to a relation of the stratum.
pub open spec fn in_stratum(g: Graph, rule: InstId, names: Seq<Seq<char>>) -> bool {
    head_name(g, rule) matches Some(name) && names.contains(name)
}

/// A rule that adds to a relation of a stratum is among the rules of the stratum.
pub(crate) proof fn lemma_listed(g: Graph, names: Seq<Seq<char>>, n: nat, rule: InstId) -> (i: int)
    requires
        rule.0 < n <= g.nodes.len(),
        g.nodes.len() <= usize::MAX,
        in_stratum(g, rule, names),
    ensures
        0 <= i < rules_of(g, names, n).len(),
        rules_of(g, names, n)[i] == rule,
    decreases n,
{
    let rest = rules_of(g, names, (n - 1) as nat);
    let id = InstId((n - 1) as usize);
    if rule == id {
        rest.len() as int
    } else {
        lemma_listed(g, names, (n - 1) as nat, rule)
    }
}

/// A later graph has the same rules.
proof fn lemma_same_rules(g: Graph, h: Graph, names: Seq<Seq<char>>, n: nat, used: nat)
    requires
        grown(g, h, used),
        n <= h.nodes.len(),
    ensures
        rules_of(h, names, n) == rules_of(g, names, if n <= g.nodes.len() {
            n
        } else {
            g.nodes.len()
        }),
    decreases n,
{
    if n > 0 {
        lemma_same_rules(g, h, names, (n - 1) as nat, used);
        let id = InstId((n - 1) as usize);
        if n <= g.nodes.len() {
            lemma_same(g, h, id);
            lemma_fits(g, id);
            if let Node::Rule { head, .. } = g.node(id) {
                lemma_same(g, h, head);
                lemma_fits(g, head);
            }
        } else {
            assert(!rule_places(g.nodes).contains(n - 1));
            assert(!rule_places(h.nodes).contains(n - 1));
        }
    }
}

/// A stratum is recursive in a later graph if it is.
proof fn lemma_same_recursive(g: Graph, h: Graph, rules: Seq<InstId>, names: Seq<Seq<char>>)
    requires
        g.wf(),
        g.extended_by(h),
        simple_rules(g, rules),
    ensures
        recursive(h, rules, names) == recursive(g, rules, names),
{
    assert forall|i: int| 0 <= i < rules.len() implies reads_stratum(h, #[trigger] rules[i], names)
        == reads_stratum(g, rules[i], names) by {
        assert(simple_rule(g, rules[i]));
        lemma_same(g, h, rules[i]);
        lemma_fits(g, rules[i]);
        let premises = premises_of(g, rules[i]);
        assert(premises_of(h, rules[i]) == premises);
        assert forall|k: int| 0 <= k < premises.len() implies read_relation(h, #[trigger] premises[k], names)
            == read_relation(g, premises[k], names) by {
            lemma_same_read(g, h, premises[k], names);
        }
        if reads_stratum(g, rules[i], names) {
            let k = choose|k: int|
                0 <= k < premises_of(g, rules[i]).len() && read_relation(
                    g,
                    #[trigger] premises_of(g, rules[i])[k],
                    names,
                ) is Some;
            assert(read_relation(h, premises_of(h, rules[i])[k], names) is Some);
        }
        if reads_stratum(h, rules[i], names) {
            let k = choose|k: int|
                0 <= k < premises_of(h, rules[i]).len() && read_relation(
                    h,
                    #[trigger] premises_of(h, rules[i])[k],
                    names,
                ) is Some;
            assert(read_relation(g, premises_of(g, rules[i])[k], names) is Some);
        }
    }
}

/// The plans stand for the rules, one for each.
pub open spec fn all_stand(names: Seq<Seq<char>>, plans: Seq<Plan>, g: Graph, rules: Seq<InstId>) -> bool {
    &&& plans.len() == rules.len()
    &&& forall|i: int|
        0 <= i < plans.len() ==> stands_for(names, #[trigger] plans[i], g, Set::empty(), rules[i])
}

/// The plans of a stratum stand for its rules: those that are run once for the rules as they are,
/// and those that are repeated for each premise that reads a relation of the stratum.
pub open spec fn plans_stand(
    names: Seq<Seq<char>>,
    model: Option<StratumModel>,
    hash_join: bool,
    g: Graph,
    stratum: Seq<Seq<char>>,
) -> bool {
    let rules = rules_of(g, stratum, g.nodes.len());
    match model {
        None => rules.len() == 0,
        Some(StratumModel::NonRecursive(once)) => {
            &&& all_stand(names, once, g, rules)
            &&& !recursive(g, rules, stratum)
        },
        Some(StratumModel::Recursive { initial, deltas }) => {
            &&& all_stand(names, initial, g, rules)
            &&& each_stands(names, deltas, g, rules)
            &&& covers(names, deltas, hash_join, g, rules, stratum, rules.len())
            &&& recursive(g, rules, stratum)
        },
    }
}

/// Planning a stratum.
proof fn lemma_stratum_grown(hash_join: bool, g: Graph, h: Graph, stratum: Seq<Seq<char>>, used: nat, total: nat)
    requires
        simple_program(g),
        grown(g, h, used),
        roomy(g, total),
        used + stratum_weight(g, stratum) <= total,
    ensures
        grown(g, stratum_planned(hash_join, h, stratum).0, used + stratum_weight(g, stratum)),
        h.extended_by(stratum_planned(hash_join, h, stratum).0),
{
    let rules = rules_of(g, stratum, g.nodes.len());
    lemma_same_rules(g, h, stratum, h.nodes.len(), used);
    lemma_rules_of(g, stratum, g.nodes.len());
    assert(h.extended_by(h));
    if rules.len() > 0 {
        lemma_rules_grown(hash_join, g, h, rules, rules.len(), used, total);
        let (k, first) = rules_planned(hash_join, h, rules, rules.len());
        let now = used + rules_weight(g, rules, rules.len());
        lemma_deltas_grown(hash_join, g, k, rules, stratum, rules.len(), now, total);
        lemma_extended(h, k, deltas_planned(hash_join, k, rules, stratum, rules.len()).0);
    }
}

/// The plans of a stratum stand for its rules.
proof fn lemma_stratum_stands(
    hash_join: bool,
    g: Graph,
    h: Graph,
    stratum: Seq<Seq<char>>,
    used: nat,
    total: nat,
    names: Seq<Seq<char>>,
)
    requires
        simple_program(g),
        grown(g, h, used),
        roomy(g, total),
        used + stratum_weight(g, stratum) <= total,
        stratum_planned(hash_join, h, stratum).1 is Ok,
        names_in(stratum_planned(hash_join, h, stratum).0, names),
    ensures
        plans_stand(names, stratum_planned(hash_join, h, stratum).1->Ok_0, hash_join, g, stratum),
{
    let rules = rules_of(g, stratum, g.nodes.len());
    lemma_same_rules(g, h, stratum, h.nodes.len(), used);
    lemma_rules_of(g, stratum, g.nodes.len());
    lemma_same_recursive(g, h, rules, stratum);
    if rules.len() > 0 {
        lemma_rules_grown(hash_join, g, h, rules, rules.len(), used, total);
        let (k, first) = rules_planned(hash_join, h, rules, rules.len());
        let now = used + rules_weight(g, rules, rules.len());
        lemma_deltas_grown(hash_join, g, k, rules, stratum, rules.len(), now, total);
        let e = deltas_planned(hash_join, k, rules, stratum, rules.len()).0;
        if recursive(g, rules, stratum) {
            lemma_names_in(k, e, names);
            lemma_deltas_stand(hash_join, g, k, rules, stratum, rules.len(), now, total, names);
        }
        lemma_rules_stand(hash_join, g, h, rules, rules.len(), used, total, names);
    }
}

/// Planning strata.
proof fn lemma_strata_grown(hash_join: bool, g: Graph, strata: Seq<Seq<Seq<char>>>, n: nat, total: nat)
    requires
        simple_program(g),
        n <= strata.len(),
        roomy(g, total),
        strata_weight(g, strata, n) <= total,
    ensures
        grown(g, strata_planned(hash_join, g, strata, n).0, strata_weight(g, strata, n)),
    decreases n,
{
    if n > 0 {
        lemma_strata_grown(hash_join, g, strata, (n - 1) as nat, total);
        let (h, before) = strata_planned(hash_join, g, strata, (n - 1) as nat);
        if before is Ok {
            lemma_stratum_grown(
                hash_join,
                g,
                h,
                strata[n - 1],
                strata_weight(g, strata, (n - 1) as nat),
                total,
            );
        }
    } else {
        assert(g.extended_by(g));
    }
}

/// The plans of strata stand for their rules.
proof fn lemma_strata_stand(
    hash_join: bool,
    g: Graph,
    strata: Seq<Seq<Seq<char>>>,
    n: nat,
    total: nat,
    names: Seq<Seq<char>>,
)
    requires
        simple_program(g),
        n <= strata.len(),
        roomy(g, total),
        strata_weight(g, strata, n) <= total,
        strata_planned(hash_join, g, strata, n).1 is Ok,
        names_in(strata_planned(hash_join, g, strata, n).0, names),
    ensures
        strata_planned(hash_join, g, strata, n).1->Ok_0.len() == n,
        forall|s: int|
            0 <= s < n ==> plans_stand(
                names,
                #[trigger] strata_planned(hash_join, g, strata, n).1->Ok_0[s],
                hash_join,
                g,
                strata[s],
            ),
    decreases n,
{
    if n > 0 {
        let (h, before) = strata_planned(hash_join, g, strata, (n - 1) as nat);
        let used = strata_weight(g, strata, (n - 1) as nat);
        lemma_strata_grown(hash_join, g, strata, (n - 1) as nat, total);
        lemma_stratum_grown(hash_join, g, h, strata[n - 1], used, total);
        lemma_names_in(h, stratum_planned(hash_join, h, strata[n - 1]).0, names);
        lemma_strata_stand(hash_join, g, strata, (n - 1) as nat, total, names);
        lemma_stratum_stands(hash_join, g, h, strata[n - 1], used, total, names);
        let all = strata_planned(hash_join, g, strata, n).1->Ok_0;
        assert forall|s: int| 0 <= s < n implies plans_stand(names, #[trigger] all[s], hash_join, g, strata[s]) by {
            if s < n - 1 {
                assert(all[s] == before->Ok_0[s]);
            }
        }
    }
}

/// The program can be planned to its meaning: its rules are simple ones, there is room for the
/// names and instructions that planning makes, and planning succeeds.
pub open spec fn planned_well(hash_join: bool, g: Graph, strata: Seq<Seq<Seq<char>>>) -> bool {
    &&& simple_program(g)
    &&& roomy(g, strata_weight(g, strata, strata.len()))
    &&& strata_planned(hash_join, g, strata, strata.len()).1 is Ok
}

/// The plans of a program stand for its rules, stratum by stratum: each derives what a rule
/// gives, whatever relations hold and functions compute.
pub proof fn plans_stand_for_rules(hash_join: bool, g: Graph, strata: Seq<Seq<Seq<char>>>)
    requires
        planned_well(hash_join, g, strata),
    ensures
        ({
            let (h, out) = strata_planned(hash_join, g, strata, strata.len());
            &&& h.wf()
            &&& g.extended_by(h)
            &&& out->Ok_0.len() == strata.len()
            &&& forall|s: int|
                0 <= s < strata.len() ==> plans_stand(
                    h.names,
                    #[trigger] out->Ok_0[s],
                    hash_join,
                    g,
                    strata[s],
                )
        }),
{
    let n = strata.len();
    let total = strata_weight(g, strata, n);
    lemma_strata_grown(hash_join, g, strata, n, total);
    let h = strata_planned(hash_join, g, strata, n).0;
    assert(h.names =~= h.names.subrange(0, h.names.len() as int));
    lemma_strata_stand(hash_join, g, strata, n, total, h.names);
}

} // verus!
