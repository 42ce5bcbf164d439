//! What the plans of a program do, run in their order and with their loops: they leave relations
//! that are closed under the rules of the program.
use vstd::prelude::*;

use crate::driver::{
    deltas_planned, rule_deltas, rules_planned, strata_planned, stratum_planned, RulePlans, StratumModel,
};
use crate::ir::{Graph, InstId, NameId};
use crate::physical::Plan;
use crate::plan_meaning::{derives, new_reads, rule_gives, World};
use crate::planner::Settings;
use crate::program_laws::{denies, head_relation};
use crate::program_plans::{
    all_stand, covers, each_stands, grown, has_plan_for, in_stratum, lemma_listed,
    lemma_rules_grown, lemma_rules_of, lemma_rules_stand, planned_well, plans_stand, plans_stand_for_rules, roomy, rules_weight,
    simple_program, simple_rule, stands_for, stands_for_some,
};
use crate::round_laws::{
    a_rule_sees_what_it_reads, has_new, is_new, more_rows_give_more, premise_reads, reads_new_rows,
    relation_read, rule_reads, what_is_new_comes_from_new_rows,
};
use crate::schedule::{
    all_rules, loops_fit, premises_of, read_relation, reads_stratum, recursive, rules_of, scheduled, strata_scheduled,
    with_all_deltas, with_deltas, with_rules, with_stratum, Planning, Scheduled,
};
use crate::value::Val;

verus! {

/// Rows as a host shows them while plans run: all rows, the new ones among them, and those that
/// were added since new ones were last made.
#[verifier::ext_equal]
pub struct Shown {
    pub rows: Set<(NameId, Seq<Val>)>,
    pub new: Set<(NameId, Seq<Val>)>,
    pub added: Set<(NameId, Seq<Val>)>,
}

/// What a plan sees of the rows.
pub open spec fn sight(base: World, rows: Set<(NameId, Seq<Val>)>, new: Set<(NameId, Seq<Val>)>) -> World {
    World {
        rows: |rel: NameId, row: Seq<Val>| rows.contains((rel, row)),
        delta: |rel: NameId, row: Seq<Val>| new.contains((rel, row)),
        ..base
    }
}

/// What a plan derives from the rows that it sees.
pub open spec fn got(base: World, names: Seq<Seq<char>>, plan: Plan, st: Shown) -> Set<(NameId, Seq<Val>)> {
    Set::new(
        |x: (NameId, Seq<Val>)|
            derives(sight(base, st.rows, st.new), names, plan, Map::empty(), x.0, x.1),
    )
}

/// The rows once a plan is run: what it derives is there, and what was not there is added.
pub open spec fn ran(base: World, names: Seq<Seq<char>>, plan: Plan, st: Shown) -> Shown {
    Shown {
        rows: st.rows.union(got(base, names, plan, st)),
        new: st.new,
        added: st.added.union(got(base, names, plan, st).difference(st.rows)),
    }
}

/// The rows once those that were added are the new ones.
pub open spec fn merged(st: Shown) -> Shown {
    Shown { rows: st.rows, new: st.added, added: Set::empty() }
}

/// The rows once the plans from `lo` to before `hi` are run.
pub open spec fn ran_all(
    base: World,
    names: Seq<Seq<char>>,
    plans: Seq<Plan>,
    lo: nat,
    hi: nat,
    st: Shown,
) -> Shown
    decreases hi,
{
    if hi <= lo {
        st
    } else {
        ran(base, names, plans[hi - 1], ran_all(base, names, plans, lo, (hi - 1) as nat, st))
    }
}

/// The rows once a loop over plans is repeated `n` times; each time, what was added becomes new.
pub open spec fn repeated(
    base: World,
    names: Seq<Seq<char>>,
    plans: Seq<Plan>,
    lo: nat,
    hi: nat,
    st: Shown,
    n: nat,
) -> Shown
    decreases n,
{
    if n == 0 {
        st
    } else {
        merged(ran_all(base, names, plans, lo, hi, repeated(base, names, plans, lo, hi, st, (n - 1) as nat)))
    }
}

/// Whether the plans from `i` on, with the loops from `k` on, leave these rows: a plan is run
/// once, and a loop is repeated, `counts` times, until nothing is new.
pub open spec fn leaves(
    base: World,
    names: Seq<Seq<char>>,
    sc: Scheduled,
    counts: Seq<nat>,
    i: nat,
    k: nat,
    st: Shown,
    end: Shown,
) -> bool
    decreases sc.plans.len() - i, sc.loops.len() - k,
    when loops_fit(sc.loops, sc.plans.len())
{
    if i >= sc.plans.len() {
        end == st
    } else if k < sc.loops.len() && sc.loops[k as int].0 == i {
        let hi = sc.loops[k as int].1;
        let after = repeated(base, names, sc.plans, i, hi, merged(st), counts[k as int]);
        after.new == Set::<(NameId, Seq<Val>)>::empty() && leaves(
            base,
            names,
            sc,
            counts,
            hi,
            k + 1,
            after,
            end,
        )
    } else {
        leaves(base, names, sc, counts, i + 1, k, ran(base, names, sc.plans[i as int], st), end)
    }
}

/// All that the rule gives on the rows is among them.
pub open spec fn closed_under(base: World, g: Graph, rule: InstId, st: Shown) -> bool {
    forall|rel: NameId, row: Seq<Val>| #[trigger]
        rule_gives(sight(base, st.rows, st.new), Set::empty(), g, rule, rel, row) ==> st.rows.contains(
            (rel, row),
        )
}

/// The rule stands in its stratum `t`: it reads no relation of a later stratum, and denies none
/// of its own.
pub open spec fn stands_in(g: Graph, strata: Seq<Seq<Seq<char>>>, t: int, rule: InstId) -> bool {
    &&& 0 <= t < strata.len()
    &&& g.has(rule)
    &&& in_stratum(g, rule, strata[t])
    &&& forall|rel: NameId, s: int|
        #[trigger] rule_reads(g, rule, rel) && t < s < strata.len() ==> !#[trigger] strata[s].contains(
            g.name(rel),
        )
    &&& forall|rel: NameId| #[trigger] denies(g, rule, rel) ==> !strata[t].contains(g.name(rel))
}

/// The plans of a stratum that are run once.
spec fn once(model: Option<StratumModel>) -> Seq<Plan> {
    match model {
        None => Seq::empty(),
        Some(StratumModel::NonRecursive(plans)) => plans,
        Some(StratumModel::Recursive { initial, .. }) => initial,
    }
}

/// The plans of a stratum that are repeated.
spec fn again(model: Option<StratumModel>) -> Seq<Plan> {
    match model {
        Some(StratumModel::Recursive { deltas, .. }) => deltas,
        _ => Seq::empty(),
    }
}

/// The plans of the first `n` strata.
spec fn flat(models: Seq<Option<StratumModel>>, n: nat) -> Seq<Plan>
    decreases n,
{
    if n == 0 {
        Seq::empty()
    } else {
        flat(models, (n - 1) as nat) + once(models[n - 1]) + again(models[n - 1])
    }
}

/// The loops of the first `n` strata.
spec fn loops_in(models: Seq<Option<StratumModel>>, n: nat) -> Seq<(nat, nat)>
    decreases n,
{
    if n == 0 {
        Seq::empty()
    } else {
        let before = loops_in(models, (n - 1) as nat);
        match models[n - 1] {
            Some(StratumModel::Recursive { initial, deltas }) => before.push(
                (flat(models, (n - 1) as nat).len() + initial.len(), flat(models, n).len()),
            ),
            _ => before,
        }
    }
}

/// Where every rule can be planned, the plans of rules are those that are made one after the
/// other.
proof fn lemma_rules(hash_join: bool, g: Graph, plans: Seq<Plan>, rules: Seq<InstId>, n: nat)
    requires
        n <= rules.len(),
        rules_planned(hash_join, g, rules, n).1 is Ok,
    ensures
        with_rules(hash_join, Planning { g, plans }, rules, n).g == rules_planned(hash_join, g, rules, n).0,
        with_rules(hash_join, Planning { g, plans }, rules, n).plans == plans + rules_planned(
            hash_join,
            g,
            rules,
            n,
        ).1->Ok_0,
    decreases n,
{
    if n == 0 {
        assert(plans + Seq::<Plan>::empty() =~= plans);
    } else {
        lemma_rules(hash_join, g, plans, rules, (n - 1) as nat);
        let before = rules_planned(hash_join, g, rules, (n - 1) as nat).1->Ok_0;
        let all = rules_planned(hash_join, g, rules, n).1->Ok_0;
        assert(all == before.push(all.last()));
        assert((plans + before).push(all.last()) =~= plans + all);
    }
}

/// The same of a rule over new rows.
proof fn lemma_rule_deltas(
    hash_join: bool,
    g: Graph,
    plans: Seq<Plan>,
    so_far: Seq<Plan>,
    rule: InstId,
    premises: Seq<InstId>,
    names: Seq<Seq<char>>,
    n: nat,
)
    requires
        n <= premises.len(),
        rule_deltas(hash_join, g, RulePlans::Ok(so_far), rule, premises, names, n).1 is Ok,
    ensures
        ({
            let st = with_deltas(hash_join, Planning { g, plans: plans + so_far }, rule, premises, names, n);
            let (h, out) = rule_deltas(hash_join, g, RulePlans::Ok(so_far), rule, premises, names, n);
            &&& st.g == h
            &&& st.plans == plans + out->Ok_0
        }),
    decreases n,
{
    if n > 0 {
        lemma_rule_deltas(hash_join, g, plans, so_far, rule, premises, names, (n - 1) as nat);
        let (h, before) = rule_deltas(
            hash_join,
            g,
            RulePlans::Ok(so_far),
            rule,
            premises,
            names,
            (n - 1) as nat,
        );
        let out = rule_deltas(hash_join, g, RulePlans::Ok(so_far), rule, premises, names, n).1->Ok_0;
        if read_relation(h, premises[n - 1], names) is Some {
            assert(out == before->Ok_0.push(out.last()));
            assert((plans + before->Ok_0).push(out.last()) =~= plans + out);
        }
    }
}

/// The same of rules over new rows.
proof fn lemma_deltas(
    hash_join: bool,
    g: Graph,
    plans: Seq<Plan>,
    rules: Seq<InstId>,
    names: Seq<Seq<char>>,
    n: nat,
)
    requires
        n <= rules.len(),
        deltas_planned(hash_join, g, rules, names, n).1 is Ok,
    ensures
        ({
            let st = with_all_deltas(hash_join, Planning { g, plans }, rules, names, n);
            let (h, out) = deltas_planned(hash_join, g, rules, names, n);
            &&& st.g == h
            &&& st.plans == plans + out->Ok_0
        }),
    decreases n,
{
    if n == 0 {
        assert(plans + Seq::<Plan>::empty() =~= plans);
    } else {
        lemma_deltas(hash_join, g, plans, rules, names, (n - 1) as nat);
        let (h, before) = deltas_planned(hash_join, g, rules, names, (n - 1) as nat);
        let premises = premises_of(h, rules[n - 1]);
        lemma_rule_deltas(hash_join, h, plans, before->Ok_0, rules[n - 1], premises, names, premises.len());
    }
}

/// The schedule of a program that can be planned has the plans of its strata, in turn.
proof fn lemma_schedule(hash_join: bool, g: Graph, strata: Seq<Seq<Seq<char>>>, n: nat)
    requires
        n <= strata.len(),
        strata_planned(hash_join, g, strata, n).1 is Ok,
    ensures
        ({
            let sc = strata_scheduled(hash_join, g, strata, n);
            let (h, models) = strata_planned(hash_join, g, strata, n);
            &&& models->Ok_0.len() == n
            &&& sc.g == h
            &&& sc.plans == flat(models->Ok_0, n)
            &&& sc.loops == loops_in(models->Ok_0, n)
        }),
    decreases n,
{
    if n > 0 {
        lemma_schedule(hash_join, g, strata, (n - 1) as nat);
        let (h, before) = strata_planned(hash_join, g, strata, (n - 1) as nat);
        let was = strata_scheduled(hash_join, g, strata, (n - 1) as nat);
        let models = strata_planned(hash_join, g, strata, n).1->Ok_0;
        let one = stratum_planned(hash_join, h, strata[n - 1]).1->Ok_0;
        assert(models == before->Ok_0.push(one));
        lemma_same_flat(before->Ok_0, models, (n - 1) as nat);
        let rules = rules_of(h, strata[n - 1], h.nodes.len());
        let sc = with_stratum(hash_join, was, strata[n - 1]);
        if rules.len() == 0 {
            assert(flat(models, n) =~= flat(models, (n - 1) as nat));
        } else {
            lemma_rules(hash_join, h, was.plans, rules, rules.len());
            let (k, first) = rules_planned(hash_join, h, rules, rules.len());
            if recursive(h, rules, strata[n - 1]) {
                lemma_deltas(hash_join, k, was.plans + first->Ok_0, rules, strata[n - 1], rules.len());
            }
            assert(sc.plans =~= flat(models, n));
            assert(sc.loops =~= loops_in(models, n));
        }
    }
}

/// What the first strata have does not depend on later ones.
proof fn lemma_same_flat(a: Seq<Option<StratumModel>>, b: Seq<Option<StratumModel>>, n: nat)
    requires
        n <= a.len(),
        n <= b.len(),
        forall|i: int| 0 <= i < n ==> a[i] == b[i],
    ensures
        flat(a, n) == flat(b, n),
        loops_in(a, n) == loops_in(b, n),
    decreases n,
{
    if n > 0 {
        lemma_same_flat(a, b, (n - 1) as nat);
    }
}

/// Where the plans and the loop of a stratum are among all.
proof fn lemma_part(models: Seq<Option<StratumModel>>, s: nat, n: nat)
    requires
        s < n <= models.len(),
    ensures
        flat(models, s + 1).len() <= flat(models, n).len(),
        flat(models, s).len() + once(models[s as int]).len() + again(models[s as int]).len() == flat(
            models,
            s + 1,
        ).len(),
        forall|j: int|
            0 <= j < once(models[s as int]).len() ==> #[trigger] flat(models, n)[flat(models, s).len() + j]
                == once(models[s as int])[j],
        forall|j: int|
            0 <= j < again(models[s as int]).len() ==> #[trigger] flat(models, n)[flat(models, s).len()
                + once(models[s as int]).len() + j] == again(models[s as int])[j],
        loops_in(models, s + 1).len() <= loops_in(models, n).len(),
        loops_in(models, s).len() <= loops_in(models, s + 1).len(),
        models[s as int] matches Some(StratumModel::Recursive { .. }) ==> loops_in(models, s + 1).len()
            == loops_in(models, s).len() + 1 && loops_in(models, n)[loops_in(models, s).len() as int] == (
            flat(models, s).len() + once(models[s as int]).len(),
            flat(models, s + 1).len(),
        ),
        !(models[s as int] matches Some(StratumModel::Recursive { .. })) ==> loops_in(models, s + 1)
            == loops_in(models, s),
        forall|l: int|
            loops_in(models, s + 1).len() <= l < loops_in(models, n).len() ==> (#[trigger] loops_in(
                models,
                n,
            )[l]).0 >= flat(models, s + 1).len(),
    decreases n - s,
{
    let here = flat(models, s + 1);
    assert(here == flat(models, s) + once(models[s as int]) + again(models[s as int]));
    if n > s + 1 {
        lemma_part(models, s, (n - 1) as nat);
        lemma_part(models, (n - 1) as nat, n);
        let before = flat(models, (n - 1) as nat);
        let all = flat(models, n);
        assert(all == before + once(models[n - 1]) + again(models[n - 1]));
        assert forall|j: int| 0 <= j < before.len() implies all[j] == before[j] by {}
        assert forall|j: int| 0 <= j < once(models[s as int]).len() implies #[trigger] all[flat(models, s).len()
            + j] == once(models[s as int])[j] by {
            assert(before[flat(models, s).len() + j] == once(models[s as int])[j]);
        }
        assert forall|j: int| 0 <= j < again(models[s as int]).len() implies #[trigger] all[flat(models, s).len()
            + once(models[s as int]).len() + j] == again(models[s as int])[j] by {
            assert(before[flat(models, s).len() + once(models[s as int]).len() + j] == again(
                models[s as int],
            )[j]);
        }
        let ls = loops_in(models, n);
        let bs = loops_in(models, (n - 1) as nat);
        assert forall|l: int| loops_in(models, s + 1).len() <= l < ls.len() implies (#[trigger] ls[l]).0
            >= flat(models, s + 1).len() by {
            if l < bs.len() {
                assert(ls[l] == bs[l]);
            }
        }
    }
}

/// The schedule has a place for every stratum: where its plans begin.
spec fn place(models: Seq<Option<StratumModel>>, s: int) -> int {
    flat(models, s as nat).len() as int
}

/// For every stratum the schedule has plans that stand for its rules, one for each, and, if a rule
/// of the stratum reads a relation of it, a loop right behind them. For each rule and each premise
/// of it that reads a relation of the stratum, that loop holds a plan that stands for the rule over
/// the new rows at that premise.
pub proof fn a_recursive_stratum_has_its_loop(
    hash_join: bool,
    g: Graph,
    strata: Seq<Seq<Seq<char>>>,
    s: int,
) -> (start: int)
    requires
        planned_well(hash_join, g, strata),
        0 <= s < strata.len(),
    ensures
        ({
            let sc = scheduled(hash_join, g, Some(strata));
            let rules = rules_of(g, strata[s], g.nodes.len());
            let lo = start + rules.len();
            &&& 0 <= start <= lo <= sc.plans.len()
            &&& all_stand(sc.g.names, sc.plans.subrange(start, lo), g, rules)
            &&& (exists|i: int| 0 <= i < rules.len() && reads_stratum(g, #[trigger] rules[i], strata[s]))
                ==> exists|l: int|
                0 <= l < sc.loops.len() && (#[trigger] sc.loops[l]).0 == lo && lo <= sc.loops[l].1
                    <= sc.plans.len() && covers(
                    sc.g.names,
                    sc.plans.subrange(lo, sc.loops[l].1 as int),
                    hash_join,
                    g,
                    rules,
                    strata[s],
                    rules.len(),
                )
        }),
{
    let sc = scheduled(hash_join, g, Some(strata));
    let n = strata.len();
    lemma_schedule(hash_join, g, strata, n);
    plans_stand_for_rules(hash_join, g, strata);
    let models = strata_planned(hash_join, g, strata, n).1->Ok_0;
    let rules = rules_of(g, strata[s], g.nodes.len());
    assert(plans_stand(sc.g.names, models[s], hash_join, g, strata[s]));
    lemma_part(models, s as nat, n);
    let start = place(models, s);
    let first = once(models[s]);
    let lo = start + rules.len();
    assert(first.len() == rules.len());
    assert(sc.plans.subrange(start, lo) =~= first) by {
        assert forall|j: int| 0 <= j < first.len() implies sc.plans.subrange(start, lo)[j] == first[j] by {
            assert(sc.plans[flat(models, s as nat).len() + j] == first[j]);
        }
    }
    if exists|i: int| 0 <= i < rules.len() && reads_stratum(g, #[trigger] rules[i], strata[s]) {
        assert(recursive(g, rules, strata[s]));
        let l = loops_in(models, s as nat).len() as int;
        let more = again(models[s]);
        let hi = sc.loops[l].1 as int;
        assert(sc.plans.subrange(lo, hi) =~= more) by {
            assert forall|j: int| 0 <= j < more.len() implies sc.plans.subrange(lo, hi)[j] == more[j] by {
                assert(sc.plans[flat(models, s as nat).len() + first.len() + j] == more[j]);
            }
        }
        assert(sc.loops[l].0 == lo);
    }
    start
}

/// What a plan derives are rows of the stratum.
spec fn derives_own(base: World, names: Seq<Seq<char>>, plan: Plan, g: Graph, own: Seq<Seq<char>>) -> bool {
    forall|st: Shown, x: (NameId, Seq<Val>)| #[trigger]
        got(base, names, plan, st).contains(x) ==> own.contains(g.name(x.0))
}

/// Plans that derive rows of the stratum.
spec fn all_derive_own(
    base: World,
    names: Seq<Seq<char>>,
    plans: Seq<Plan>,
    lo: int,
    hi: int,
    g: Graph,
    own: Seq<Seq<char>>,
) -> bool {
    forall|d: int| lo <= d < hi ==> derives_own(base, names, #[trigger] plans[d], g, own)
}

/// There are more rows, and these are rows of the stratum.
spec fn grew(g: Graph, own: Seq<Seq<char>>, st: Shown, after: Shown) -> bool {
    &&& forall|x: (NameId, Seq<Val>)| #[trigger] st.rows.contains(x) ==> after.rows.contains(x)
    &&& forall|x: (NameId, Seq<Val>)| #[trigger]
        after.rows.contains(x) && !st.rows.contains(x) ==> own.contains(g.name(x.0))
}

/// What the rule gives on some of the rows is there, and the other rows are recent ones of the
/// stratum.
spec fn settled(
    base: World,
    g: Graph,
    rule: InstId,
    own: Seq<Seq<char>>,
    b: Set<(NameId, Seq<Val>)>,
    rows: Set<(NameId, Seq<Val>)>,
    recent: Set<(NameId, Seq<Val>)>,
) -> bool {
    &&& forall|x: (NameId, Seq<Val>)| #[trigger] b.contains(x) ==> rows.contains(x)
    &&& forall|rel: NameId, row: Seq<Val>| #[trigger]
        rule_gives(sight(base, b, Set::empty()), Set::empty(), g, rule, rel, row) ==> rows.contains((rel, row))
    &&& forall|x: (NameId, Seq<Val>)| #[trigger]
        rows.contains(x) && !b.contains(x) ==> recent.contains(x) && own.contains(g.name(x.0))
}

/// A plan that stands for a rule of a stratum derives rows of its relations.
proof fn lemma_derives_own(
    base: World,
    names: Seq<Seq<char>>,
    plan: Plan,
    g: Graph,
    rules: Seq<InstId>,
    own: Seq<Seq<char>>,
)
    requires
        stands_for_some(names, plan, g, rules),
        forall|i: int| 0 <= i < rules.len() ==> in_stratum(g, #[trigger] rules[i], own),
    ensures
        derives_own(base, names, plan, g, own),
{
    let (i, recent) = choose|i: int, recent: Set<int>|
        0 <= i < rules.len() && #[trigger] stands_for(names, plan, g, recent, #[trigger] rules[i]);
    assert forall|st: Shown, x: (NameId, Seq<Val>)| #[trigger]
        got(base, names, plan, st).contains(x) implies own.contains(g.name(x.0)) by {
        let w = sight(base, st.rows, st.new);
        assert(derives(w, names, plan, Map::empty(), x.0, x.1));
        assert(rule_gives(w, recent, g, rules[i], x.0, x.1));
        assert(head_relation(g, rules[i]) == Some(x.0));
        assert(in_stratum(g, rules[i], own));
    }
}

/// The rows that were new do not matter to what a rule gives on all.
proof fn lemma_any_new(
    base: World,
    rows: Set<(NameId, Seq<Val>)>,
    new: Set<(NameId, Seq<Val>)>,
    other: Set<(NameId, Seq<Val>)>,
    g: Graph,
    rule: InstId,
    rel: NameId,
    row: Seq<Val>,
)
    requires
        g.wf(),
        g.has(rule),
        rule_gives(sight(base, rows, new), Set::empty(), g, rule, rel, row),
    ensures
        rule_gives(sight(base, rows, other), Set::empty(), g, rule, rel, row),
{
    a_rule_sees_what_it_reads(sight(base, rows, new), sight(base, rows, other), g, rule, rel, row);
}

/// Running the plan of the rule settles the rows that it was run on.
proof fn lemma_settles(
    base: World,
    names: Seq<Seq<char>>,
    plan: Plan,
    g: Graph,
    rule: InstId,
    own: Seq<Seq<char>>,
    st: Shown,
)
    requires
        g.wf(),
        g.has(rule),
        stands_for(names, plan, g, Set::empty(), rule),
        derives_own(base, names, plan, g, own),
    ensures
        settled(
            base,
            g,
            rule,
            own,
            st.rows,
            ran(base, names, plan, st).rows,
            ran(base, names, plan, st).added,
        ),
{
    let after = ran(base, names, plan, st);
    assert forall|rel: NameId, row: Seq<Val>| #[trigger]
        rule_gives(sight(base, st.rows, Set::empty()), Set::empty(), g, rule, rel, row) implies after.rows.contains(
        (rel, row),
    ) by {
        lemma_any_new(base, st.rows, Set::empty(), st.new, g, rule, rel, row);
        assert(derives(sight(base, st.rows, st.new), names, plan, Map::empty(), rel, row));
        assert(got(base, names, plan, st).contains((rel, row)));
    }
    assert forall|x: (NameId, Seq<Val>)| #[trigger]
        after.rows.contains(x) && !st.rows.contains(x) implies after.added.contains(x) && own.contains(
        g.name(x.0),
    ) by {
        assert(got(base, names, plan, st).contains(x));
    }
}

/// Running another plan of the stratum keeps settled rows settled.
proof fn lemma_stays_settled(
    base: World,
    names: Seq<Seq<char>>,
    plan: Plan,
    g: Graph,
    rule: InstId,
    own: Seq<Seq<char>>,
    b: Set<(NameId, Seq<Val>)>,
    st: Shown,
)
    requires
        settled(base, g, rule, own, b, st.rows, st.added),
        derives_own(base, names, plan, g, own),
    ensures
        settled(base, g, rule, own, b, ran(base, names, plan, st).rows, ran(base, names, plan, st).added),
{
    let after = ran(base, names, plan, st);
    assert forall|x: (NameId, Seq<Val>)| #[trigger]
        after.rows.contains(x) && !b.contains(x) implies after.added.contains(x) && own.contains(g.name(x.0)) by {
        if !st.rows.contains(x) {
            assert(got(base, names, plan, st).contains(x));
        }
    }
}

/// Running plans of the stratum.
proof fn lemma_ran_all(
    base: World,
    names: Seq<Seq<char>>,
    plans: Seq<Plan>,
    lo: nat,
    hi: nat,
    g: Graph,
    own: Seq<Seq<char>>,
    st: Shown,
)
    requires
        lo <= hi <= plans.len(),
        all_derive_own(base, names, plans, lo as int, hi as int, g, own),
    ensures
        grew(g, own, st, ran_all(base, names, plans, lo, hi, st)),
        ran_all(base, names, plans, lo, hi, st).new == st.new,
        forall|x: (NameId, Seq<Val>)|
            #[trigger] ran_all(base, names, plans, lo, hi, st).rows.contains(x) && !st.rows.contains(x)
                ==> ran_all(base, names, plans, lo, hi, st).added.contains(x),
    decreases hi,
{
    if lo < hi {
        lemma_ran_all(base, names, plans, lo, (hi - 1) as nat, g, own, st);
        let mid = ran_all(base, names, plans, lo, (hi - 1) as nat, st);
        let after = ran_all(base, names, plans, lo, hi, st);
        assert(derives_own(base, names, plans[hi - 1], g, own));
        assert forall|x: (NameId, Seq<Val>)| #[trigger]
            after.rows.contains(x) && !st.rows.contains(x) implies own.contains(g.name(x.0))
            && after.added.contains(x) by {
            if !mid.rows.contains(x) {
                assert(got(base, names, plans[hi - 1], mid).contains(x));
            }
        }
    }
}

/// Once the plan of the rule is among those that were run, some rows are settled.
proof fn lemma_once(
    base: World,
    names: Seq<Seq<char>>,
    plans: Seq<Plan>,
    lo: nat,
    hi: nat,
    d: int,
    g: Graph,
    rule: InstId,
    own: Seq<Seq<char>>,
    st: Shown,
) -> (b: Set<(NameId, Seq<Val>)>)
    requires
        g.wf(),
        g.has(rule),
        lo <= d < hi <= plans.len(),
        stands_for(names, plans[d], g, Set::empty(), rule),
        all_derive_own(base, names, plans, lo as int, hi as int, g, own),
    ensures
        settled(
            base,
            g,
            rule,
            own,
            b,
            ran_all(base, names, plans, lo, hi, st).rows,
            ran_all(base, names, plans, lo, hi, st).added,
        ),
    decreases hi,
{
    let mid = ran_all(base, names, plans, lo, (hi - 1) as nat, st);
    assert(derives_own(base, names, plans[hi - 1], g, own));
    if d == hi - 1 {
        lemma_settles(base, names, plans[d], g, rule, own, mid);
        mid.rows
    } else {
        let b = lemma_once(base, names, plans, lo, (hi - 1) as nat, d, g, rule, own, st);
        lemma_stays_settled(base, names, plans[hi - 1], g, rule, own, b, mid);
        b
    }
}

/// What a plan of a loop derives on the rows at the start of a round is there when it is over.
proof fn lemma_in_round(
    base: World,
    names: Seq<Seq<char>>,
    plans: Seq<Plan>,
    lo: nat,
    hi: nat,
    d: int,
    recent: Set<int>,
    g: Graph,
    rule: InstId,
    own: Seq<Seq<char>>,
    st: Shown,
    rel: NameId,
    row: Seq<Val>,
)
    requires
        g.wf(),
        g.has(rule),
        lo <= d < hi <= plans.len(),
        stands_for(names, plans[d], g, recent, rule),
        all_derive_own(base, names, plans, lo as int, hi as int, g, own),
        forall|q: NameId| #[trigger] denies(g, rule, q) ==> !own.contains(g.name(q)),
        rule_gives(sight(base, st.rows, st.new), recent, g, rule, rel, row),
    ensures
        ran_all(base, names, plans, lo, hi, st).rows.contains((rel, row)),
    decreases hi,
{
    let mid = ran_all(base, names, plans, lo, (hi - 1) as nat, st);
    if d == hi - 1 {
        lemma_ran_all(base, names, plans, lo, (hi - 1) as nat, g, own, st);
        let w = sight(base, st.rows, st.new);
        let v = sight(base, mid.rows, mid.new);
        assert forall|q: NameId, x: Seq<Val>| denies(g, rule, q) && #[trigger] (v.rows)(q, x) implies (w.rows)(
            q,
            x,
        ) by {
            if !st.rows.contains((q, x)) {
                assert(mid.rows.contains((q, x)));
                assert(own.contains(g.name(q)));
            }
        }
        more_rows_give_more(w, v, recent, g, rule, rel, row);
        assert(derives(v, names, plans[d], Map::empty(), rel, row));
        assert(got(base, names, plans[d], mid).contains((rel, row)));
    } else {
        lemma_in_round(base, names, plans, lo, (hi - 1) as nat, d, recent, g, rule, own, st, rel, row);
    }
}

/// For every premise that reads a relation of the stratum, some plan of a loop stands for the
/// rule over new rows at that premise.
spec fn loop_covers(
    names: Seq<Seq<char>>,
    plans: Seq<Plan>,
    lo: nat,
    hi: nat,
    hash_join: bool,
    g: Graph,
    rule: InstId,
    own: Seq<Seq<char>>,
) -> bool {
    forall|k: int|
        0 <= k < premises_of(g, rule).len() && read_relation(g, #[trigger] premises_of(g, rule)[k], own) is Some
            ==> has_plan_for(
            names,
            plans.subrange(lo as int, hi as int),
            hash_join,
            g,
            rule,
            k,
            read_relation(g, premises_of(g, rule)[k], own)->Some_0,
        )
}

/// A round settles the rows that it was begun with.
proof fn lemma_round(
    base: World,
    names: Seq<Seq<char>>,
    plans: Seq<Plan>,
    lo: nat,
    hi: nat,
    hash_join: bool,
    g: Graph,
    rule: InstId,
    own: Seq<Seq<char>>,
    b: Set<(NameId, Seq<Val>)>,
    st: Shown,
)
    requires
        g.wf(),
        simple_rule(g, rule),
        lo <= hi <= plans.len(),
        all_derive_own(base, names, plans, lo as int, hi as int, g, own),
        loop_covers(names, plans, lo, hi, hash_join, g, rule, own),
        forall|q: NameId| #[trigger] denies(g, rule, q) ==> !own.contains(g.name(q)),
        settled(base, g, rule, own, b, st.rows, st.new),
    ensures
        settled(
            base,
            g,
            rule,
            own,
            st.rows,
            ran_all(base, names, plans, lo, hi, st).rows,
            ran_all(base, names, plans, lo, hi, st).added,
        ),
{
    let after = ran_all(base, names, plans, lo, hi, st);
    let premises = premises_of(g, rule);
    lemma_ran_all(base, names, plans, lo, hi, g, own, st);
    assert forall|rel: NameId, row: Seq<Val>| #[trigger]
        rule_gives(sight(base, st.rows, Set::empty()), Set::empty(), g, rule, rel, row) implies after.rows.contains(
        (rel, row),
    ) by {
        let o = sight(base, b, Set::empty());
        if rule_gives(o, Set::empty(), g, rule, rel, row) {
            assert(st.rows.contains((rel, row)));
        } else {
            let fresh = st.rows.difference(b);
            let w = sight(base, st.rows, fresh);
            lemma_any_new(base, st.rows, Set::empty(), fresh, g, rule, rel, row);
            let k = what_is_new_comes_from_new_rows(w, o, hash_join, g, rule, rel, row);
            let q = relation_read(g, premises[k])->Some_0;
            assert(reads_new_rows(w, g, premises[k]));
            assert(has_new(w, q));
            let x = choose|x: Seq<Val>| #[trigger] is_new(w, q, x);
            assert(st.rows.contains((q, x)) && !b.contains((q, x)));
            assert(own.contains(g.name(q)));
            assert(read_relation(g, premises_of(g, rule)[k], own) == Some(q));
            let part = plans.subrange(lo as int, hi as int);
            assert(has_plan_for(names, part, hash_join, g, rule, k, q));
            let recent = new_reads(
                g,
                Settings { delta: Some(q), at: Some(k as usize), hash_join },
                premises_of(g, rule),
            );
            let d = choose|d: int| 0 <= d < part.len() && stands_for(names, #[trigger] part[d], g, recent, rule);
            assert(part[d] == plans[lo + d]);
            let v = sight(base, st.rows, st.new);
            more_rows_give_more(w, v, recent, g, rule, rel, row);
            lemma_in_round(base, names, plans, lo, hi, lo + d, recent, g, rule, own, st, rel, row);
        }
    }
}

/// A loop keeps some rows settled, of which all others are new.
proof fn lemma_loop(
    base: World,
    names: Seq<Seq<char>>,
    plans: Seq<Plan>,
    lo: nat,
    hi: nat,
    hash_join: bool,
    g: Graph,
    rule: InstId,
    own: Seq<Seq<char>>,
    b: Set<(NameId, Seq<Val>)>,
    st: Shown,
    n: nat,
) -> (c: Set<(NameId, Seq<Val>)>)
    requires
        g.wf(),
        simple_rule(g, rule),
        lo <= hi <= plans.len(),
        all_derive_own(base, names, plans, lo as int, hi as int, g, own),
        loop_covers(names, plans, lo, hi, hash_join, g, rule, own),
        forall|q: NameId| #[trigger] denies(g, rule, q) ==> !own.contains(g.name(q)),
        settled(base, g, rule, own, b, st.rows, st.new),
    ensures
        settled(
            base,
            g,
            rule,
            own,
            c,
            repeated(base, names, plans, lo, hi, st, n).rows,
            repeated(base, names, plans, lo, hi, st, n).new,
        ),
    decreases n,
{
    if n == 0 {
        b
    } else {
        let c = lemma_loop(base, names, plans, lo, hi, hash_join, g, rule, own, b, st, (n - 1) as nat);
        let mid = repeated(base, names, plans, lo, hi, st, (n - 1) as nat);
        lemma_round(base, names, plans, lo, hi, hash_join, g, rule, own, c, mid);
        mid.rows
    }
}

/// A loop adds rows of its stratum.
proof fn lemma_loop_grows(
    base: World,
    names: Seq<Seq<char>>,
    plans: Seq<Plan>,
    lo: nat,
    hi: nat,
    g: Graph,
    own: Seq<Seq<char>>,
    st: Shown,
    n: nat,
)
    requires
        lo <= hi <= plans.len(),
        all_derive_own(base, names, plans, lo as int, hi as int, g, own),
    ensures
        grew(g, own, st, repeated(base, names, plans, lo, hi, st, n)),
    decreases n,
{
    if n > 0 {
        lemma_loop_grows(base, names, plans, lo, hi, g, own, st, (n - 1) as nat);
        lemma_ran_all(
            base,
            names,
            plans,
            lo,
            hi,
            g,
            own,
            repeated(base, names, plans, lo, hi, st, (n - 1) as nat),
        );
    }
}

/// More rows of relations that the rule does not read keep the rows closed.
proof fn lemma_keeps_closed(base: World, g: Graph, rule: InstId, own: Seq<Seq<char>>, st: Shown, after: Shown)
    requires
        g.wf(),
        g.has(rule),
        grew(g, own, st, after),
        forall|q: NameId| #[trigger] rule_reads(g, rule, q) ==> !own.contains(g.name(q)),
        closed_under(base, g, rule, st),
    ensures
        closed_under(base, g, rule, after),
{
    let w = sight(base, after.rows, after.new);
    let o = sight(base, st.rows, st.new);
    assert forall|rel: NameId, row: Seq<Val>| #[trigger]
        rule_gives(w, Set::empty(), g, rule, rel, row) implies after.rows.contains((rel, row)) by {
        assert forall|q: NameId, x: Seq<Val>| rule_reads(g, rule, q) implies #[trigger] (w.rows)(q, x) == (o.rows)(
            q,
            x,
        ) by {
            if after.rows.contains((q, x)) && !st.rows.contains((q, x)) {
                assert(own.contains(g.name(q)));
            }
            if st.rows.contains((q, x)) {
                assert(after.rows.contains((q, x)));
            }
        }
        a_rule_sees_what_it_reads(w, o, g, rule, rel, row);
        assert(st.rows.contains((rel, row)));
    }
}

/// Settled rows of which all others are recent are closed under a rule that reads none of these.
proof fn lemma_settled_closed(
    base: World,
    g: Graph,
    rule: InstId,
    own: Seq<Seq<char>>,
    b: Set<(NameId, Seq<Val>)>,
    st: Shown,
    recent: Set<(NameId, Seq<Val>)>,
)
    requires
        g.wf(),
        g.has(rule),
        settled(base, g, rule, own, b, st.rows, recent),
        recent == Set::<(NameId, Seq<Val>)>::empty() || forall|q: NameId| #[trigger]
            rule_reads(g, rule, q) ==> !own.contains(g.name(q)),
    ensures
        closed_under(base, g, rule, st),
{
    let w = sight(base, st.rows, st.new);
    let o = sight(base, b, Set::empty());
    assert forall|rel: NameId, row: Seq<Val>| #[trigger]
        rule_gives(w, Set::empty(), g, rule, rel, row) implies st.rows.contains((rel, row)) by {
        assert forall|q: NameId, x: Seq<Val>| rule_reads(g, rule, q) implies #[trigger] (w.rows)(q, x) == (o.rows)(
            q,
            x,
        ) by {
            if st.rows.contains((q, x)) && !b.contains((q, x)) {
                assert(recent.contains((q, x)) && own.contains(g.name(q)));
            }
            if b.contains((q, x)) {
                assert(st.rows.contains((q, x)));
            }
        }
        a_rule_sees_what_it_reads(w, o, g, rule, rel, row);
    }
}

/// Plans before the next loop are run one after the other.
proof fn lemma_unroll(
    base: World,
    names: Seq<Seq<char>>,
    sc: Scheduled,
    counts: Seq<nat>,
    i: nat,
    m: nat,
    k: nat,
    st: Shown,
    end: Shown,
)
    requires
        loops_fit(sc.loops, sc.plans.len()),
        i + m <= sc.plans.len(),
        k < sc.loops.len() ==> sc.loops[k as int].0 >= i + m,
        leaves(base, names, sc, counts, i, k, st, end),
    ensures
        leaves(base, names, sc, counts, i + m, k, ran_all(base, names, sc.plans, i, i + m, st), end),
    decreases m,
{
    if m > 0 {
        lemma_unroll(base, names, sc, counts, i, (m - 1) as nat, k, st, end);
    }
}

/// The plans of a stratum, in their places.
proof fn lemma_stratum_plans(
    base: World,
    hash_join: bool,
    g: Graph,
    strata: Seq<Seq<Seq<char>>>,
    models: Seq<Option<StratumModel>>,
    names: Seq<Seq<char>>,
    plans: Seq<Plan>,
    s: nat,
)
    requires
        planned_well(hash_join, g, strata),
        s < strata.len(),
        models.len() == strata.len(),
        plans == flat(models, strata.len()),
        plans_stand(names, models[s as int], hash_join, g, strata[s as int]),
    ensures
        ({
            let lo = flat(models, s).len();
            let mid = lo + once(models[s as int]).len();
            let hi = flat(models, s + 1).len();
            let rules = rules_of(g, strata[s as int], g.nodes.len());
            &&& lo <= mid <= hi <= plans.len()
            &&& mid - lo == rules.len()
            &&& all_derive_own(base, names, plans, lo as int, hi as int, g, strata[s as int])
            &&& forall|j: int|
                0 <= j < rules.len() ==> stands_for(
                    names,
                    #[trigger] plans[lo + j],
                    g,
                    Set::empty(),
                    rules[j],
                )
            &&& models[s as int] matches Some(StratumModel::Recursive { .. }) ==> forall|j: int|
                0 <= j < rules.len() ==> loop_covers(
                    names,
                    plans,
                    mid,
                    hi,
                    hash_join,
                    g,
                    #[trigger] rules[j],
                    strata[s as int],
                )
        }),
{
    let model = models[s as int];
    let own = strata[s as int];
    let lo = flat(models, s).len();
    let mid = lo + once(model).len();
    let hi = flat(models, s + 1).len();
    let rules = rules_of(g, own, g.nodes.len());
    lemma_part(models, s, strata.len());
    lemma_rules_of(g, own, g.nodes.len());
    assert forall|j: int| 0 <= j < rules.len() implies stands_for(
        names,
        #[trigger] plans[lo + j],
        g,
        Set::empty(),
        rules[j],
    ) by {
        assert(plans[flat(models, s).len() + j] == once(model)[j]);
    }
    assert forall|d: int| lo <= d < hi implies derives_own(base, names, #[trigger] plans[d], g, own) by {
        if d < mid {
            assert(plans[lo + (d - lo)] == plans[d]);
            assert(stands_for(names, plans[d], g, Set::empty(), rules[d - lo]));
        } else {
            assert(plans[flat(models, s).len() + once(model).len() + (d - mid)] == again(model)[d - mid]);
            assert(each_stands(names, again(model), g, rules));
            assert(stands_for_some(names, again(model)[d - mid], g, rules));
        }
        lemma_derives_own(base, names, plans[d], g, rules, own);
    }
    if let Some(StratumModel::Recursive { initial, deltas }) = model {
        let part = plans.subrange(mid as int, hi as int);
        assert(part =~= deltas) by {
            assert forall|j: int| 0 <= j < deltas.len() implies part[j] == deltas[j] by {
                assert(plans[flat(models, s).len() + once(model).len() + j] == again(model)[j]);
            }
        }
        assert forall|j: int| 0 <= j < rules.len() implies loop_covers(
            names,
            plans,
            mid,
            hi,
            hash_join,
            g,
            #[trigger] rules[j],
            own,
        ) by {
            let rule = rules[j];
            assert forall|k: int|
                0 <= k < premises_of(g, rule).len() && read_relation(
                    g,
                    #[trigger] premises_of(g, rule)[k],
                    own,
                ) is Some implies has_plan_for(
                names,
                part,
                hash_join,
                g,
                rule,
                k,
                read_relation(g, premises_of(g, rule)[k], own)->Some_0,
            ) by {
                assert(has_plan_for(
                    names,
                    deltas,
                    hash_join,
                    g,
                    rules[j],
                    k,
                    read_relation(g, premises_of(g, rules[j])[k], own)->Some_0,
                ));
            }
        }
    }
}

/// Without recursion a rule of the stratum reads none of its relations.
proof fn lemma_reads_no_own(g: Graph, strata: Seq<Seq<Seq<char>>>, t: int, rule: InstId)
    requires
        stands_in(g, strata, t, rule),
        g.nodes.len() <= usize::MAX,
        !recursive(g, rules_of(g, strata[t], g.nodes.len()), strata[t]),
    ensures
        forall|q: NameId| #[trigger] rule_reads(g, rule, q) ==> !strata[t].contains(g.name(q)),
{
    let own = strata[t];
    let rules = rules_of(g, own, g.nodes.len());
    let j = lemma_listed(g, own, g.nodes.len(), rule);
    assert forall|q: NameId| #[trigger] rule_reads(g, rule, q) implies !own.contains(g.name(q)) by {
        if own.contains(g.name(q)) {
            let k = choose|k: int|
                0 <= k < premises_of(g, rule).len() && premise_reads(g, #[trigger] premises_of(g, rule)[k], q);
            if relation_read(g, premises_of(g, rule)[k]) == Some(q) {
                assert(read_relation(g, premises_of(g, rule)[k], own) is Some);
                assert(reads_stratum(g, rules[j], own));
            } else {
                assert(denies(g, rule, q));
            }
        }
    }
}

/// A recursive stratum has plans over new rows.
proof fn lemma_not_empty(
    names: Seq<Seq<char>>,
    deltas: Seq<Plan>,
    hash_join: bool,
    g: Graph,
    rules: Seq<InstId>,
    own: Seq<Seq<char>>,
)
    requires
        recursive(g, rules, own),
        covers(names, deltas, hash_join, g, rules, own, rules.len()),
    ensures
        deltas.len() > 0,
{
    let i = choose|i: int| 0 <= i < rules.len() && reads_stratum(g, #[trigger] rules[i], own);
    let k = choose|k: int|
        0 <= k < premises_of(g, rules[i]).len() && read_relation(
            g,
            #[trigger] premises_of(g, rules[i])[k],
            own,
        ) is Some;
    assert(has_plan_for(
        names,
        deltas,
        hash_join,
        g,
        rules[i],
        k,
        read_relation(g, premises_of(g, rules[i])[k], own)->Some_0,
    ));
}

/// From the plans of a stratum on.
#[verifier::rlimit(40)]
proof fn lemma_from(
    base: World,
    hash_join: bool,
    g: Graph,
    strata: Seq<Seq<Seq<char>>>,
    counts: Seq<nat>,
    t: int,
    rule: InstId,
    s: nat,
    st: Shown,
    end: Shown,
)
    requires
        planned_well(hash_join, g, strata),
        stands_in(g, strata, t, rule),
        s <= strata.len(),
        s > t ==> closed_under(base, g, rule, st),
        loops_fit(scheduled(hash_join, g, Some(strata)).loops, scheduled(hash_join, g, Some(strata)).plans.len()),
        ({
            let sc = scheduled(hash_join, g, Some(strata));
            let models = strata_planned(hash_join, g, strata, strata.len()).1->Ok_0;
            leaves(
                base,
                sc.g.names,
                sc,
                counts,
                flat(models, s).len(),
                loops_in(models, s).len(),
                st,
                end,
            )
        }),
    ensures
        closed_under(base, g, rule, end),
    decreases strata.len() - s,
{
    let sc = scheduled(hash_join, g, Some(strata));
    let names = sc.g.names;
    let n = strata.len();
    let models = strata_planned(hash_join, g, strata, n).1->Ok_0;
    lemma_schedule(hash_join, g, strata, n);
    plans_stand_for_rules(hash_join, g, strata);
    if s < n {
        let own = strata[s as int];
        let model = models[s as int];
        assert(plans_stand(names, model, hash_join, g, own));
        lemma_part(models, s, n);
        lemma_stratum_plans(base, hash_join, g, strata, models, names, sc.plans, s);
        let lo = flat(models, s).len();
        let m = once(model).len();
        let mid = lo + m;
        let hi = flat(models, s + 1).len();
        let k = loops_in(models, s).len();
        let rules = rules_of(g, own, g.nodes.len());
        let st1 = ran_all(base, names, sc.plans, lo, mid, st);
        assert(k < sc.loops.len() ==> sc.loops[k as int].0 >= mid) by {
            if k < sc.loops.len() {
                if !(model matches Some(StratumModel::Recursive { .. })) {
                    assert(loops_in(models, s + 1).len() <= k);
                    assert(loops_in(models, n)[k as int].0 >= flat(models, s + 1).len());
                }
            }
        }
        lemma_unroll(base, names, sc, counts, lo, m, k, st, end);
        lemma_ran_all(base, names, sc.plans, lo, mid, g, own, st);
        lemma_rules_of(g, own, g.nodes.len());
        if let Some(StratumModel::Recursive { initial, deltas }) = model {
            lemma_not_empty(names, deltas, hash_join, g, rules, own);
            let after = repeated(base, names, sc.plans, mid, hi, merged(st1), counts[k as int]);
            assert(sc.loops[k as int] == (mid, hi));
            lemma_loop_grows(base, names, sc.plans, mid, hi, g, own, merged(st1), counts[k as int]);
            if s == t {
                let j = lemma_listed(g, own, g.nodes.len(), rule);
                assert(sc.plans[lo + j] == sc.plans[(lo + j) as int]);
                let b = lemma_once(base, names, sc.plans, lo, mid, lo + j, g, rule, own, st);
                assert(simple_rule(g, rules[j]));
                assert(loop_covers(names, sc.plans, mid, hi, hash_join, g, rules[j], own));
                let c = lemma_loop(
                    base,
                    names,
                    sc.plans,
                    mid,
                    hi,
                    hash_join,
                    g,
                    rule,
                    own,
                    b,
                    merged(st1),
                    counts[k as int],
                );
                lemma_settled_closed(base, g, rule, own, c, after, after.new);
            } else if s > t {
                assert forall|q: NameId| #[trigger] rule_reads(g, rule, q) implies !own.contains(g.name(q)) by {
                    assert(!strata[s as int].contains(g.name(q)));
                }
                lemma_keeps_closed(base, g, rule, own, st, st1);
                assert(merged(st1).rows == st1.rows);
                assert(grew(g, own, st1, after));
                lemma_keeps_closed(base, g, rule, own, st1, after);
            }
            lemma_from(base, hash_join, g, strata, counts, t, rule, s + 1, after, end);
        } else {
            assert(hi == mid);
            if s == t {
                let j = lemma_listed(g, own, g.nodes.len(), rule);
                let b = lemma_once(base, names, sc.plans, lo, mid, lo + j, g, rule, own, st);
                lemma_reads_no_own(g, strata, t, rule);
                lemma_settled_closed(base, g, rule, own, b, st1, st1.added);
            } else if s > t {
                assert forall|q: NameId| #[trigger] rule_reads(g, rule, q) implies !own.contains(g.name(q)) by {
                    assert(!strata[s as int].contains(g.name(q)));
                }
                lemma_keeps_closed(base, g, rule, own, st, st1);
            }
            lemma_from(base, hash_join, g, strata, counts, t, rule, s + 1, st1, end);
        }
    }
}

/// The loops of a schedule are in order and within its plans.
proof fn lemma_loops_fit(models: Seq<Option<StratumModel>>, n: nat)
    requires
        n <= models.len(),
    ensures
        loops_fit(loops_in(models, n), flat(models, n).len()),
    decreases n,
{
    if n > 0 {
        lemma_loops_fit(models, (n - 1) as nat);
        let before = loops_in(models, (n - 1) as nat);
        let all = loops_in(models, n);
        assert forall|i: int| 0 <= i < all.len() implies (#[trigger] all[i]).0 <= all[i].1 <= flat(models, n).len() by {
            if i < before.len() {
                assert(all[i] == before[i]);
            }
        }
    }
}

/// Running the plans of a program in their order, with the loops repeated until nothing is new,
/// leaves rows that are closed under the rules of the program: what a rule gives on them is among
/// them. This is of programs without groups whose rules can be planned and are stratified, and of
/// a host that shows rows as soon as they are inserted.
pub proof fn a_finished_schedule_is_closed(
    base: World,
    hash_join: bool,
    g: Graph,
    strata: Seq<Seq<Seq<char>>>,
    counts: Seq<nat>,
    start: Shown,
    end: Shown,
    t: int,
    rule: InstId,
)
    requires
        planned_well(hash_join, g, strata),
        stands_in(g, strata, t, rule),
        leaves(
            base,
            scheduled(hash_join, g, Some(strata)).g.names,
            scheduled(hash_join, g, Some(strata)),
            counts,
            0,
            0,
            start,
            end,
        ),
    ensures
        closed_under(base, g, rule, end),
{
    loops_are_within_plans(hash_join, g, strata);
    lemma_from(base, hash_join, g, strata, counts, t, rule, 0, start, end);
}

/// The loops of a schedule are in order and within its plans.
pub proof fn loops_are_within_plans(hash_join: bool, g: Graph, strata: Seq<Seq<Seq<char>>>)
    requires
        planned_well(hash_join, g, strata),
    ensures
        loops_fit(
            scheduled(hash_join, g, Some(strata)).loops,
            scheduled(hash_join, g, Some(strata)).plans.len(),
        ),
{
    lemma_schedule(hash_join, g, strata, strata.len());
    let models = strata_planned(hash_join, g, strata, strata.len()).1->Ok_0;
    lemma_loops_fit(models, strata.len());
}

/// Every rule is among all rules, and all of these are rules.
proof fn lemma_all_rules(g: Graph, n: nat)
    requires
        n <= g.nodes.len() <= usize::MAX,
    ensures
        forall|i: int|
            0 <= i < all_rules(g, n).len() ==> (#[trigger] all_rules(g, n)[i]).0 < n && g.node(all_rules(g, n)[i]) is Rule,
        forall|rule: InstId| rule.0 < n && g.node(rule) is Rule ==> #[trigger] all_rules(g, n).contains(rule),
    decreases n,
{
    if n > 0 {
        lemma_all_rules(g, (n - 1) as nat);
        let rest = all_rules(g, (n - 1) as nat);
        let all = all_rules(g, n);
        let id = InstId((n - 1) as usize);
        assert forall|i: int| 0 <= i < all.len() implies (#[trigger] all[i]).0 < n && g.node(all[i]) is Rule by {
            if i < rest.len() {
                assert(all[i] == rest[i]);
            }
        }
        assert forall|rule: InstId| rule.0 < n && g.node(rule) is Rule implies #[trigger] all.contains(rule) by {
            if rule == id {
                assert(all[rest.len() as int] == id);
            } else {
                assert(rest.contains(rule));
                let k = rest.index_of(rule);
                assert(all[k] == rule);
            }
        }
    }
}

/// Without strata the schedule has no loop, and for every rule of the program it has a plan that
/// stands for the rule.
pub proof fn without_strata_every_rule_has_a_plan(hash_join: bool, g: Graph, rule: InstId) -> (k: int)
    requires
        simple_program(g),
        g.has(rule),
        g.node(rule) is Rule,
        roomy(g, rules_weight(g, all_rules(g, g.nodes.len()), all_rules(g, g.nodes.len()).len())),
        rules_planned(hash_join, g, all_rules(g, g.nodes.len()), all_rules(g, g.nodes.len()).len()).1 is Ok,
    ensures
        scheduled(hash_join, g, None).loops.len() == 0,
        0 <= k < scheduled(hash_join, g, None).plans.len(),
        stands_for(
            scheduled(hash_join, g, None).g.names,
            scheduled(hash_join, g, None).plans[k],
            g,
            Set::empty(),
            rule,
        ),
{
    let rules = all_rules(g, g.nodes.len());
    let n = rules.len();
    lemma_all_rules(g, g.nodes.len());
    assert(rules.contains(rule));
    let k = rules.index_of(rule);
    assert(rules[k] == rule);
    let total = rules_weight(g, rules, n);
    lemma_rules(hash_join, g, Seq::empty(), rules, n);
    let (h, out) = rules_planned(hash_join, g, rules, n);
    assert(g.extended_by(g));
    assert(grown(g, g, 0));
    assert forall|i: int| 0 <= i < rules.len() implies simple_rule(g, #[trigger] rules[i]) by {
        assert(g.has(rules[i]) && g.node(rules[i]) is Rule);
    }
    assert(h.names =~= h.names.subrange(0, h.names.len() as int));
    lemma_rules_grown(hash_join, g, g, rules, n, 0, total);
    lemma_rules_stand(hash_join, g, g, rules, n, 0, total, h.names);
    assert(Seq::<Plan>::empty() + out->Ok_0 =~= out->Ok_0);
    k
}

} // verus!
