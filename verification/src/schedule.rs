//! The plans of a program, stratum by stratum.
//!
//! A stratum whose rules read its own relations is recursive: its rules run once, then again
//! for every premise that reads a relation of the stratum, over the new rows of that relation
//! at that premise, until there are no new rows.
use vstd::prelude::*;

use crate::ir::{ids_below, Graph, Inst, InstId, Ir, NameId, Node};
use crate::physical::{all_known, known, lemma_all_known_grows, lemma_all_known_prefix, plans, Op, Plan};
use crate::plan_expr::PlanState;
use crate::planner::{rule_planned, Planner, Settings};
use crate::text::str_eq;

verus! {

/// The texts of strings.
pub open spec fn texts(v: Seq<String>) -> Seq<Seq<char>> {
    Seq::new(v.len(), |i: int| v[i]@)
}

/// The texts of lists of strings.
pub open spec fn text_lists(v: Seq<Vec<String>>) -> Seq<Seq<Seq<char>>> {
    Seq::new(v.len(), |i: int| texts(v[i]@))
}

/// The name of the relation that a rule adds to.
pub open spec fn head_name(g: Graph, id: InstId) -> Option<Seq<char>> {
    match g.node(id) {
        Node::Rule { head, .. } => match g.node(head) {
            Node::Atom { predicate, .. } => Some(g.name(predicate)),
            _ => None,
        },
        _ => None,
    }
}

/// The rules among the first `n` instructions that add to a relation of a stratum.
pub open spec fn rules_of(g: Graph, names: Seq<Seq<char>>, n: nat) -> Seq<InstId>
    decreases n,
{
    if n == 0 {
        Seq::empty()
    } else {
        let rest = rules_of(g, names, (n - 1) as nat);
        let id = InstId((n - 1) as usize);
        match head_name(g, id) {
            Some(name) => if names.contains(name) {
                rest.push(id)
            } else {
                rest
            },
            None => rest,
        }
    }
}

/// The rules among the first `n` instructions.
pub open spec fn all_rules(g: Graph, n: nat) -> Seq<InstId>
    decreases n,
{
    if n == 0 {
        Seq::empty()
    } else {
        let rest = all_rules(g, (n - 1) as nat);
        let id = InstId((n - 1) as usize);
        if g.node(id) is Rule {
            rest.push(id)
        } else {
            rest
        }
    }
}

/// The relation of a stratum that a premise reads.
pub open spec fn read_relation(g: Graph, premise: InstId, names: Seq<Seq<char>>) -> Option<NameId> {
    match g.node(premise) {
        Node::Atom { predicate, .. } => if names.contains(g.name(predicate)) {
            Some(predicate)
        } else {
            None
        },
        _ => None,
    }
}

/// The premises of a rule.
pub open spec fn premises_of(g: Graph, rule: InstId) -> Seq<InstId> {
    match g.node(rule) {
        Node::Rule { premises, .. } => premises,
        _ => Seq::empty(),
    }
}

/// Whether a rule reads a relation of a stratum.
pub open spec fn reads_stratum(g: Graph, rule: InstId, names: Seq<Seq<char>>) -> bool {
    exists|i: int|
        0 <= i < premises_of(g, rule).len() && read_relation(
            g,
            #[trigger] premises_of(g, rule)[i],
            names,
        ) is Some
}

/// Whether a stratum with these rules is recursive.
pub open spec fn recursive(g: Graph, rules: Seq<InstId>, names: Seq<Seq<char>>) -> bool {
    exists|i: int| 0 <= i < rules.len() && reads_stratum(g, #[trigger] rules[i], names)
}

/// The plans that are made so far.
pub struct Planning {
    pub g: Graph,
    pub plans: Seq<Plan>,
}

/// The plans with that of a rule. A rule that cannot be planned is left out.
pub open spec fn with_rule(s: Settings, st: Planning, rule: InstId) -> Planning {
    let (p, r) = rule_planned(s, PlanState { g: st.g, fresh: 0 }, rule);
    Planning {
        g: p.g,
        plans: match r {
            Ok(plan) => st.plans.push(plan),
            Err(_) => st.plans,
        },
    }
}

/// The plans with those of the first `n` rules.
pub open spec fn with_rules(hash_join: bool, st: Planning, rules: Seq<InstId>, n: nat) -> Planning
    decreases n,
{
    if n == 0 {
        st
    } else {
        with_rule(
            Settings { delta: None, at: None, hash_join },
            with_rules(hash_join, st, rules, (n - 1) as nat),
            rules[n - 1],
        )
    }
}

/// The plans with those of a rule for each of its first `n` premises that reads a relation of
/// the stratum, over the new rows of that relation at that premise.
pub open spec fn with_deltas(
    hash_join: bool,
    st: Planning,
    rule: InstId,
    premises: Seq<InstId>,
    names: Seq<Seq<char>>,
    n: nat,
) -> Planning
    decreases n,
{
    if n == 0 {
        st
    } else {
        let before = with_deltas(hash_join, st, rule, premises, names, (n - 1) as nat);
        match read_relation(before.g, premises[n - 1], names) {
            Some(predicate) => with_rule(
                Settings { delta: Some(predicate), at: Some((n - 1) as usize), hash_join },
                before,
                rule,
            ),
            None => before,
        }
    }
}

/// The plans with those of the first `n` rules over new rows.
pub open spec fn with_all_deltas(
    hash_join: bool,
    st: Planning,
    rules: Seq<InstId>,
    names: Seq<Seq<char>>,
    n: nat,
) -> Planning
    decreases n,
{
    if n == 0 {
        st
    } else {
        let before = with_all_deltas(hash_join, st, rules, names, (n - 1) as nat);
        let premises = premises_of(before.g, rules[n - 1]);
        with_deltas(hash_join, before, rules[n - 1], premises, names, premises.len())
    }
}

/// The plans of a program: those from the first to before the second number of a loop are
/// repeated until nothing is new.
#[verifier::ext_equal]
pub struct Scheduled {
    pub g: Graph,
    pub plans: Seq<Plan>,
    pub loops: Seq<(nat, nat)>,
}

/// The plans with those of a stratum.
pub open spec fn with_stratum(hash_join: bool, sc: Scheduled, names: Seq<Seq<char>>) -> Scheduled {
    let rules = rules_of(sc.g, names, sc.g.nodes.len());
    if rules.len() == 0 {
        sc
    } else {
        let once = with_rules(hash_join, Planning { g: sc.g, plans: sc.plans }, rules, rules.len());
        if !recursive(sc.g, rules, names) {
            Scheduled { g: once.g, plans: once.plans, loops: sc.loops }
        } else {
            let all = with_all_deltas(hash_join, once, rules, names, rules.len());
            Scheduled {
                g: all.g,
                plans: all.plans,
                loops: sc.loops.push((once.plans.len(), all.plans.len())),
            }
        }
    }
}

/// The plans of the first `n` strata.
pub open spec fn strata_scheduled(hash_join: bool, g: Graph, strata: Seq<Seq<Seq<char>>>, n: nat) -> Scheduled
    decreases n,
{
    if n == 0 {
        Scheduled { g, plans: Seq::empty(), loops: Seq::empty() }
    } else {
        with_stratum(
            hash_join,
            strata_scheduled(hash_join, g, strata, (n - 1) as nat),
            strata[n - 1],
        )
    }
}

/// The plans of a program: stratum by stratum, or of all rules, once, where there are no
/// strata.
pub open spec fn scheduled(hash_join: bool, g: Graph, strata: Option<Seq<Seq<Seq<char>>>>) -> Scheduled {
    match strata {
        Some(strata) => strata_scheduled(hash_join, g, strata, strata.len()),
        None => {
            let rules = all_rules(g, g.nodes.len());
            let done = with_rules(hash_join, Planning { g, plans: Seq::empty() }, rules, rules.len());
            Scheduled { g: done.g, plans: done.plans, loops: Seq::empty() }
        },
    }
}

/// The plans of a program.
pub struct Schedule {
    pub ops: Vec<Op>,
    /// Which operations are repeated until nothing is new: from the first index to before the
    /// second.
    pub loops: Vec<(usize, usize)>,
}

/// The loops as pairs of numbers.
pub open spec fn loop_bounds(loops: Seq<(usize, usize)>) -> Seq<(nat, nat)> {
    Seq::new(loops.len(), |i: int| (loops[i].0 as nat, loops[i].1 as nat))
}

/// The bounds of loops are in order and within `n` plans.
pub open spec fn loops_fit(loops: Seq<(nat, nat)>, n: nat) -> bool {
    forall|i: int| 0 <= i < loops.len() ==> (#[trigger] loops[i]).0 <= loops[i].1 <= n
}

/// Whether a text is in the list.
fn has_text(list: &Vec<String>, text: &str) -> (r: bool)
    ensures
        r == texts(list@).contains(text@),
{
    let mut i: usize = 0;
    while i < list.len()
        invariant
            i <= list@.len(),
            forall|j: int| 0 <= j < i ==> texts(list@)[j] != text@,
        decreases list@.len() - i,
    {
        if str_eq(list[i].as_str(), text) {
            assert(texts(list@)[i as int] == text@);
            return true;
        }
        i += 1;
    }
    false
}

/// The name of the relation that a rule adds to is in the stratum.
fn heads_stratum(ir: &Ir, id: InstId, names: &Vec<String>) -> (r: bool)
    requires
        ir@.wf(),
        ir@.has(id),
    ensures
        r == (head_name(ir@, id) matches Some(name) && texts(names@).contains(name)),
{
    proof {
        let g = ir@;
        assert(g.nodes[id.0 as int].fits(id.0 as nat, g.names.len(), g.strings.len()));
    }
    match ir.get(id) {
        Inst::Rule { head, .. } => {
            proof {
                let g = ir@;
                assert(g.nodes[head.0 as int].fits(head.0 as nat, g.names.len(), g.strings.len()));
            }
            match ir.get(*head) {
                Inst::Atom { predicate, .. } => has_text(names, ir.resolve_name(*predicate)),
                _ => false,
            }
        },
        _ => false,
    }
}

/// The relation of a stratum that a premise reads.
pub(crate) fn relation_read(ir: &Ir, premise: InstId, names: &Vec<String>) -> (r: Option<NameId>)
    requires
        ir@.wf(),
        ir@.has(premise),
    ensures
        r == read_relation(ir@, premise, texts(names@)),
{
    proof {
        let g = ir@;
        assert(g.nodes[premise.0 as int].fits(premise.0 as nat, g.names.len(), g.strings.len()));
    }
    match ir.get(premise) {
        Inst::Atom { predicate, .. } => if has_text(names, ir.resolve_name(*predicate)) {
            Some(*predicate)
        } else {
            None
        },
        _ => None,
    }
}

/// The rules that add to a relation of a stratum.
pub(crate) fn stratum_rules(ir: &Ir, names: &Vec<String>) -> (r: Vec<InstId>)
    requires
        ir@.wf(),
    ensures
        r@ == rules_of(ir@, texts(names@), ir@.nodes.len()),
        ids_below(r@, ir@.nodes.len()),
{
    let mut r: Vec<InstId> = Vec::new();
    let mut n: usize = 0;
    assert(r@ =~= Seq::<InstId>::empty());
    while n < ir.len()
        invariant
            n <= ir@.nodes.len(),
            r@ == rules_of(ir@, texts(names@), n as nat),
            ids_below(r@, ir@.nodes.len()),
        decreases ir@.nodes.len() - n,
    {
        let id = InstId::new(n);
        if heads_stratum(ir, id, names) {
            r.push(id);
        }
        n += 1;
    }
    r
}

/// All rules.
fn program_rules(ir: &Ir) -> (r: Vec<InstId>)
    requires
        ir@.wf(),
    ensures
        r@ == all_rules(ir@, ir@.nodes.len()),
        ids_below(r@, ir@.nodes.len()),
{
    let mut r: Vec<InstId> = Vec::new();
    let mut n: usize = 0;
    assert(r@ =~= Seq::<InstId>::empty());
    while n < ir.len()
        invariant
            n <= ir@.nodes.len(),
            r@ == all_rules(ir@, n as nat),
            ids_below(r@, ir@.nodes.len()),
        decreases ir@.nodes.len() - n,
    {
        let id = InstId::new(n);
        let is_rule = match ir.get(id) {
            Inst::Rule { .. } => true,
            _ => false,
        };
        if is_rule {
            r.push(id);
        }
        n += 1;
    }
    r
}

/// Whether a stratum with these rules is recursive.
pub(crate) fn is_recursive(ir: &Ir, rules: &Vec<InstId>, names: &Vec<String>) -> (r: bool)
    requires
        ir@.wf(),
        ids_below(rules@, ir@.nodes.len()),
    ensures
        r == recursive(ir@, rules@, texts(names@)),
{
    let ghost g = ir@;
    let mut i: usize = 0;
    while i < rules.len()
        invariant
            i <= rules@.len(),
            forall|k: int| 0 <= k < i ==> !reads_stratum(g, #[trigger] rules@[k], texts(names@)),
        decreases rules@.len() - i,
    {
        let rule = rules[i];
        proof {
            assert(g.nodes[rule.0 as int].fits(rule.0 as nat, g.names.len(), g.strings.len()));
        }
        if let Inst::Rule { premises, .. } = ir.get(rule) {
            assert(premises_of(g, rule) == premises@);
            let mut j: usize = 0;
            while j < premises.len()
                invariant
                    j <= premises@.len(),
                    forall|k: int|
                        0 <= k < j ==> read_relation(g, #[trigger] premises@[k], texts(names@)) is None,
                decreases premises@.len() - j,
            {
                if relation_read(ir, premises[j], names).is_some() {
                    assert(read_relation(g, premises_of(g, rule)[j as int], texts(names@)) is Some);
                    assert(reads_stratum(g, rules@[i as int], texts(names@)));
                    return true;
                }
                j += 1;
            }
        }
        i += 1;
    }
    false
}

/// One more plan of known names.
proof fn lemma_push_known(ps: Seq<Plan>, p: Plan, n: Graph, more: Graph)
    requires
        all_known(ps, ps.len(), n),
        n.extended_by(more),
        known(p, more),
    ensures
        all_known(ps.push(p), (ps.len() + 1) as nat, more),
{
    lemma_all_known_grows(ps, ps.len(), n, more);
    lemma_all_known_prefix(ps, p, ps.len(), more);
}

/// Adds the plan of a rule, if it has one.
fn plan_into(ir: &mut Ir, s: Settings, ops: &mut Vec<Op>, rule: InstId)
    requires
        s.delta is None ==> s.at is None,
        old(ir)@.wf(),
        old(ir)@.has(rule),
        all_known(plans(old(ops)@), old(ops)@.len(), old(ir)@),
    ensures
        final(ir)@.wf(),
        old(ir)@.extended_by(final(ir)@),
        old(ops)@.len() <= final(ops)@.len(),
        all_known(plans(final(ops)@), final(ops)@.len(), final(ir)@),
        (Planning { g: final(ir)@, plans: plans(final(ops)@) }) == with_rule(
            s,
            Planning { g: old(ir)@, plans: plans(old(ops)@) },
            rule,
        ),
{
    let ghost before = plans(ops@);
    let ghost n = ir@;
    let mut planner = Planner::new(ir).with_hash_join(s.hash_join);
    if let Some(d) = s.delta {
        planner = match s.at {
            Some(place) => planner.with_delta_at(d, place),
            None => planner.with_delta(d),
        };
    }
    let planned = planner.plan_rule(rule);
    match planned {
        Ok(op) => {
            let ghost p = op@;
            ops.push(op);
            proof {
                assert(plans(ops@) =~= before.push(p));
                lemma_push_known(before, p, n, ir@);
            }
        },
        Err(_) => {
            proof {
                lemma_all_known_grows(before, before.len(), n, ir@);
            }
        },
    }
}

/// Adds the plans of rules.
fn plan_rules(ir: &mut Ir, hash_join: bool, ops: &mut Vec<Op>, rules: &Vec<InstId>)
    requires
        old(ir)@.wf(),
        ids_below(rules@, old(ir)@.nodes.len()),
        all_known(plans(old(ops)@), old(ops)@.len(), old(ir)@),
    ensures
        final(ir)@.wf(),
        old(ir)@.extended_by(final(ir)@),
        old(ops)@.len() <= final(ops)@.len(),
        all_known(plans(final(ops)@), final(ops)@.len(), final(ir)@),
        (Planning { g: final(ir)@, plans: plans(final(ops)@) }) == with_rules(
            hash_join,
            Planning { g: old(ir)@, plans: plans(old(ops)@) },
            rules@,
            rules@.len(),
        ),
{
    let ghost g = ir@;
    let ghost start = Planning { g, plans: plans(ops@) };
    let mut n: usize = 0;
    while n < rules.len()
        invariant
            ir@.wf(),
            g.extended_by(ir@),
            n <= rules@.len(),
            old(ops)@.len() <= ops@.len(),
            all_known(plans(ops@), ops@.len(), ir@),
            (Planning { g: ir@, plans: plans(ops@) }) == with_rules(
                hash_join,
                start,
                rules@,
                n as nat,
            ),
        decreases rules@.len() - n,
    {
        plan_into(ir, Settings { delta: None, at: None, hash_join }, ops, rules[n]);
        n += 1;
    }
}

/// Adds the plans of rules over new rows.
fn plan_deltas(ir: &mut Ir, hash_join: bool, ops: &mut Vec<Op>, rules: &Vec<InstId>, names: &Vec<String>)
    requires
        old(ir)@.wf(),
        ids_below(rules@, old(ir)@.nodes.len()),
        all_known(plans(old(ops)@), old(ops)@.len(), old(ir)@),
    ensures
        final(ir)@.wf(),
        old(ir)@.extended_by(final(ir)@),
        old(ops)@.len() <= final(ops)@.len(),
        all_known(plans(final(ops)@), final(ops)@.len(), final(ir)@),
        (Planning { g: final(ir)@, plans: plans(final(ops)@) }) == with_all_deltas(
            hash_join,
            Planning { g: old(ir)@, plans: plans(old(ops)@) },
            rules@,
            texts(names@),
            rules@.len(),
        ),
{
    let ghost g = ir@;
    let ghost start = Planning { g, plans: plans(ops@) };
    let mut n: usize = 0;
    while n < rules.len()
        invariant
            ir@.wf(),
            g.extended_by(ir@),
            n <= rules@.len(),
            old(ops)@.len() <= ops@.len(),
            all_known(plans(ops@), ops@.len(), ir@),
            (Planning { g: ir@, plans: plans(ops@) }) == with_all_deltas(
                hash_join,
                start,
                rules@,
                texts(names@),
                n as nat,
            ),
        decreases rules@.len() - n,
    {
        let rule = rules[n];
        let ghost h = ir@;
        let ghost here = Planning { g: h, plans: plans(ops@) };
        proof {
            assert(h.nodes[rule.0 as int].fits(rule.0 as nat, h.names.len(), h.strings.len()));
        }
        let mut premises: Vec<InstId> = Vec::new();
        if let Inst::Rule { premises: found, .. } = ir.get(rule) {
            premises = crate::ir::copy_items(found);
        }
        assert(premises@ =~= premises_of(h, rule));
        let mut k: usize = 0;
        while k < premises.len()
            invariant
                ir@.wf(),
                h.extended_by(ir@),
                g.extended_by(ir@),
                k <= premises@.len(),
                old(ops)@.len() <= ops@.len(),
                all_known(plans(ops@), ops@.len(), ir@),
                (Planning { g: ir@, plans: plans(ops@) }) == with_deltas(
                    hash_join,
                    here,
                    rule,
                    premises@,
                    texts(names@),
                    k as nat,
                ),
            decreases premises@.len() - k,
        {
            if let Some(predicate) = relation_read(ir, premises[k], names) {
                plan_into(ir, Settings { delta: Some(predicate), at: Some(k), hash_join }, ops, rule);
            }
            k += 1;
        }
        n += 1;
    }
}

/// Plans a program.
pub fn schedule(ir: &mut Ir, hash_join: bool, strata: Option<&Vec<Vec<String>>>) -> (r: Schedule)
    requires
        old(ir)@.wf(),
    ensures
        final(ir)@.wf(),
        old(ir)@.extended_by(final(ir)@),
        all_known(plans(r.ops@), r.ops@.len(), final(ir)@),
        loops_fit(loop_bounds(r.loops@), r.ops@.len()),
        (Scheduled { g: final(ir)@, plans: plans(r.ops@), loops: loop_bounds(r.loops@) }) == scheduled(
            hash_join,
            old(ir)@,
            match strata {
                Some(v) => Some(text_lists(v@)),
                None => None,
            },
        ),
{
    let ghost g = ir@;
    let mut ops: Vec<Op> = Vec::new();
    let mut loops: Vec<(usize, usize)> = Vec::new();
    assert(plans(ops@) =~= Seq::<Plan>::empty());
    assert(loop_bounds(loops@) =~= Seq::<(nat, nat)>::empty());
    match strata {
        None => {
            let rules = program_rules(ir);
            plan_rules(ir, hash_join, &mut ops, &rules);
        },
        Some(strata) => {
            let ghost all = text_lists(strata@);
            let mut n: usize = 0;
            while n < strata.len()
                invariant
                    ir@.wf(),
                    g.extended_by(ir@),
                    n <= strata@.len(),
                    all_known(plans(ops@), ops@.len(), ir@),
                    loops_fit(loop_bounds(loops@), ops@.len()),
                    (Scheduled { g: ir@, plans: plans(ops@), loops: loop_bounds(loops@) })
                        == strata_scheduled(hash_join, g, all, n as nat),
                decreases strata@.len() - n,
            {
                let ghost before = loop_bounds(loops@);
                let names = &strata[n];
                assert(all[n as int] == texts(names@));
                let rules = stratum_rules(ir, names);
                if rules.len() > 0 {
                    let again = is_recursive(ir, &rules, names);
                    plan_rules(ir, hash_join, &mut ops, &rules);
                    if again {
                        let start: usize = ops.len();
                        plan_deltas(ir, hash_join, &mut ops, &rules, names);
                        loops.push((start, ops.len()));
                        assert(loop_bounds(loops@) =~= before.push((start as nat, ops@.len())));
                    }
                }
                n += 1;
            }
        },
    }
    Schedule { ops, loops }
}

} // verus!
