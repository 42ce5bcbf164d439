//! What a program leaves behind: once its execution is finished, its rules give nothing more.
use vstd::prelude::*;

use crate::disk_names::Tier;
use crate::driver::strata_planned;
use crate::execution::{phases_are_admitted, temporal_texts, Action, Phase, Run};
use crate::ir::{Graph, InstId, NameId, Node};
use crate::physical::Plan;
use crate::plan_meaning::{derives, new_reads, rule_gives, World};
use crate::plan_terms::lemma_fits;
use crate::planner::Settings;
use crate::program_plans::{
    all_stand, has_plan_for, in_stratum, lemma_listed, lemma_rules_of, planned_well, plans_stand,
    plans_stand_for_rules, simple_rule, stands_for, stands_for_some,
};
use crate::round_laws::{
    a_rule_sees_what_it_reads, before, has_new, is_new, premise_reads, reads_new_rows, relation_read,
    rule_reads, what_is_new_comes_from_new_rows,
};
use crate::schedule::{premises_of, read_relation, reads_stratum, recursive, rules_of};
use crate::store::{merged_has, present, round_ended, row_collected, Contents};
use crate::tables::StoreError;
use crate::value::Val;

verus! {

/// A program: its instructions, the names of the relations of every stratum, the relations that
/// are made first, and whether hash joins are planned.
pub struct Program {
    pub g: Graph,
    pub strata: Seq<Seq<Seq<char>>>,
    pub relations: Seq<Seq<char>>,
    pub hash_join: bool,
}

impl Program {
    /// The graph once the program is planned.
    pub open spec fn later(self) -> Graph {
        strata_planned(self.hash_join, self.g, self.strata, self.strata.len()).0
    }

    /// What is run.
    pub open spec fn run(self) -> Run {
        Run {
            relations: self.relations,
            strata: strata_planned(self.hash_join, self.g, self.strata, self.strata.len()).1->Ok_0,
            temporals: temporal_texts(self.later(), self.later().names.len()),
        }
    }

    /// The rules of a stratum.
    pub open spec fn rules(self, s: int) -> Seq<InstId> {
        rules_of(self.g, self.strata[s], self.g.nodes.len())
    }

    /// The program can be planned to its meaning, and machine integers can count what there is.
    pub open spec fn wf(self) -> bool {
        &&& planned_well(self.hash_join, self.g, self.strata)
        &&& self.run().fits()
    }
}

/// The rows of a store: settled ones, new ones, and those that are being collected.
#[verifier::ext_equal]
pub struct Rows {
    pub stable: Set<(NameId, Seq<Val>)>,
    pub new: Set<(NameId, Seq<Val>)>,
    pub next: Set<(NameId, Seq<Val>)>,
}

impl Rows {
    /// Whether plans see a row.
    pub open spec fn visible(self, rel: NameId, row: Seq<Val>) -> bool {
        self.stable.contains((rel, row)) || self.new.contains((rel, row))
    }

    /// Whether a row is there, in whatever tier.
    pub open spec fn has(self, rel: NameId, row: Seq<Val>) -> bool {
        self.visible(rel, row) || self.next.contains((rel, row))
    }
}

/// What a plan sees: visible rows and, among them, new ones.
pub open spec fn seen(base: World, stable: Set<(NameId, Seq<Val>)>, new: Set<(NameId, Seq<Val>)>) -> World {
    World {
        rows: |rel: NameId, row: Seq<Val>| stable.contains((rel, row)) || new.contains((rel, row)),
        delta: |rel: NameId, row: Seq<Val>| new.contains((rel, row)),
        ..base
    }
}

/// What a plan sees of a store.
pub open spec fn world_of(base: World, st: Rows) -> World {
    seen(base, st.stable, st.new)
}

/// Whether a plan derives a row from what it sees of a store that is not there.
pub open spec fn adds(base: World, names: Seq<Seq<char>>, plan: Plan, st: Rows, rel: NameId, row: Seq<Val>) -> bool {
    derives(world_of(base, st), names, plan, Map::empty(), rel, row) && !st.has(rel, row)
}

/// Whether a step turned a store into another, and whether it added rows. A plan collects the
/// rows that it derives and that are not there; a merge settles new rows and makes collected ones
/// new; joining intervals changes the rows of one relation.
pub open spec fn performed(
    base: World,
    names: Seq<Seq<char>>,
    a: Action,
    st: Rows,
    after: Rows,
    added: bool,
) -> bool {
    match a {
        Action::Execute(plan) => executed(base, names, plan, st, after, added),
        Action::Merge => after == (Rows {
            stable: st.stable.union(st.new),
            new: st.next,
            next: Set::empty(),
        }),
        Action::Coalesce(name) => coalesced(names, name, st, after),
        _ => after == st,
    }
}

/// Whether running a plan turned a store into another.
pub open spec fn executed(base: World, names: Seq<Seq<char>>, plan: Plan, st: Rows, after: Rows, added: bool) -> bool {
    &&& after.stable == st.stable
    &&& after.new == st.new
    &&& forall|rel: NameId, row: Seq<Val>| #[trigger]
        after.next.contains((rel, row)) <==> st.next.contains((rel, row)) || adds(
            base,
            names,
            plan,
            st,
            rel,
            row,
        )
    &&& added <==> exists|rel: NameId, row: Seq<Val>| #[trigger] adds(base, names, plan, st, rel, row)
}

/// Whether joining the intervals of a relation turned a store into another: the rows of other
/// relations stay.
pub open spec fn coalesced(names: Seq<Seq<char>>, name: Seq<char>, st: Rows, after: Rows) -> bool {
    forall|rel: NameId, row: Seq<Val>|
        names[rel.0 as int] != name ==> {
            &&& #[trigger] after.stable.contains((rel, row)) == st.stable.contains((rel, row))
            &&& after.new.contains((rel, row)) == st.new.contains((rel, row))
            &&& after.next.contains((rel, row)) == st.next.contains((rel, row))
        }
}

/// Whether the stores are those that an execution leaves after each of its first `n` steps, and
/// `added` says which of them added rows.
pub open spec fn executes(base: World, pr: Program, added: Seq<bool>, states: Seq<Rows>, n: nat) -> bool {
    &&& states.len() == n + 1
    &&& added.len() == n
    &&& forall|i: int|
        0 <= i < n ==> performed(
            base,
            pr.later().names,
            pr.run().action(pr.run().reached(added, i as nat)),
            #[trigger] states[i],
            states[i + 1],
            added[i],
        )
}

/// The relation that a rule adds to.
pub open spec fn head_relation(g: Graph, rule: InstId) -> Option<NameId> {
    match g.node(rule) {
        Node::Rule { head, .. } => match g.node(head) {
            Node::Atom { predicate, .. } => Some(predicate),
            _ => None,
        },
        _ => None,
    }
}

/// Whether a rule reads a relation or adds to it.
pub open spec fn touches(g: Graph, rule: InstId, rel: NameId) -> bool {
    rule_reads(g, rule, rel) || head_relation(g, rule) == Some(rel)
}

/// Whether a rule reads a relation in a negated atom.
pub open spec fn denies(g: Graph, rule: InstId, rel: NameId) -> bool {
    exists|k: int|
        0 <= k < premises_of(g, rule).len() && (g.node(#[trigger] premises_of(g, rule)[k]) matches Node::NegAtom(
            inner,
        ) && (g.node(inner) matches Node::Atom { predicate, .. } && predicate == rel))
}

/// The rule stands in its stratum `t`: it reads no relation of a later stratum, and denies none
/// of its own.
pub open spec fn stratified(pr: Program, t: int, rule: InstId) -> bool {
    &&& 0 <= t < pr.strata.len()
    &&& pr.g.has(rule)
    &&& in_stratum(pr.g, rule, pr.strata[t])
    &&& forall|rel: NameId, s: int|
        #[trigger] rule_reads(pr.g, rule, rel) && t < s < pr.strata.len() ==> !#[trigger] pr.strata[s].contains(
            pr.g.name(rel),
        )
    &&& forall|rel: NameId| #[trigger]
        denies(pr.g, rule, rel) ==> !pr.strata[t].contains(pr.g.name(rel))
}

/// The rule touches no relation of intervals.
pub open spec fn timeless(pr: Program, rule: InstId) -> bool {
    forall|rel: NameId| #[trigger]
        touches(pr.g, rule, rel) ==> !pr.run().temporals.contains(pr.g.name(rel))
}

/// All that the rule gives on what plans see of a store is there.
pub open spec fn closed(base: World, g: Graph, rule: InstId, st: Rows) -> bool {
    forall|rel: NameId, row: Seq<Val>| #[trigger]
        rule_gives(world_of(base, st), Set::empty(), g, rule, rel, row) ==> st.has(rel, row)
}

/// All that the rule gave before the new rows came is there.
spec fn was_closed(base: World, g: Graph, rule: InstId, st: Rows) -> bool {
    forall|rel: NameId, row: Seq<Val>| #[trigger]
        rule_gives(before(world_of(base, st)), Set::empty(), g, rule, rel, row) ==> st.has(rel, row)
}

/// Collected rows are not visible.
spec fn apart(g: Graph, rule: InstId, st: Rows) -> bool {
    forall|rel: NameId, row: Seq<Val>|
        touches(g, rule, rel) && #[trigger] st.next.contains((rel, row)) ==> !st.visible(rel, row)
}

/// Collected rows are rows of the stratum.
spec fn next_within(g: Graph, rule: InstId, stratum: Seq<Seq<char>>, st: Rows) -> bool {
    forall|rel: NameId, row: Seq<Val>|
        touches(g, rule, rel) && #[trigger] st.next.contains((rel, row)) ==> stratum.contains(g.name(rel))
}

/// New rows are rows of the stratum.
spec fn new_within(g: Graph, rule: InstId, stratum: Seq<Seq<char>>, st: Rows) -> bool {
    forall|rel: NameId, row: Seq<Val>|
        touches(g, rule, rel) && #[trigger] st.new.contains((rel, row)) ==> stratum.contains(g.name(rel))
}

/// No row is being collected that the rule reads.
spec fn none_read(g: Graph, rule: InstId, st: Rows) -> bool {
    forall|rel: NameId, row: Seq<Val>|
        rule_reads(g, rule, rel) ==> !#[trigger] st.next.contains((rel, row))
}

/// No row is being collected that the rule touches.
spec fn none_touched(g: Graph, rule: InstId, st: Rows) -> bool {
    forall|rel: NameId, row: Seq<Val>|
        touches(g, rule, rel) ==> !#[trigger] st.next.contains((rel, row))
}

/// What a plan derives is there.
spec fn done_with(base: World, names: Seq<Seq<char>>, plan: Plan, st: Rows) -> bool {
    forall|rel: NameId, row: Seq<Val>| #[trigger]
        derives(world_of(base, st), names, plan, Map::empty(), rel, row) ==> st.has(rel, row)
}

/// What the first `n` plans derive is there.
spec fn done_with_all(base: World, names: Seq<Seq<char>>, plans: Seq<Plan>, n: int, st: Rows) -> bool {
    forall|d: int| 0 <= d < n ==> done_with(base, names, #[trigger] plans[d], st)
}

/// The rule is among the first `n` of its stratum.
spec fn passed(pr: Program, t: int, rule: InstId, n: int) -> bool {
    exists|j: int| 0 <= j < n && j < pr.rules(t).len() && #[trigger] pr.rules(t)[j] == rule
}

/// What holds of a rule of the stratum `t` before the step of a phase.
spec fn kept(base: World, pr: Program, t: int, rule: InstId, p: Phase, st: Rows) -> bool {
    let g = pr.g;
    let own = pr.strata[t];
    match p {
        Phase::Create(_) => none_touched(g, rule, st),
        Phase::Initial { stratum, plan } => if stratum < t {
            true
        } else if stratum == t {
            &&& apart(g, rule, st)
            &&& next_within(g, rule, own, st)
            &&& passed(pr, t, rule, plan as int) ==> closed(base, g, rule, st)
        } else {
            closed(base, g, rule, st) && none_read(g, rule, st)
        },
        Phase::FirstMerge { stratum } => if stratum < t {
            true
        } else if stratum == t {
            apart(g, rule, st) && next_within(g, rule, own, st) && closed(base, g, rule, st)
        } else {
            closed(base, g, rule, st) && none_read(g, rule, st)
        },
        Phase::Round { stratum, plan, changed } => if stratum < t {
            true
        } else if stratum == t {
            &&& apart(g, rule, st)
            &&& next_within(g, rule, own, st)
            &&& new_within(g, rule, own, st)
            &&& was_closed(base, g, rule, st)
            &&& done_with_all(base, pr.later().names, pr.run().deltas(t), plan as int, st)
            &&& !changed ==> none_touched(g, rule, st)
        } else {
            closed(base, g, rule, st) && none_read(g, rule, st)
        },
        Phase::RoundMerge { stratum } => if stratum < t {
            true
        } else if stratum == t {
            apart(g, rule, st) && next_within(g, rule, own, st) && closed(base, g, rule, st)
        } else {
            closed(base, g, rule, st) && none_read(g, rule, st)
        },
        Phase::LoopCoalesce { stratum, .. } => if stratum < t {
            true
        } else if stratum == t {
            closed(base, g, rule, st) && none_touched(g, rule, st)
        } else {
            closed(base, g, rule, st) && none_read(g, rule, st)
        },
        Phase::LastMerge { stratum } => if stratum < t {
            true
        } else {
            closed(base, g, rule, st) && none_read(g, rule, st)
        },
        Phase::LastCoalesce { stratum, .. } => if stratum < t {
            none_touched(g, rule, st)
        } else {
            closed(base, g, rule, st) && none_touched(g, rule, st)
        },
        Phase::Done => closed(base, g, rule, st) && none_touched(g, rule, st),
    }
}

/// What a rule gives are rows of its head.
proof fn lemma_given(w: World, recent: Set<int>, g: Graph, rule: InstId, rel: NameId, row: Seq<Val>)
    requires
        rule_gives(w, recent, g, rule, rel, row),
    ensures
        head_relation(g, rule) == Some(rel),
{
}

/// A relation that a rule touches has a name.
proof fn lemma_touched(g: Graph, rule: InstId, rel: NameId)
    requires
        g.wf(),
        g.has(rule),
        touches(g, rule, rel),
    ensures
        g.has_name(rel),
{
    lemma_fits(g, rule);
    if rule_reads(g, rule, rel) {
        let k = choose|k: int|
            0 <= k < premises_of(g, rule).len() && premise_reads(g, #[trigger] premises_of(g, rule)[k], rel);
        let id = premises_of(g, rule)[k];
        lemma_fits(g, id);
        if let Node::NegAtom(inner) = g.node(id) {
            lemma_fits(g, inner);
        }
    } else if let Node::Rule { head, .. } = g.node(rule) {
        lemma_fits(g, head);
    }
}

/// Stores in which plans see the same of what a rule reads are closed alike.
proof fn lemma_closed_alike(base: World, g: Graph, rule: InstId, st: Rows, after: Rows)
    requires
        g.wf(),
        g.has(rule),
        closed(base, g, rule, st),
        forall|rel: NameId, row: Seq<Val>|
            rule_reads(g, rule, rel) ==> #[trigger] after.visible(rel, row) == st.visible(rel, row),
        forall|rel: NameId, row: Seq<Val>|
            touches(g, rule, rel) && st.has(rel, row) ==> #[trigger] after.has(rel, row),
    ensures
        closed(base, g, rule, after),
{
    let w = world_of(base, after);
    let o = world_of(base, st);
    assert forall|rel: NameId, row: Seq<Val>| #[trigger]
        rule_gives(w, Set::empty(), g, rule, rel, row) implies after.has(rel, row) by {
        assert forall|q: NameId, x: Seq<Val>| rule_reads(g, rule, q) implies #[trigger] (w.rows)(q, x) == (o.rows)(
            q,
            x,
        ) by {
            assert(after.visible(q, x) == st.visible(q, x));
        }
        a_rule_sees_what_it_reads(w, o, g, rule, rel, row);
        lemma_given(w, Set::empty(), g, rule, rel, row);
        assert(touches(g, rule, rel));
        assert(st.has(rel, row));
        assert(after.has(rel, row));
    }
}

/// A merge of rows that the rule does not read.
proof fn lemma_merge(base: World, g: Graph, rule: InstId, st: Rows, after: Rows)
    requires
        g.wf(),
        g.has(rule),
        after == (Rows { stable: st.stable.union(st.new), new: st.next, next: Set::empty() }),
        closed(base, g, rule, st),
        none_read(g, rule, st),
    ensures
        closed(base, g, rule, after),
        none_touched(g, rule, after),
{
    lemma_closed_alike(base, g, rule, st, after);
}

/// A merge at the start of a round.
proof fn lemma_round_merge(base: World, g: Graph, rule: InstId, stratum: Seq<Seq<char>>, st: Rows, after: Rows)
    requires
        g.wf(),
        g.has(rule),
        after == (Rows { stable: st.stable.union(st.new), new: st.next, next: Set::empty() }),
        apart(g, rule, st),
        next_within(g, rule, stratum, st),
        closed(base, g, rule, st),
    ensures
        apart(g, rule, after),
        next_within(g, rule, stratum, after),
        new_within(g, rule, stratum, after),
        was_closed(base, g, rule, after),
        none_touched(g, rule, after),
{
    let w = before(world_of(base, after));
    let o = world_of(base, st);
    assert forall|rel: NameId, row: Seq<Val>| #[trigger]
        rule_gives(w, Set::empty(), g, rule, rel, row) implies after.has(rel, row) by {
        assert forall|q: NameId, x: Seq<Val>| rule_reads(g, rule, q) implies #[trigger] (w.rows)(q, x) == (o.rows)(
            q,
            x,
        ) by {
            if st.next.contains((q, x)) {
                assert(touches(g, rule, q));
                assert(!st.visible(q, x));
            }
        }
        a_rule_sees_what_it_reads(w, o, g, rule, rel, row);
        assert(st.has(rel, row));
    }
}

/// A round in which all plans over new rows were run leaves the store closed.
proof fn lemma_round_closed(base: World, pr: Program, t: int, rule: InstId, st: Rows)
    requires
        pr.wf(),
        stratified(pr, t, rule),
        pr.run().loops(t),
        new_within(pr.g, rule, pr.strata[t], st),
        was_closed(base, pr.g, rule, st),
        done_with_all(base, pr.later().names, pr.run().deltas(t), pr.run().deltas(t).len() as int, st),
    ensures
        closed(base, pr.g, rule, st),
{
    let g = pr.g;
    let own = pr.strata[t];
    let names = pr.later().names;
    let deltas = pr.run().deltas(t);
    let w = world_of(base, st);
    plans_stand_for_rules(pr.hash_join, g, pr.strata);
    assert(plans_stand(names, pr.run().strata[t], pr.hash_join, g, own));
    let rules = pr.rules(t);
    let j = lemma_listed(g, own, g.nodes.len(), rule);
    lemma_rules_of(g, own, g.nodes.len());
    assert(simple_rule(g, rules[j]));
    let premises = premises_of(g, rule);
    assert forall|rel: NameId, row: Seq<Val>| #[trigger]
        rule_gives(w, Set::empty(), g, rule, rel, row) implies st.has(rel, row) by {
        if !rule_gives(before(w), Set::empty(), g, rule, rel, row) {
            let k = what_is_new_comes_from_new_rows(w, before(w), pr.hash_join, g, rule, rel, row);
            let q = relation_read(g, premises[k])->Some_0;
            assert(reads_new_rows(w, g, premises[k]));
            assert(has_new(w, q));
            let x = choose|x: Seq<Val>| #[trigger] is_new(w, q, x);
            assert(st.new.contains((q, x)));
            assert(premise_reads(g, premises_of(g, rule)[k], q));
            assert(touches(g, rule, q));
            assert(own.contains(g.name(q)));
            assert(read_relation(g, premises_of(g, rules[j])[k], own) == Some(q));
            assert(has_plan_for(names, deltas, pr.hash_join, g, rules[j], k, q));
            let recent = new_reads(
                g,
                Settings { delta: Some(q), at: Some(k as usize), hash_join: pr.hash_join },
                premises_of(g, rule),
            );
            let d = choose|d: int| 0 <= d < deltas.len() && stands_for(names, #[trigger] deltas[d], g, recent, rule);
            assert(derives(w, names, deltas[d], Map::empty(), rel, row));
            assert(done_with(base, names, deltas[d], st));
        } else {
            assert(st.has(rel, row));
        }
    }
}

/// A plan that stands for a rule of a stratum adds to its relations.
spec fn adds_within(base: World, names: Seq<Seq<char>>, plan: Plan, g: Graph, stratum: Seq<Seq<char>>) -> bool {
    forall|st: Rows, rel: NameId, row: Seq<Val>| #[trigger]
        adds(base, names, plan, st, rel, row) ==> stratum.contains(g.name(rel))
}

proof fn lemma_adds_within(
    base: World,
    names: Seq<Seq<char>>,
    plan: Plan,
    g: Graph,
    rules: Seq<InstId>,
    stratum: Seq<Seq<char>>,
)
    requires
        stands_for_some(names, plan, g, rules),
        forall|i: int| 0 <= i < rules.len() ==> in_stratum(g, #[trigger] rules[i], stratum),
    ensures
        adds_within(base, names, plan, g, stratum),
{
    let (i, recent) = choose|i: int, recent: Set<int>|
        0 <= i < rules.len() && #[trigger] stands_for(names, plan, g, recent, #[trigger] rules[i]);
    assert forall|st: Rows, rel: NameId, row: Seq<Val>| #[trigger]
        adds(base, names, plan, st, rel, row) implies stratum.contains(g.name(rel)) by {
        let w = world_of(base, st);
        assert(derives(w, names, plan, Map::empty(), rel, row));
        lemma_given(w, recent, g, rules[i], rel, row);
        assert(in_stratum(g, rules[i], stratum));
    }
}

/// The plans of a stratum add to its relations.
proof fn lemma_plans_add_within(base: World, pr: Program, s: int)
    requires
        pr.wf(),
        0 <= s < pr.strata.len(),
    ensures
        forall|i: int|
            0 <= i < pr.run().initial(s).len() ==> adds_within(
                base,
                pr.later().names,
                #[trigger] pr.run().initial(s)[i],
                pr.g,
                pr.strata[s],
            ),
        forall|i: int|
            0 <= i < pr.run().deltas(s).len() ==> adds_within(
                base,
                pr.later().names,
                #[trigger] pr.run().deltas(s)[i],
                pr.g,
                pr.strata[s],
            ),
        pr.run().initial(s).len() == pr.rules(s).len(),
        all_stand(pr.later().names, pr.run().initial(s), pr.g, pr.rules(s)),
        pr.run().strata.len() == pr.strata.len(),
        pr.rules(s).len() > 0 && !pr.run().loops(s) ==> !recursive(pr.g, pr.rules(s), pr.strata[s]),
{
    let g = pr.g;
    let names = pr.later().names;
    let rules = pr.rules(s);
    plans_stand_for_rules(pr.hash_join, g, pr.strata);
    assert(plans_stand(names, pr.run().strata[s], pr.hash_join, g, pr.strata[s]));
    lemma_rules_of(g, pr.strata[s], g.nodes.len());
    assert forall|i: int| 0 <= i < pr.run().initial(s).len() implies adds_within(
        base,
        names,
        #[trigger] pr.run().initial(s)[i],
        g,
        pr.strata[s],
    ) by {
        assert(stands_for(names, pr.run().initial(s)[i], g, Set::empty(), rules[i]));
        lemma_adds_within(base, names, pr.run().initial(s)[i], g, rules, pr.strata[s]);
    }
    assert forall|i: int| 0 <= i < pr.run().deltas(s).len() implies adds_within(
        base,
        names,
        #[trigger] pr.run().deltas(s)[i],
        g,
        pr.strata[s],
    ) by {
        assert(stands_for_some(names, pr.run().deltas(s)[i], g, rules));
        lemma_adds_within(base, names, pr.run().deltas(s)[i], g, rules, pr.strata[s]);
    }
}

/// Running a plan keeps a store closed.
proof fn lemma_execute(
    base: World,
    names: Seq<Seq<char>>,
    plan: Plan,
    g: Graph,
    rule: InstId,
    stratum: Seq<Seq<char>>,
    st: Rows,
    after: Rows,
    added: bool,
)
    requires
        executed(base, names, plan, st, after, added),
        adds_within(base, names, plan, g, stratum),
    ensures
        world_of(base, after) == world_of(base, st),
        forall|rel: NameId, row: Seq<Val>| st.has(rel, row) ==> #[trigger] after.has(rel, row),
        closed(base, g, rule, st) ==> closed(base, g, rule, after),
        was_closed(base, g, rule, st) ==> was_closed(base, g, rule, after),
        new_within(g, rule, stratum, st) ==> new_within(g, rule, stratum, after),
        apart(g, rule, st) ==> apart(g, rule, after),
        next_within(g, rule, stratum, st) ==> next_within(g, rule, stratum, after),
        done_with(base, names, plan, after),
        !added && none_touched(g, rule, st) ==> none_touched(g, rule, after),
        none_read(g, rule, st) && (forall|rel: NameId| #[trigger]
            rule_reads(g, rule, rel) ==> !stratum.contains(g.name(rel))) ==> none_read(g, rule, after),
        forall|other: Plan|
            done_with(base, names, other, st) ==> #[trigger] done_with(base, names, other, after),
{
    assert(world_of(base, after) == world_of(base, st));
    assert forall|rel: NameId, row: Seq<Val>| st.has(rel, row) implies #[trigger] after.has(rel, row) by {
        if st.next.contains((rel, row)) {
            assert(after.next.contains((rel, row)));
        }
    }
    assert forall|rel: NameId, row: Seq<Val>| #[trigger]
        derives(world_of(base, after), names, plan, Map::empty(), rel, row) implies after.has(rel, row) by {
        if !st.has(rel, row) {
            assert(adds(base, names, plan, st, rel, row));
            assert(after.next.contains((rel, row)));
        }
    }
    assert forall|other: Plan| done_with(base, names, other, st) implies #[trigger] done_with(
        base,
        names,
        other,
        after,
    ) by {
        assert forall|rel: NameId, row: Seq<Val>| #[trigger]
            derives(world_of(base, after), names, other, Map::empty(), rel, row) implies after.has(rel, row) by {
            assert(st.has(rel, row));
        }
    }
    assert(apart(g, rule, st) ==> apart(g, rule, after));
    if closed(base, g, rule, st) {
        assert forall|rel: NameId, row: Seq<Val>| #[trigger]
            rule_gives(world_of(base, after), Set::empty(), g, rule, rel, row) implies after.has(rel, row) by {
            assert(st.has(rel, row));
        }
    }
    if was_closed(base, g, rule, st) {
        assert forall|rel: NameId, row: Seq<Val>| #[trigger]
            rule_gives(before(world_of(base, after)), Set::empty(), g, rule, rel, row) implies after.has(
            rel,
            row,
        ) by {
            assert(st.has(rel, row));
        }
    }
    if !added && none_touched(g, rule, st) {
        assert forall|rel: NameId, row: Seq<Val>| touches(g, rule, rel) implies !#[trigger] after.next.contains(
            (rel, row),
        ) by {
            if after.next.contains((rel, row)) {
                assert(adds(base, names, plan, st, rel, row));
            }
        }
    }
}

/// Joining the intervals of a relation that the rule does not touch.
proof fn lemma_coalesce(base: World, pr: Program, rule: InstId, name: Seq<char>, st: Rows, after: Rows)
    requires
        pr.wf(),
        pr.g.has(rule),
        timeless(pr, rule),
        pr.run().temporals.contains(name),
        coalesced(pr.later().names, name, st, after),
    ensures
        closed(base, pr.g, rule, st) ==> closed(base, pr.g, rule, after),
        none_touched(pr.g, rule, st) ==> none_touched(pr.g, rule, after),
        none_read(pr.g, rule, st) ==> none_read(pr.g, rule, after),
{
    let g = pr.g;
    plans_stand_for_rules(pr.hash_join, g, pr.strata);
    assert forall|rel: NameId, row: Seq<Val>| touches(g, rule, rel) implies {
        &&& #[trigger] after.stable.contains((rel, row)) == st.stable.contains((rel, row))
        &&& after.new.contains((rel, row)) == st.new.contains((rel, row))
        &&& after.next.contains((rel, row)) == st.next.contains((rel, row))
    } by {
        lemma_touched(g, rule, rel);
        assert(g.names[rel.0 as int] == pr.later().names[rel.0 as int]);
        assert(!pr.run().temporals.contains(g.name(rel)));
    }
    assert forall|rel: NameId, row: Seq<Val>|
        touches(g, rule, rel) implies #[trigger] after.next.contains((rel, row)) == st.next.contains((rel, row)) by {
        assert(after.stable.contains((rel, row)) == st.stable.contains((rel, row)));
    }
    if closed(base, g, rule, st) {
        assert forall|rel: NameId, row: Seq<Val>|
            rule_reads(g, rule, rel) implies #[trigger] after.visible(rel, row) == st.visible(rel, row) by {
            assert(touches(g, rule, rel));
            assert(after.stable.contains((rel, row)) == st.stable.contains((rel, row)));
        }
        assert forall|rel: NameId, row: Seq<Val>|
            touches(g, rule, rel) && st.has(rel, row) implies #[trigger] after.has(rel, row) by {
            assert(after.stable.contains((rel, row)) == st.stable.contains((rel, row)));
        }
        lemma_closed_alike(base, g, rule, st, after);
    }
    if none_read(g, rule, st) {
        assert forall|rel: NameId, row: Seq<Val>|
            rule_reads(g, rule, rel) implies !#[trigger] after.next.contains((rel, row)) by {
            assert(touches(g, rule, rel));
            assert(!st.next.contains((rel, row)));
        }
    }
    if none_touched(g, rule, st) {
        assert forall|rel: NameId, row: Seq<Val>|
            touches(g, rule, rel) implies !#[trigger] after.next.contains((rel, row)) by {
            assert(!st.next.contains((rel, row)));
        }
    }
}

/// Without recursion no row is being collected that a rule of the stratum reads.
proof fn lemma_unread(pr: Program, t: int, rule: InstId, st: Rows)
    requires
        pr.wf(),
        stratified(pr, t, rule),
        !recursive(pr.g, pr.rules(t), pr.strata[t]),
        next_within(pr.g, rule, pr.strata[t], st),
    ensures
        none_read(pr.g, rule, st),
{
    let g = pr.g;
    let own = pr.strata[t];
    let j = lemma_listed(g, own, g.nodes.len(), rule);
    assert(pr.rules(t)[j] == rule);
    assert forall|rel: NameId, row: Seq<Val>| rule_reads(g, rule, rel) implies !#[trigger] st.next.contains(
        (rel, row),
    ) by {
        if st.next.contains((rel, row)) {
            assert(touches(g, rule, rel));
            let k = choose|k: int|
                0 <= k < premises_of(g, rule).len() && premise_reads(g, #[trigger] premises_of(g, rule)[k], rel);
            let id = premises_of(g, rule)[k];
            if relation_read(g, id) == Some(rel) {
                assert(read_relation(g, premises_of(g, rule)[k], own) is Some);
                assert(reads_stratum(g, pr.rules(t)[j], own));
            } else {
                assert(denies(g, rule, rel));
            }
        }
    }
}

/// Entering a stratum.
proof fn lemma_entered(base: World, pr: Program, t: int, rule: InstId, s: int, st: Rows)
    requires
        pr.wf(),
        stratified(pr, t, rule),
        0 <= s <= pr.strata.len(),
        none_touched(pr.g, rule, st),
        s > t ==> closed(base, pr.g, rule, st),
    ensures
        kept(base, pr, t, rule, pr.run().entered(s), st),
{
    let g = pr.g;
    plans_stand_for_rules(pr.hash_join, g, pr.strata);
    assert(none_read(g, rule, st)) by {
        assert forall|rel: NameId, row: Seq<Val>|
            rule_reads(g, rule, rel) implies !#[trigger] st.next.contains((rel, row)) by {
            assert(touches(g, rule, rel));
        }
    }
    if s == t {
        lemma_plans_add_within(base, pr, t);
        let j = lemma_listed(g, pr.strata[t], g.nodes.len(), rule);
    }
}

/// A step keeps what holds of a rule.
#[verifier::rlimit(60)]
proof fn lemma_step(
    base: World,
    pr: Program,
    t: int,
    rule: InstId,
    p: Phase,
    added: bool,
    st: Rows,
    after: Rows,
)
    requires
        pr.wf(),
        stratified(pr, t, rule),
        timeless(pr, rule),
        pr.run().admits(p),
        kept(base, pr, t, rule, p, st),
        performed(base, pr.later().names, pr.run().action(p), st, after, added),
    ensures
        kept(base, pr, t, rule, pr.run().after(p, added), after),
{
    let g = pr.g;
    let run = pr.run();
    let own = pr.strata[t];
    let names = pr.later().names;
    plans_stand_for_rules(pr.hash_join, g, pr.strata);
    match p {
        Phase::Create(i) => {
            if !(i + 1 < run.relations.len()) {
                lemma_entered(base, pr, t, rule, 0, after);
            }
        },
        Phase::Initial { stratum, plan } => {
            lemma_initial_step(base, pr, t, rule, stratum, plan, added, st, after);
        },
        Phase::FirstMerge { stratum } => {
            lemma_merge_step(base, pr, t, rule, stratum, st, after);
        },
        Phase::Round { stratum, plan, changed } => {
            lemma_round_step(base, pr, t, rule, stratum, plan, changed, added, st, after);
        },
        Phase::RoundMerge { stratum } => {
            lemma_merge_step(base, pr, t, rule, stratum, st, after);
        },
        Phase::LoopCoalesce { stratum, relation } => {
            lemma_coalesce(base, pr, rule, run.temporals[relation as int], st, after);
            lemma_unread_from_untouched(g, rule, after);
        },
        Phase::LastMerge { stratum } => {
            if stratum >= t {
                lemma_merge(base, g, rule, st, after);
            }
            assert(none_touched(g, rule, after));
            if !(run.temporals.len() > 0) {
                lemma_entered(base, pr, t, rule, stratum + 1, after);
            }
        },
        Phase::LastCoalesce { stratum, relation } => {
            lemma_coalesce(base, pr, rule, run.temporals[relation as int], st, after);
            if !(relation + 1 < run.temporals.len()) {
                lemma_entered(base, pr, t, rule, stratum + 1, after);
            }
        },
        Phase::Done => {},
    }
}

/// What is not touched is not read.
proof fn lemma_unread_from_untouched(g: Graph, rule: InstId, st: Rows)
    ensures
        none_touched(g, rule, st) ==> none_read(g, rule, st),
{
    if none_touched(g, rule, st) {
        assert forall|rel: NameId, row: Seq<Val>|
            rule_reads(g, rule, rel) implies !#[trigger] st.next.contains((rel, row)) by {
            assert(touches(g, rule, rel));
        }
    }
}

/// A plan of a stratum that is run once.
proof fn lemma_initial_step(
    base: World,
    pr: Program,
    t: int,
    rule: InstId,
    stratum: usize,
    plan: usize,
    added: bool,
    st: Rows,
    after: Rows,
)
    requires
        pr.wf(),
        stratified(pr, t, rule),
        stratum < pr.strata.len(),
        pr.run().strata.len() == pr.strata.len(),
        plan < pr.run().initial(stratum as int).len(),
        kept(base, pr, t, rule, Phase::Initial { stratum, plan }, st),
        executed(base, pr.later().names, pr.run().initial(stratum as int)[plan as int], st, after, added),
    ensures
        kept(base, pr, t, rule, pr.run().after(Phase::Initial { stratum, plan }, added), after),
{
    let g = pr.g;
    let run = pr.run();
    let own = pr.strata[t];
    let names = pr.later().names;
    let s = stratum as int;
    let here = pr.strata[s];
    let op = run.initial(s)[plan as int];
    lemma_plans_add_within(base, pr, s);
    assert(adds_within(base, names, op, g, here));
    lemma_execute(base, names, op, g, rule, here, st, after, added);
    if s == t {
        let rules = pr.rules(t);
        assert(stands_for(names, op, g, Set::empty(), rules[plan as int]));
        if passed(pr, t, rule, plan + 1) && !passed(pr, t, rule, plan as int) {
            let j = choose|j: int| 0 <= j < plan + 1 && j < rules.len() && #[trigger] pr.rules(t)[j] == rule;
            assert(j == plan);
            let w = world_of(base, after);
            assert forall|rel: NameId, row: Seq<Val>| #[trigger]
                rule_gives(w, Set::empty(), g, rule, rel, row) implies after.has(rel, row) by {
                assert(derives(w, names, op, Map::empty(), rel, row));
                assert(done_with(base, names, op, after));
            }
            assert(closed(base, g, rule, after));
        }
        assert(passed(pr, t, rule, plan + 1) ==> closed(base, g, rule, after));
        if !(plan + 1 < run.initial(s).len()) {
            let j = lemma_listed(g, own, g.nodes.len(), rule);
            assert(pr.rules(t)[j] == rule);
            assert(passed(pr, t, rule, plan + 1));
            if !run.loops(s) {
                lemma_unread(pr, t, rule, after);
            }
        }
    } else if s > t {
        assert forall|rel: NameId| #[trigger] rule_reads(g, rule, rel) implies !here.contains(g.name(rel)) by {
            assert(!pr.strata[s].contains(pr.g.name(rel)));
        }
    }
}

/// A merge before a round.
proof fn lemma_merge_step(
    base: World,
    pr: Program,
    t: int,
    rule: InstId,
    stratum: usize,
    st: Rows,
    after: Rows,
)
    requires
        pr.wf(),
        stratified(pr, t, rule),
        stratum < pr.strata.len(),
        pr.run().strata.len() == pr.strata.len(),
        pr.run().loops(stratum as int),
        kept(base, pr, t, rule, Phase::RoundMerge { stratum }, st),
        after == (Rows { stable: st.stable.union(st.new), new: st.next, next: Set::empty() }),
    ensures
        kept(base, pr, t, rule, pr.run().round(stratum), after),
{
    let g = pr.g;
    let run = pr.run();
    let s = stratum as int;
    if s == t {
        lemma_round_merge(base, g, rule, pr.strata[t], st, after);
        if run.deltas(s).len() == 0 {
            lemma_round_closed(base, pr, t, rule, after);
            lemma_unread_from_untouched(g, rule, after);
        }
    } else if s > t {
        lemma_merge(base, g, rule, st, after);
        lemma_unread_from_untouched(g, rule, after);
    }
}

/// A plan over new rows.
proof fn lemma_round_step(
    base: World,
    pr: Program,
    t: int,
    rule: InstId,
    stratum: usize,
    plan: usize,
    changed: bool,
    added: bool,
    st: Rows,
    after: Rows,
)
    requires
        pr.wf(),
        stratified(pr, t, rule),
        stratum < pr.strata.len(),
        pr.run().strata.len() == pr.strata.len(),
        plan < pr.run().deltas(stratum as int).len(),
        kept(base, pr, t, rule, Phase::Round { stratum, plan, changed }, st),
        executed(base, pr.later().names, pr.run().deltas(stratum as int)[plan as int], st, after, added),
    ensures
        kept(base, pr, t, rule, pr.run().after(Phase::Round { stratum, plan, changed }, added), after),
{
    let g = pr.g;
    let run = pr.run();
    let names = pr.later().names;
    let s = stratum as int;
    let here = pr.strata[s];
    let op = run.deltas(s)[plan as int];
    lemma_plans_add_within(base, pr, s);
    assert(adds_within(base, names, op, g, here));
    lemma_execute(base, names, op, g, rule, here, st, after, added);
    if s == t {
        assert(done_with_all(base, names, run.deltas(t), plan + 1, after)) by {
            assert forall|d: int| 0 <= d < plan + 1 implies done_with(
                base,
                names,
                #[trigger] run.deltas(t)[d],
                after,
            ) by {
                if d < plan {
                    assert(done_with(base, names, run.deltas(t)[d], st));
                }
            }
        }
        if !(plan + 1 < run.deltas(s).len()) {
            assert(run.loops(t));
            lemma_round_closed(base, pr, t, rule, after);
            lemma_unread_from_untouched(g, rule, after);
        }
    } else if s > t {
        assert forall|rel: NameId| #[trigger] rule_reads(g, rule, rel) implies !here.contains(g.name(rel)) by {
            assert(!pr.strata[s].contains(pr.g.name(rel)));
        }
    }
}

/// What holds of a rule after `i` steps.
#[verifier::rlimit(60)]
#[verifier::spinoff_prover]
proof fn lemma_kept(
    base: World,
    pr: Program,
    t: int,
    rule: InstId,
    added: Seq<bool>,
    states: Seq<Rows>,
    n: nat,
    i: nat,
)
    requires
        pr.wf(),
        stratified(pr, t, rule),
        timeless(pr, rule),
        executes(base, pr, added, states, n),
        states[0].next == Set::<(NameId, Seq<Val>)>::empty(),
        i <= n,
    ensures
        kept(base, pr, t, rule, pr.run().reached(added, i), states[i as int]),
    decreases i,
{
    if i == 0 {
        assert(none_touched(pr.g, rule, states[0]));
        if pr.run().relations.len() == 0 {
            lemma_entered(base, pr, t, rule, 0, states[0]);
        }
    } else {
        lemma_kept(base, pr, t, rule, added, states, n, (i - 1) as nat);
        phases_are_admitted(pr.run(), added, (i - 1) as nat);
        let p = pr.run().reached(added, (i - 1) as nat);
        assert(performed(
            base,
            pr.later().names,
            pr.run().action(pr.run().reached(added, (i - 1) as nat)),
            states[i - 1],
            states[i - 1 + 1],
            added[i - 1],
        ));
        lemma_step(base, pr, t, rule, p, added[i - 1], states[i - 1], states[i as int]);
    }
}

/// A finished execution leaves rows that are closed under the rules of the program: whatever a
/// rule gives on the rows at the end is among them. This is of rules without groups that touch no
/// relation of intervals, in strata that are in order, run from a store in which no row is being
/// collected.
#[verifier::rlimit(60)]
#[verifier::spinoff_prover]
pub proof fn a_finished_execution_is_closed(
    base: World,
    pr: Program,
    t: int,
    rule: InstId,
    added: Seq<bool>,
    states: Seq<Rows>,
    n: nat,
    rel: NameId,
    row: Seq<Val>,
)
    requires
        pr.wf(),
        stratified(pr, t, rule),
        timeless(pr, rule),
        executes(base, pr, added, states, n),
        states[0].next == Set::<(NameId, Seq<Val>)>::empty(),
        pr.run().reached(added, n) is Done,
    ensures
        rule_gives(world_of(base, states[n as int]), Set::empty(), pr.g, rule, rel, row)
            ==> states[n as int].visible(rel, row),
{
    lemma_kept(base, pr, t, rule, added, states, n, n);
    let st = states[n as int];
    if rule_gives(world_of(base, st), Set::empty(), pr.g, rule, rel, row) {
        lemma_given(world_of(base, st), Set::empty(), pr.g, rule, rel, row);
        assert(touches(pr.g, rule, rel));
        assert(st.has(rel, row));
        assert(!st.next.contains((rel, row)));
    }
}

/// Running the plan of a rule once more, after the execution is finished, adds nothing.
#[verifier::rlimit(60)]
#[verifier::spinoff_prover]
pub proof fn running_again_adds_nothing(
    base: World,
    pr: Program,
    t: int,
    i: int,
    added: Seq<bool>,
    states: Seq<Rows>,
    n: nat,
    after: Rows,
    again: bool,
)
    requires
        pr.wf(),
        0 <= t < pr.strata.len(),
        0 <= i < pr.rules(t).len(),
        stratified(pr, t, pr.rules(t)[i]),
        timeless(pr, pr.rules(t)[i]),
        executes(base, pr, added, states, n),
        states[0].next == Set::<(NameId, Seq<Val>)>::empty(),
        pr.run().reached(added, n) is Done,
        performed(
            base,
            pr.later().names,
            Action::Execute(pr.run().initial(t)[i]),
            states[n as int],
            after,
            again,
        ),
    ensures
        !again,
        after == states[n as int],
{
    let rule = pr.rules(t)[i];
    let st = states[n as int];
    let names = pr.later().names;
    let plan = pr.run().initial(t)[i];
    let w = world_of(base, st);
    lemma_plans_add_within(base, pr, t);
    assert(stands_for(names, plan, pr.g, Set::empty(), rule));
    assert forall|rel: NameId, row: Seq<Val>| !#[trigger] adds(base, names, plan, st, rel, row) by {
        a_finished_execution_is_closed(base, pr, t, rule, added, states, n, rel, row);
        if derives(w, names, plan, Map::empty(), rel, row) {
            assert(rule_gives(w, Set::empty(), pr.g, rule, rel, row));
        }
    }
    assert forall|x: (NameId, Seq<Val>)| #[trigger] after.next.contains(x) == st.next.contains(x) by {
        assert(after.next.contains((x.0, x.1)) == st.next.contains((x.0, x.1)));
    }
    assert(after.next =~= st.next);
}

/// The rows of a store, by the names of its relations.
pub open spec fn rows_in<S: Contents>(s: &S, names: Seq<Seq<char>>) -> Rows {
    Rows {
        stable: rows_of_tier(s, Tier::Stable, names),
        new: rows_of_tier(s, Tier::Delta, names),
        next: rows_of_tier(s, Tier::NextDelta, names),
    }
}

/// The rows of a tier of a store.
pub open spec fn rows_of_tier<S: Contents>(s: &S, t: Tier, names: Seq<Seq<char>>) -> Set<(NameId, Seq<Val>)> {
    Set::new(
        |x: (NameId, Seq<Val>)| x.0.0 < names.len() && s.has(t, names[x.0.0 as int], x.1),
    )
}

/// A merge of a store that knows the relations is the merge of an execution.
pub proof fn a_merge_is_a_step<S: Contents>(
    base: World,
    names: Seq<Seq<char>>,
    before: &S,
    after: &S,
    added: bool,
)
    requires
        round_ended(before, after),
        before.roomy(0),
        forall|i: int| 0 <= i < names.len() ==> before.knows(#[trigger] names[i]),
    ensures
        performed(base, names, Action::Merge, rows_in(before, names), rows_in(after, names), added),
{
    let a = rows_in(before, names);
    let b = rows_in(after, names);
    assert forall|x: (NameId, Seq<Val>)| x.0.0 < names.len() implies {
        &&& #[trigger] b.stable.contains(x) == (a.stable.contains(x) || a.new.contains(x))
        &&& b.new.contains(x) == a.next.contains(x)
        &&& !b.next.contains(x)
    } by {
        let q = names[x.0.0 as int];
        assert(before.knows(q));
        assert(after.has(Tier::Stable, q, x.1) <==> merged_has(before, Tier::Stable, q, x.1));
        assert(after.has(Tier::Delta, q, x.1) <==> merged_has(before, Tier::Delta, q, x.1));
        assert(after.has(Tier::NextDelta, q, x.1) <==> merged_has(before, Tier::NextDelta, q, x.1));
    }
    assert(b.stable =~= a.stable.union(a.new)) by {
        assert forall|x: (NameId, Seq<Val>)| b.stable.contains(x) == a.stable.union(a.new).contains(x) by {
            if x.0.0 < names.len() {
                assert(b.stable.contains(x) == (a.stable.contains(x) || a.new.contains(x)));
            }
        }
    }
    assert(b.new =~= a.next) by {
        assert forall|x: (NameId, Seq<Val>)| b.new.contains(x) == a.next.contains(x) by {
            if x.0.0 < names.len() {
                assert(b.stable.contains(x) == (a.stable.contains(x) || a.new.contains(x)));
            }
        }
    }
    assert(b.next =~= Set::empty()) by {
        assert forall|x: (NameId, Seq<Val>)| !b.next.contains(x) by {
            if x.0.0 < names.len() {
                assert(b.stable.contains(x) == (a.stable.contains(x) || a.new.contains(x)));
            }
        }
    }
}

/// Adding a row to a store collects it where it is not there, and changes nothing else.
pub proof fn an_added_row_is_collected<S: Contents>(
    names: Seq<Seq<char>>,
    before: &S,
    rel: NameId,
    row: Seq<Val>,
    r: Result<bool, StoreError>,
    after: &S,
)
    requires
        names.no_duplicates(),
        rel.0 < names.len(),
        row_collected(before, names[rel.0 as int], row, r, after),
        r is Ok,
    ensures
        rows_in(after, names).stable == rows_in(before, names).stable,
        rows_in(after, names).new == rows_in(before, names).new,
        rows_in(after, names).next == if rows_in(before, names).has(rel, row) {
            rows_in(before, names).next
        } else {
            rows_in(before, names).next.insert((rel, row))
        },
{
    let a = rows_in(before, names);
    let b = rows_in(after, names);
    let q = names[rel.0 as int];
    assert(present(before, q, row) == a.has(rel, row));
    assert forall|x: (NameId, Seq<Val>)| x.0.0 < names.len() && x.0 != rel implies #[trigger] names[x.0.0 as int]
        != q by {}
    assert forall|t: Tier, x: (NameId, Seq<Val>)| x.0.0 < names.len() implies #[trigger] rows_of_tier(
        after,
        t,
        names,
    ).contains(x) == (rows_of_tier(before, t, names).contains(x) || (r == Ok::<bool, StoreError>(true) && t
        == Tier::NextDelta && x == (rel, row))) by {
        let n = names[x.0.0 as int];
        assert(after.has(t, n, x.1) <==> before.has(t, n, x.1) || (r == Ok::<bool, StoreError>(true) && t
            == Tier::NextDelta && n == q && x.1 == row));
    }
    assert(b.stable =~= a.stable);
    assert(b.new =~= a.new);
    assert(a.has(rel, row) ==> b.next =~= a.next);
    assert(!a.has(rel, row) ==> b.next =~= a.next.insert((rel, row)));
}

} // verus!
