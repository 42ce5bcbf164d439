//! What a plan derives from the new rows of a relation.
use vstd::prelude::*;

use crate::ir::{ids_below, Graph, InstId, NameId, Node};
use crate::plan_expr::{interleaved, least, lemma_interleaved, PlanState};
use crate::plan_laws::a_plan_derives_what_its_rule_gives;
use crate::plan_meaning::{
    field_values, head_is, let_holds, new_reads, plan_derives, plannable, premise_holds, rule_gives,
    satisfied, value, values, Env, World,
};
use crate::plan_terms::lemma_fits;
use crate::planner::{built_in, rule_planned, Settings};
use crate::program_laws::denies;
use crate::schedule::premises_of;
use crate::value::Val;

verus! {

/// Reading only new rows of a relation derives nothing that the rule does not give, where the
/// new rows are rows.
pub proof fn new_rows_derive_nothing_else(
    w: World,
    s: Settings,
    p: PlanState,
    rule: InstId,
    rel: NameId,
    row: Seq<Val>,
)
    requires
        forall|r: NameId, t: Seq<Val>| #[trigger] (w.delta)(r, t) ==> (w.rows)(r, t),
        plannable(p, rule),
        rule_planned(s, p, rule).1 is Ok,
        plan_derives(w, s, p, rule, rel, row),
    ensures
        rule_gives(w, Set::empty(), p.g, rule, rel, row),
{
    let g = p.g;
    a_plan_derives_what_its_rule_gives(w, s, p, rule, rel, row);
    if let Node::Rule { head, premises, transform } = g.node(rule) {
        let recent = new_reads(g, s, premises);
        let z = choose|z: Env| #[trigger]
            satisfied(w, recent, g, premises, 0, transform, 0, z) && head_is(w, g, head, z, rel, row);
        assert forall|k: int| 0 <= k < premises.len() implies premise_holds(
            w,
            false,
            g,
            #[trigger] premises[k],
            z,
        ) by {
            assert(premise_holds(w, recent.contains(k), g, premises[k], z));
        }
        assert(satisfied(w, Set::empty(), g, premises, 0, transform, 0, z));
    }
}

/// What held before the new rows came.
pub open spec fn before(w: World) -> World {
    World { rows: |r: NameId, t: Seq<Val>| (w.rows)(r, t) && !(w.delta)(r, t), ..w }
}

/// The relation that a premise reads, if it is an atom and its predicate is not built in.
pub open spec fn relation_read(g: Graph, premise: InstId) -> Option<NameId> {
    match g.node(premise) {
        Node::Atom { predicate, .. } => if built_in(g.name(predicate)) {
            None
        } else {
            Some(predicate)
        },
        _ => None,
    }
}

/// Planning with the new rows of one premise.
pub open spec fn at_premise(g: Graph, premises: Seq<InstId>, k: int, hash_join: bool) -> Settings {
    Settings { delta: relation_read(g, premises[k]), at: Some(k as usize), hash_join }
}

/// Whether the plan of a rule that reads the new rows of one of its premises derives a row.
pub open spec fn derived_at(
    w: World,
    hash_join: bool,
    p: PlanState,
    rule: InstId,
    k: int,
    rel: NameId,
    row: Seq<Val>,
) -> bool {
    relation_read(p.g, premises_of(p.g, rule)[k]) is Some && plan_derives(
        w,
        at_premise(p.g, premises_of(p.g, rule), k, hash_join),
        p,
        rule,
        rel,
        row,
    )
}

/// The rule can be planned with the new rows of each of its premises, and a machine can count
/// them.
pub open spec fn plannable_at_each(hash_join: bool, p: PlanState, rule: InstId) -> bool {
    &&& premises_of(p.g, rule).len() <= usize::MAX
    &&& forall|k: int|
        0 <= k < premises_of(p.g, rule).len() && relation_read(
            p.g,
            premises_of(p.g, rule)[k],
        ) is Some ==> (#[trigger] rule_planned(
            at_premise(p.g, premises_of(p.g, rule), k, hash_join),
            p,
            rule,
        )).1 is Ok
}

/// Both compute the same and differ at most in their rows.
pub open spec fn alike(w: World, v: World) -> bool {
    &&& w.constant == v.constant
    &&& w.apply == v.apply
    &&& w.order == v.order
    &&& w.test == v.test
}

/// Whether a premise reads a relation, in an atom or in a negated one.
pub open spec fn premise_reads(g: Graph, premise: InstId, rel: NameId) -> bool {
    ||| relation_read(g, premise) == Some(rel)
    ||| g.node(premise) matches Node::NegAtom(inner) && (g.node(inner) matches Node::Atom { predicate, .. }
        && predicate == rel)
}

/// Whether a rule reads a relation.
pub open spec fn rule_reads(g: Graph, rule: InstId, rel: NameId) -> bool {
    exists|k: int|
        0 <= k < premises_of(g, rule).len() && premise_reads(g, #[trigger] premises_of(g, rule)[k], rel)
}

/// Terms do not read relations.
proof fn lemma_value_alike(w: World, v: World, g: Graph, id: InstId, s: Env)
    requires
        g.wf(),
        g.has(id),
        alike(w, v),
    ensures
        value(v, g, id, s) == value(w, g, id, s),
    decreases id.0, 1nat, 0nat,
{
    assert(g.nodes[id.0 as int].fits(id.0 as nat, g.names.len(), g.strings.len()));
    match g.node(id) {
        Node::ApplyFn { function, args } => {
            lemma_values_alike(w, v, g, args, args.len(), id.0 as nat, s);
        },
        Node::List(items) => {
            lemma_values_alike(w, v, g, items, items.len(), id.0 as nat, s);
        },
        Node::Dict { keys, values: vs } => {
            let n = least(keys.len(), vs.len());
            lemma_interleaved(keys, vs, n, id.0 as nat);
            let ids = interleaved(keys, vs, n);
            lemma_values_alike(w, v, g, ids, ids.len(), id.0 as nat, s);
        },
        Node::Struct { fields, values: vs } => {
            lemma_fields_alike(w, v, g, fields, vs, vs.len(), id.0 as nat, s);
        },
        _ => {},
    }
}

proof fn lemma_values_alike(
    w: World,
    v: World,
    g: Graph,
    ids: Seq<InstId>,
    n: nat,
    limit: nat,
    s: Env,
)
    requires
        g.wf(),
        limit <= g.nodes.len(),
        ids_below(ids, limit),
        n <= ids.len(),
        alike(w, v),
    ensures
        values(v, g, ids, n, limit, s) == values(w, g, ids, n, limit, s),
    decreases limit, 0nat, n,
{
    if n > 0 {
        lemma_values_alike(w, v, g, ids, (n - 1) as nat, limit, s);
        lemma_value_alike(w, v, g, ids[n - 1], s);
    }
}

proof fn lemma_fields_alike(
    w: World,
    v: World,
    g: Graph,
    fields: Seq<NameId>,
    ids: Seq<InstId>,
    n: nat,
    limit: nat,
    s: Env,
)
    requires
        g.wf(),
        limit <= g.nodes.len(),
        ids_below(ids, limit),
        n <= ids.len(),
        alike(w, v),
    ensures
        field_values(v, g, fields, ids, n, limit, s) == field_values(
            w,
            g,
            fields,
            ids,
            n,
            limit,
            s,
        ),
    decreases limit, 0nat, n,
{
    if n > 0 {
        lemma_fields_alike(w, v, g, fields, ids, (n - 1) as nat, limit, s);
        lemma_value_alike(w, v, g, ids[n - 1], s);
    }
}

/// A premise that holds and reads no new row held before.
proof fn lemma_premise_before(w: World, o: World, g: Graph, id: InstId, s: Env)
    requires
        g.wf(),
        g.has(id),
        alike(w, o),
        premise_holds(w, false, g, id, s),
        relation_read(g, id) is Some ==> !premise_holds(w, true, g, id, s),
        forall|q: NameId, t: Seq<Val>|
            premise_reads(g, id, q) && #[trigger] (o.rows)(q, t) ==> (w.rows)(q, t),
        forall|q: NameId, t: Seq<Val>|
            premise_reads(g, id, q) && #[trigger] (w.rows)(q, t) && !(w.delta)(q, t) ==> (o.rows)(q, t),
    ensures
        premise_holds(o, false, g, id, s),
{
    lemma_fits(g, id);
    match g.node(id) {
        Node::Atom { predicate, args } => {
            lemma_values_alike(w, o, g, args, args.len(), g.nodes.len(), s);
            let vs = values(w, g, args, args.len(), g.nodes.len(), s);
            if !built_in(g.name(predicate)) {
                assert(premise_reads(g, id, predicate));
                assert((w.rows)(predicate, vs) && !(w.delta)(predicate, vs));
            }
        },
        Node::Eq(l, r) => {
            lemma_value_alike(w, o, g, l, s);
            lemma_value_alike(w, o, g, r, s);
        },
        Node::Ineq(l, r) => {
            lemma_value_alike(w, o, g, l, s);
            lemma_value_alike(w, o, g, r, s);
        },
        Node::NegAtom(inner) => {
            lemma_fits(g, inner);
            if let Node::Atom { predicate, args } = g.node(inner) {
                lemma_values_alike(w, o, g, args, args.len(), g.nodes.len(), s);
                let vs = values(w, g, args, args.len(), g.nodes.len(), s);
                assert(premise_reads(g, id, predicate));
                if (o.rows)(predicate, vs) {
                    assert((w.rows)(predicate, vs));
                }
            }
        },
        _ => {},
    }
}

/// What holds once the premises do holds in both.
proof fn lemma_rest_alike(
    w: World,
    o: World,
    g: Graph,
    rule: InstId,
    z: Env,
    rel: NameId,
    row: Seq<Val>,
)
    requires
        g.wf(),
        g.has(rule),
        alike(w, o),
        g.node(rule) is Rule,
        satisfied(w, Set::empty(), g, premises_of(g, rule), 0, g.node(rule)->Rule_transform, 0, z),
        head_is(w, g, g.node(rule)->Rule_head, z, rel, row),
        forall|k: int|
            0 <= k < premises_of(g, rule).len() ==> premise_holds(
                o,
                false,
                g,
                #[trigger] premises_of(g, rule)[k],
                z,
            ),
    ensures
        rule_gives(o, Set::empty(), g, rule, rel, row),
{
    let none = Set::<int>::empty();
    lemma_fits(g, rule);
    if let Node::Rule { head, premises, transform } = g.node(rule) {
        assert(premises_of(g, rule) == premises);
        assert forall|k: int| 0 <= k < transform.len() implies let_holds(o, g, #[trigger] transform[k], z) by {
            assert(let_holds(w, g, transform[k], z));
            lemma_fits(g, transform[k]);
            if let Node::Transform { var: Some(v), app } = g.node(transform[k]) {
                lemma_value_alike(w, o, g, app, z);
            }
        }
        lemma_fits(g, head);
        if let Node::Atom { predicate, args } = g.node(head) {
            lemma_values_alike(w, o, g, args, args.len(), g.nodes.len(), z);
        }
        assert forall|k: int| 0 <= k < premises.len() implies premise_holds(
            o,
            none.contains(k),
            g,
            #[trigger] premises[k],
            z,
        ) by {
            assert(premise_holds(o, false, g, premises_of(g, rule)[k], z));
        }
        assert(satisfied(o, none, g, premises, 0, transform, 0, z));
        assert(head_is(o, g, head, z, rel, row));
    }
}

/// A rule gives the same where the relations that it reads hold the same.
pub proof fn a_rule_sees_what_it_reads(w: World, o: World, g: Graph, rule: InstId, rel: NameId, row: Seq<Val>)
    requires
        g.wf(),
        g.has(rule),
        alike(w, o),
        forall|q: NameId, t: Seq<Val>| rule_reads(g, rule, q) ==> #[trigger] (w.rows)(q, t) == (o.rows)(q, t),
        rule_gives(w, Set::empty(), g, rule, rel, row),
    ensures
        rule_gives(o, Set::empty(), g, rule, rel, row),
{
    let none = Set::<int>::empty();
    lemma_fits(g, rule);
    if let Node::Rule { head, premises, transform } = g.node(rule) {
        assert(premises_of(g, rule) == premises);
        let z = choose|z: Env| #[trigger]
            satisfied(w, none, g, premises, 0, transform, 0, z) && head_is(w, g, head, z, rel, row);
        let v = World { delta: |q: NameId, t: Seq<Val>| false, ..w };
        assert forall|k: int| 0 <= k < premises_of(g, rule).len() implies premise_holds(
            o,
            false,
            g,
            #[trigger] premises_of(g, rule)[k],
            z,
        ) by {
            let id = premises[k];
            assert(premise_holds(w, none.contains(k), g, id, z));
            assert(premise_holds(v, false, g, id, z)) by {
                lemma_same_premise(w, v, g, id, z);
            }
            assert forall|q: NameId, t: Seq<Val>|
                premise_reads(g, id, q) && #[trigger] (o.rows)(q, t) implies (v.rows)(q, t) by {
                assert(premise_reads(g, premises_of(g, rule)[k], q));
                assert((w.rows)(q, t) == (o.rows)(q, t));
            }
            assert forall|q: NameId, t: Seq<Val>|
                premise_reads(g, id, q) && #[trigger] (v.rows)(q, t) && !(v.delta)(q, t) implies (o.rows)(q, t) by {
                assert(premise_reads(g, premises_of(g, rule)[k], q));
                assert((w.rows)(q, t) == (o.rows)(q, t));
            }
            lemma_premise_before(v, o, g, id, z);
        }
        lemma_rest_alike(w, o, g, rule, z, rel, row);
    }
}

/// What is new does not matter to a premise that does not ask for it.
proof fn lemma_same_premise(w: World, v: World, g: Graph, id: InstId, s: Env)
    requires
        g.wf(),
        g.has(id),
        alike(w, v),
        w.rows == v.rows,
        premise_holds(w, false, g, id, s),
    ensures
        premise_holds(v, false, g, id, s),
{
    lemma_fits(g, id);
    match g.node(id) {
        Node::Atom { predicate, args } => {
            lemma_values_alike(w, v, g, args, args.len(), g.nodes.len(), s);
        },
        Node::Eq(l, r) => {
            lemma_value_alike(w, v, g, l, s);
            lemma_value_alike(w, v, g, r, s);
        },
        Node::Ineq(l, r) => {
            lemma_value_alike(w, v, g, l, s);
            lemma_value_alike(w, v, g, r, s);
        },
        Node::NegAtom(inner) => {
            lemma_fits(g, inner);
            if let Node::Atom { predicate, args } = g.node(inner) {
                lemma_values_alike(w, v, g, args, args.len(), g.nodes.len(), s);
            }
        },
        _ => {},
    }
}

/// A premise that holds still holds where there are more rows, if there are no more of those that
/// it denies.
proof fn lemma_premise_more(w: World, v: World, new: bool, g: Graph, rule: InstId, k: int, s: Env)
    requires
        g.wf(),
        g.has(rule),
        alike(w, v),
        0 <= k < premises_of(g, rule).len(),
        g.has(premises_of(g, rule)[k]),
        forall|q: NameId, t: Seq<Val>|
            rule_reads(g, rule, q) && #[trigger] (w.rows)(q, t) ==> (v.rows)(q, t),
        forall|q: NameId, t: Seq<Val>|
            rule_reads(g, rule, q) && #[trigger] (w.delta)(q, t) ==> (v.delta)(q, t),
        forall|q: NameId, t: Seq<Val>|
            denies(g, rule, q) && #[trigger] (v.rows)(q, t) ==> (w.rows)(q, t),
        premise_holds(w, new, g, premises_of(g, rule)[k], s),
    ensures
        premise_holds(v, new, g, premises_of(g, rule)[k], s),
{
    let id = premises_of(g, rule)[k];
    lemma_fits(g, id);
    match g.node(id) {
        Node::Atom { predicate, args } => {
            lemma_values_alike(w, v, g, args, args.len(), g.nodes.len(), s);
            if !built_in(g.name(predicate)) {
                assert(premise_reads(g, premises_of(g, rule)[k], predicate));
            }
        },
        Node::Eq(l, r) => {
            lemma_value_alike(w, v, g, l, s);
            lemma_value_alike(w, v, g, r, s);
        },
        Node::Ineq(l, r) => {
            lemma_value_alike(w, v, g, l, s);
            lemma_value_alike(w, v, g, r, s);
        },
        Node::NegAtom(inner) => {
            lemma_fits(g, inner);
            if let Node::Atom { predicate, args } = g.node(inner) {
                lemma_values_alike(w, v, g, args, args.len(), g.nodes.len(), s);
                assert(g.node(premises_of(g, rule)[k]) is NegAtom);
                assert(denies(g, rule, predicate));
            }
        },
        _ => {},
    }
}

/// A rule gives what it gave where there are more rows, if there are no more of those that it
/// denies.
pub proof fn more_rows_give_more(
    w: World,
    v: World,
    recent: Set<int>,
    g: Graph,
    rule: InstId,
    rel: NameId,
    row: Seq<Val>,
)
    requires
        g.wf(),
        g.has(rule),
        alike(w, v),
        forall|q: NameId, t: Seq<Val>|
            rule_reads(g, rule, q) && #[trigger] (w.rows)(q, t) ==> (v.rows)(q, t),
        forall|q: NameId, t: Seq<Val>|
            rule_reads(g, rule, q) && #[trigger] (w.delta)(q, t) ==> (v.delta)(q, t),
        forall|q: NameId, t: Seq<Val>|
            denies(g, rule, q) && #[trigger] (v.rows)(q, t) ==> (w.rows)(q, t),
        rule_gives(w, recent, g, rule, rel, row),
    ensures
        rule_gives(v, recent, g, rule, rel, row),
{
    lemma_fits(g, rule);
    if let Node::Rule { head, premises, transform } = g.node(rule) {
        assert(premises_of(g, rule) == premises);
        let z = choose|z: Env| #[trigger]
            satisfied(w, recent, g, premises, 0, transform, 0, z) && head_is(w, g, head, z, rel, row);
        assert forall|k: int| 0 <= k < premises.len() implies premise_holds(
            v,
            recent.contains(k),
            g,
            #[trigger] premises[k],
            z,
        ) by {
            assert(premise_holds(w, recent.contains(k), g, premises[k], z));
            lemma_premise_more(w, v, recent.contains(k), g, rule, k, z);
        }
        assert forall|k: int| 0 <= k < transform.len() implies let_holds(v, g, #[trigger] transform[k], z) by {
            assert(let_holds(w, g, transform[k], z));
            lemma_fits(g, transform[k]);
            if let Node::Transform { var: Some(x), app } = g.node(transform[k]) {
                lemma_value_alike(w, v, g, app, z);
            }
        }
        lemma_fits(g, head);
        if let Node::Atom { predicate, args } = g.node(head) {
            lemma_values_alike(w, v, g, args, args.len(), g.nodes.len(), z);
        }
        assert(satisfied(v, recent, g, premises, 0, transform, 0, z));
        assert(head_is(v, g, head, z, rel, row));
    }
}

/// Whether a row is new.
pub open spec fn is_new(w: World, rel: NameId, row: Seq<Val>) -> bool {
    (w.delta)(rel, row)
}

/// Whether a relation has new rows.
pub open spec fn has_new(w: World, rel: NameId) -> bool {
    exists|row: Seq<Val>| #[trigger] is_new(w, rel, row)
}

/// Whether the relation that a premise reads has new rows.
pub open spec fn reads_new_rows(w: World, g: Graph, premise: InstId) -> bool {
    match relation_read(g, premise) {
        Some(q) => has_new(w, q),
        None => false,
    }
}

/// A new row of the relation that a premise reads.
proof fn lemma_new_row(w: World, g: Graph, premise: InstId, rel: NameId, row: Seq<Val>)
    requires
        relation_read(g, premise) == Some(rel),
        (w.delta)(rel, row),
    ensures
        reads_new_rows(w, g, premise),
{
    assert(is_new(w, rel, row));
    assert(has_new(w, rel));
}

/// What a rule gives now and did not give before the new rows came it gives from the new rows of
/// one of its premises.
pub proof fn what_is_new_comes_from_new_rows(
    w: World,
    o: World,
    hash_join: bool,
    g: Graph,
    rule: InstId,
    rel: NameId,
    row: Seq<Val>,
) -> (k: int)
    requires
        g.wf(),
        g.has(rule),
        alike(w, o),
        premises_of(g, rule).len() <= usize::MAX,
        forall|q: NameId, t: Seq<Val>|
            rule_reads(g, rule, q) && #[trigger] (o.rows)(q, t) ==> (w.rows)(q, t),
        forall|q: NameId, t: Seq<Val>|
            rule_reads(g, rule, q) && #[trigger] (w.rows)(q, t) && !(w.delta)(q, t) ==> (o.rows)(q, t),
        rule_gives(w, Set::empty(), g, rule, rel, row),
        !rule_gives(o, Set::empty(), g, rule, rel, row),
    ensures
        0 <= k < premises_of(g, rule).len(),
        relation_read(g, premises_of(g, rule)[k]) is Some,
        reads_new_rows(w, g, premises_of(g, rule)[k]),
        rule_gives(
            w,
            new_reads(g, at_premise(g, premises_of(g, rule), k, hash_join), premises_of(g, rule)),
            g,
            rule,
            rel,
            row,
        ),
{
    let none = Set::<int>::empty();
    lemma_fits(g, rule);
    let premises = premises_of(g, rule);
    let head = g.node(rule)->Rule_head;
    let transform = g.node(rule)->Rule_transform;
    let z = choose|z: Env| #[trigger]
        satisfied(w, none, g, premises, 0, transform, 0, z) && head_is(w, g, head, z, rel, row);
    if exists|k: int|
        0 <= k < premises.len() && relation_read(g, #[trigger] premises[k]) is Some && premise_holds(
            w,
            true,
            g,
            premises[k],
            z,
        ) {
        let m = choose|k: int|
            0 <= k < premises.len() && relation_read(g, #[trigger] premises[k]) is Some
                && premise_holds(w, true, g, premises[k], z);
        let recent = new_reads(g, at_premise(g, premises, m, hash_join), premises);
        assert forall|k: int| 0 <= k < premises.len() implies premise_holds(
            w,
            recent.contains(k),
            g,
            #[trigger] premises[k],
            z,
        ) by {
            assert(premise_holds(w, none.contains(k), g, premises[k], z));
            if recent.contains(k) {
                assert(k == m);
            }
        }
        assert(satisfied(w, recent, g, premises, 0, transform, 0, z));
        if let Node::Atom { predicate, args } = g.node(premises[m]) {
            let t = values(w, g, args, args.len(), g.nodes.len(), z);
            lemma_new_row(w, g, premises[m], predicate, t);
        }
        m
    } else {
        assert forall|k: int| 0 <= k < premises_of(g, rule).len() implies premise_holds(
            o,
            false,
            g,
            #[trigger] premises_of(g, rule)[k],
            z,
        ) by {
            let id = premises[k];
            assert(premise_holds(w, none.contains(k), g, id, z));
            assert forall|q: NameId, t: Seq<Val>|
                premise_reads(g, id, q) && #[trigger] (o.rows)(q, t) implies (w.rows)(q, t) by {
                assert(premise_reads(g, premises_of(g, rule)[k], q));
            }
            assert forall|q: NameId, t: Seq<Val>|
                premise_reads(g, id, q) && #[trigger] (w.rows)(q, t) && !(w.delta)(q, t) implies (o.rows)(q, t) by {
                assert(premise_reads(g, premises_of(g, rule)[k], q));
            }
            lemma_premise_before(w, o, g, id, z);
        }
        lemma_rest_alike(w, o, g, rule, z, rel, row);
        0
    }
}

/// Reading new rows only, at one premise after the other, loses nothing: what a rule gives now
/// and did not give before the new rows came is derived from the new rows of one of its
/// premises.
pub proof fn new_rows_derive_what_is_new(
    w: World,
    hash_join: bool,
    p: PlanState,
    rule: InstId,
    rel: NameId,
    row: Seq<Val>,
)
    requires
        plannable(p, rule),
        plannable_at_each(hash_join, p, rule),
        rule_gives(w, Set::empty(), p.g, rule, rel, row),
        !rule_gives(before(w), Set::empty(), p.g, rule, rel, row),
    ensures
        exists|k: int|
            0 <= k < premises_of(p.g, rule).len() && #[trigger] derived_at(
                w,
                hash_join,
                p,
                rule,
                k,
                rel,
                row,
            ),
{
    let k = what_is_new_comes_from_new_rows(w, before(w), hash_join, p.g, rule, rel, row);
    let s = at_premise(p.g, premises_of(p.g, rule), k, hash_join);
    assert(rule_planned(s, p, rule).1 is Ok);
    a_plan_derives_what_its_rule_gives(w, s, p, rule, rel, row);
    assert(derived_at(w, hash_join, p, rule, k, rel, row));
}

/// A round keeps rules closed. If all that a rule gave before the new rows came is there, and
/// all is added that is derived from the new rows of its premises, all that it gives now is
/// there after the round. So once a round adds nothing, the rows are closed under the rule.
pub proof fn a_round_keeps_rules_closed(
    w: World,
    hash_join: bool,
    p: PlanState,
    rule: InstId,
    after: spec_fn(NameId, Seq<Val>) -> bool,
    rel: NameId,
    row: Seq<Val>,
)
    requires
        plannable(p, rule),
        plannable_at_each(hash_join, p, rule),
        rule_gives(before(w), Set::empty(), p.g, rule, rel, row) ==> (w.rows)(rel, row),
        (w.rows)(rel, row) ==> after(rel, row),
        forall|k: int|
            0 <= k < premises_of(p.g, rule).len() && #[trigger] derived_at(
                w,
                hash_join,
                p,
                rule,
                k,
                rel,
                row,
            ) ==> after(rel, row),
        rule_gives(w, Set::empty(), p.g, rule, rel, row),
    ensures
        after(rel, row),
{
    if !rule_gives(before(w), Set::empty(), p.g, rule, rel, row) {
        new_rows_derive_what_is_new(w, hash_join, p, rule, rel, row);
    }
}

} // verus!
