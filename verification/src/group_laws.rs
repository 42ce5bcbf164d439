//! What plans with groups derive: one row for every group, with what the reducers make of it.
use vstd::prelude::*;

use crate::ir::{ids_below, Graph, InstId, NameId, Node};
use crate::physical::{Fold, Plan, Term};
use crate::plan_expr::{operands, term_planned, with_temp, wrapped, PlanState};
use crate::plan_laws::{lemma_lets_mean, lemma_lets_state, lemma_premises_mean, lemma_premises_state};
use crate::plan_meaning::{
    after_plans, bind, bound_before, derives, group_env, grouped, keys_agree, listed, members,
    new_reads, only, operand_values, plain, plain_vars, reaches, rest_weight, room, row_vars, safe,
    same_on, satisfied, term_value, together, with_keys, Env, World,
};
use crate::plan_reads::{
    aims_at_head, aims_at_row, alike_on, gives, head_goal, lemma_with_vars, tracks, Goal,
};
use crate::plan_terms::{follows, lemma_fits, lemma_same, lemma_temp, names_in, spent};
use crate::planner::{
    block_parts, block_planned, fold_operands, fold_vars, key_vars, lets_planned, premises_planned,
    rule_planned, split, transform_args, var_operands, with_var, with_vars, Planned, Settings, Tail,
};
use crate::program_plans::lemma_extended;
use crate::schedule::premises_of;
use crate::value::Val;

verus! {

/// Whether a plan only binds variables and then adds one row.
pub open spec fn straight(p: Plan) -> bool
    decreases p,
{
    match p {
        Plan::Let { body, .. } => straight(*body),
        Plan::Insert { .. } => true,
        _ => false,
    }
}

/// The row that such a plan adds.
pub open spec fn row_of(w: World, names: Seq<Seq<char>>, p: Plan, env: Env) -> (NameId, Seq<Val>)
    decreases p,
{
    match p {
        Plan::Let { var, expr, body } => row_of(
            w,
            names,
            *body,
            env.insert(var, term_value(w, names, env, expr)),
        ),
        Plan::Insert { relation, args } => (relation, operand_values(w, env, args)),
        _ => (NameId(0), Seq::empty()),
    }
}

/// Such a plan derives its row and no other.
proof fn lemma_straight(w: World, names: Seq<Seq<char>>, p: Plan, env: Env, rel: NameId, row: Seq<Val>)
    requires
        straight(p),
    ensures
        derives(w, names, p, env, rel, row) <==> row_of(w, names, p, env) == (rel, row),
    decreases p,
{
    if let Plan::Let { var, expr, body } = p {
        lemma_straight(w, names, *body, env.insert(var, term_value(w, names, env, expr)), rel, row);
    }
}

/// Bindings around a plan.
proof fn lemma_wrapped_straight(bs: Seq<(NameId, Term)>, body: Plan)
    requires
        straight(body),
    ensures
        straight(wrapped(bs, body)),
    decreases bs.len(),
{
    if bs.len() > 0 {
        let inner = Plan::Let { var: bs.last().0, expr: bs.last().1, body: Box::new(body) };
        assert(straight(inner));
        lemma_wrapped_straight(bs.drop_last(), inner);
    }
}

/// What follows the premises of a rule binds variables and adds one row.
proof fn lemma_lets_straight(p: PlanState, lets: Seq<InstId>, i: int, bound: Seq<NameId>, tail: Tail)
    requires
        lets_planned(p, lets, i, bound, tail).1 is Ok,
    ensures
        straight(lets_planned(p, lets, i, bound, tail).1->Ok_0.0),
    decreases lets.len() - i,
{
    if i < 0 || i >= lets.len() {
        if let Tail::Head(head) = tail {
            if let Node::Atom { predicate, args } = p.g.node(head) {
                let (q, r) = operands(p.g, p, args, args.len(), p.g.nodes.len());
                lemma_wrapped_straight(
                    r->Ok_0.0,
                    Plan::Insert { relation: predicate, args: r->Ok_0.1 },
                );
            }
        }
    } else if let Node::Transform { var: Some(v), app } = p.g.node(lets[i]) {
        let (q, r) = term_planned(p, app);
        let (bs, expr) = r->Ok_0;
        let inner = with_var(bound, v);
        lemma_lets_straight(q, lets, i + 1, inner, tail);
        let b = lets_planned(q, lets, i + 1, inner, tail).1->Ok_0.0;
        let bound_here = Plan::Let { var: v, expr, body: Box::new(b) };
        assert(straight(bound_here));
        lemma_wrapped_straight(bs, bound_here);
    }
}

/// The row that the group of a row gives.
pub open spec fn group_row(w: World, names: Seq<Seq<char>>, plan: Plan, env: Env, r: Seq<Val>) -> (NameId, Seq<Val>) {
    match plan {
        Plan::GroupBy { source, vars, keys, aggregates, body } => row_of(
            w,
            names,
            *body,
            group_env(w, names, env, source, vars, keys, aggregates, r, aggregates.len()),
        ),
        _ => (NameId(0), Seq::empty()),
    }
}

/// What keys hold is the same for two rows of a group.
proof fn lemma_same_keys(env: Env, vars: Seq<NameId>, keys: Seq<NameId>, r: Seq<Val>, x: Seq<Val>, n: nat)
    requires
        together(env, vars, keys, r, x),
        n <= keys.len(),
    ensures
        with_keys(env, vars, keys, r, n) == with_keys(env, vars, keys, x, n),
    decreases n,
{
    if n > 0 {
        lemma_same_keys(env, vars, keys, r, x, (n - 1) as nat);
        let k = keys[n - 1];
        assert(bind(env, vars, r, r.len())[k] == bind(env, vars, x, x.len())[k]);
    }
}

/// Two rows of a group have the same group.
proof fn lemma_same_group(
    w: World,
    names: Seq<Seq<char>>,
    env: Env,
    source: NameId,
    vars: Seq<NameId>,
    keys: Seq<NameId>,
    folds: Seq<Fold>,
    r: Seq<Val>,
    x: Seq<Val>,
    n: nat,
)
    requires
        together(env, vars, keys, r, x),
        n <= folds.len(),
    ensures
        group_env(w, names, env, source, vars, keys, folds, r, n) == group_env(
            w,
            names,
            env,
            source,
            vars,
            keys,
            folds,
            x,
            n,
        ),
    decreases n,
{
    if n == 0 {
        lemma_same_keys(env, vars, keys, r, x, keys.len());
    } else {
        lemma_same_group(w, names, env, source, vars, keys, folds, r, x, (n - 1) as nat);
        let f = folds[n - 1];
        let a = members(w, env, source, vars, keys, f.args, r);
        let b = members(w, env, source, vars, keys, f.args, x);
        assert forall|y: Seq<Val>| #[trigger] a.contains_key(y) == b.contains_key(y) by {
            let er = bind(env, vars, r, r.len());
            let ex = bind(env, vars, x, x.len());
            let ey = bind(env, vars, y, y.len());
            if keys_agree(er, ey, keys) {
                assert forall|i: int| 0 <= i < keys.len() implies ex[#[trigger] keys[i]] == ey[keys[i]] by {
                    assert(er[keys[i]] == ex[keys[i]]);
                    assert(er[keys[i]] == ey[keys[i]]);
                }
            }
            if keys_agree(ex, ey, keys) {
                assert forall|i: int| 0 <= i < keys.len() implies er[#[trigger] keys[i]] == ey[keys[i]] by {
                    assert(er[keys[i]] == ex[keys[i]]);
                    assert(ex[keys[i]] == ey[keys[i]]);
                }
            }
        }
        assert(a =~= b);
    }
}

/// The plan of a block with groups derives one row for every group of the collected rows: the
/// group of every row gives its row, two rows of one group give the same, and nothing else is
/// derived.
pub proof fn a_group_gives_one_row(
    w: World,
    names: Seq<Seq<char>>,
    p: PlanState,
    source: NameId,
    vars: Seq<NameId>,
    block: Seq<InstId>,
    tail: Tail,
    env: Env,
)
    requires
        block_planned(p, source, vars, block, tail).1 is Ok,
    ensures
        ({
            let plan = block_planned(p, source, vars, block, tail).1->Ok_0.0;
            &&& plan is GroupBy
            &&& forall|rel: NameId, row: Seq<Val>|
                derives(w, names, plan, env, rel, row) <==> exists|r: Seq<Val>|
                    grouped(w, source, vars, r) && #[trigger] group_row(w, names, plan, env, r) == (rel, row)
            &&& forall|r: Seq<Val>, x: Seq<Val>|
                together(env, vars, plan->GroupBy_keys, r, x) ==> #[trigger] group_row(w, names, plan, env, r)
                    == #[trigger] group_row(w, names, plan, env, x)
        }),
{
    let plan = block_planned(p, source, vars, block, tail).1->Ok_0.0;
    if let Plan::GroupBy { source: from, vars: of, keys, aggregates, body } = plan {
        let lets = block_parts(p.g, block, block.len())->Ok_0.1;
        let bound = with_vars(
            with_vars(Seq::empty(), keys, keys.len()),
            fold_vars(aggregates),
            aggregates.len(),
        );
        lemma_lets_straight(p, lets, 0, bound, tail);
        assert(straight(*body));
        assert forall|rel: NameId, row: Seq<Val>|
            derives(w, names, plan, env, rel, row) <==> exists|r: Seq<Val>|
                grouped(w, source, vars, r) && #[trigger] group_row(w, names, plan, env, r) == (rel, row) by {
            assert forall|r: Seq<Val>| group_row(w, names, plan, env, r) == (rel, row) <==> #[trigger] derives(
                w,
                names,
                *body,
                group_env(w, names, env, source, vars, keys, aggregates, r, aggregates.len()),
                rel,
                row,
            ) by {
                lemma_straight(
                    w,
                    names,
                    *body,
                    group_env(w, names, env, source, vars, keys, aggregates, r, aggregates.len()),
                    rel,
                    row,
                );
            }
            if derives(w, names, plan, env, rel, row) {
                let r = choose|r: Seq<Val>| #[trigger]
                    grouped(w, source, vars, r) && derives(
                        w,
                        names,
                        *body,
                        group_env(w, names, env, source, vars, keys, aggregates, r, aggregates.len()),
                        rel,
                        row,
                    );
                assert(group_row(w, names, plan, env, r) == (rel, row));
            }
            if exists|r: Seq<Val>|
                grouped(w, source, vars, r) && #[trigger] group_row(w, names, plan, env, r) == (rel, row) {
                let r = choose|r: Seq<Val>|
                    grouped(w, source, vars, r) && #[trigger] group_row(w, names, plan, env, r) == (rel, row);
                assert(derives(
                    w,
                    names,
                    *body,
                    group_env(w, names, env, source, vars, keys, aggregates, r, aggregates.len()),
                    rel,
                    row,
                ));
            }
        }
        assert forall|r: Seq<Val>, x: Seq<Val>| together(env, vars, keys, r, x) implies #[trigger] group_row(
            w,
            names,
            plan,
            env,
            r,
        ) == #[trigger] group_row(w, names, plan, env, x) by {
            lemma_same_group(w, names, env, source, vars, keys, aggregates, r, x, aggregates.len());
        }
    }
}

/// The variables that a block with groups binds: its keys, and what the reducers make.
pub open spec fn block_vars(keys: Seq<NameId>, folds: Seq<Fold>) -> Set<NameId> {
    Set::new(|v: NameId| keys.contains(v) || fold_vars(folds).contains(v))
}

/// The parts of a block: the keys, the reducers, and the other transforms.
pub open spec fn parts_of(g: Graph, block: Seq<InstId>) -> Option<(Seq<NameId>, Seq<Fold>, Seq<InstId>)> {
    match transform_args(g, block[0]) {
        None => None,
        Some(ids) => match (key_vars(g, ids, ids.len()), block_parts(g, block, block.len())) {
            (Some(keys), Ok((folds, lets))) => Some((keys, folds, lets)),
            _ => None,
        },
    }
}

/// Key variables are the same in a later graph, and plain.
proof fn lemma_keys(g: Graph, later: Graph, ids: Seq<InstId>, n: nat)
    requires
        g.wf(),
        g.extended_by(later),
        plain_vars(g),
        ids_below(ids, g.nodes.len()),
        n <= ids.len(),
    ensures
        key_vars(later, ids, n) == key_vars(g, ids, n),
        key_vars(g, ids, n) matches Some(vs) ==> vs.len() == n && forall|i: int|
            0 <= i < vs.len() ==> (#[trigger] vs[i]).0 < g.names.len() && plain(g.names, vs[i]),
    decreases n,
{
    if n > 0 {
        lemma_keys(g, later, ids, (n - 1) as nat);
        lemma_same(g, later, ids[n - 1]);
        lemma_fits(g, ids[n - 1]);
        assert(g.nodes[ids[n - 1].0 as int] == g.node(ids[n - 1]));
    }
}

/// The operands of a reducer are the same in a later graph.
proof fn lemma_fold_operands(g: Graph, later: Graph, args: Seq<InstId>, n: nat)
    requires
        g.wf(),
        g.extended_by(later),
        ids_below(args, g.nodes.len()),
        n <= args.len(),
    ensures
        fold_operands(later, args, n) == fold_operands(g, args, n),
    decreases n,
{
    if n > 0 {
        lemma_fold_operands(g, later, args, (n - 1) as nat);
        lemma_same(g, later, args[n - 1]);
    }
}

/// The reducers and other transforms are the same in a later graph, and their variables plain.
proof fn lemma_parts(g: Graph, later: Graph, block: Seq<InstId>, n: nat)
    requires
        g.wf(),
        g.extended_by(later),
        plain_vars(g),
        ids_below(block, g.nodes.len()),
        n <= block.len(),
    ensures
        block_parts(later, block, n) == block_parts(g, block, n),
        block_parts(g, block, n) matches Ok((folds, lets)) ==> ids_below(lets, g.nodes.len()) && forall|i: int|
            0 <= i < folds.len() ==> (#[trigger] folds[i]).var.0 < g.names.len() && plain(g.names, folds[i].var),
    decreases n,
{
    if n > 1 {
        lemma_parts(g, later, block, (n - 1) as nat);
        let t = block[n - 1];
        lemma_same(g, later, t);
        lemma_fits(g, t);
        assert(g.nodes[t.0 as int] == g.node(t));
        if let Node::Transform { var: Some(var), app } = g.node(t) {
            lemma_same(g, later, app);
            lemma_fits(g, app);
            if let Node::ApplyFn { function, args } = g.node(app) {
                lemma_fold_operands(g, later, args, args.len());
            }
        }
    }
}

/// A block with groups and a head can be planned to its meaning in a later state of planning: its
/// other transforms and the head use keys, what reducers make, and what was defined before.
pub open spec fn group_ready(g: Graph, p: PlanState, block: Seq<InstId>, head: InstId) -> bool {
    &&& follows(g, p)
    &&& plain_vars(g)
    &&& plain_vars(p.g)
    &&& block.len() > 0
    &&& ids_below(block, g.nodes.len())
    &&& g.has(head)
    &&& parts_of(g, block) matches Some((keys, folds, lets)) && safe(
        g,
        Seq::empty(),
        0,
        lets,
        0,
        Tail::Head(head),
        block_vars(keys, folds),
    ) && room(p, rest_weight(g, Seq::empty(), 0, lets, 0, Tail::Head(head)))
}

/// Whether the group of a row gives a row: the keys are those of the group, the variables of
/// reducers hold what these make of its rows, the other transforms hold, and the head is the row.
pub open spec fn group_gives(
    w: World,
    names: Seq<Seq<char>>,
    g: Graph,
    source: NameId,
    vars: Seq<NameId>,
    block: Seq<InstId>,
    head: InstId,
    r: Seq<Val>,
    rel: NameId,
    row: Seq<Val>,
) -> bool {
    match parts_of(g, block) {
        Some((keys, folds, lets)) => gives(
            w,
            Set::empty(),
            g,
            Seq::empty(),
            0,
            lets,
            0,
            block_vars(keys, folds),
            group_env(w, names, Map::empty(), source, vars, keys, folds, r, folds.len()),
            head_goal(w, g, head, rel, row),
        ),
        None => false,
    }
}

/// The plan of the last block of a rule derives, for every group of the collected rows, the row
/// that the block gives for it: the head with the keys of the group, the results of the reducers
/// and what is computed from these.
pub proof fn a_group_gives_its_head(
    w: World,
    names: Seq<Seq<char>>,
    g: Graph,
    p: PlanState,
    source: NameId,
    vars: Seq<NameId>,
    block: Seq<InstId>,
    head: InstId,
    rel: NameId,
    row: Seq<Val>,
)
    requires
        group_ready(g, p, block, head),
        block_planned(p, source, vars, block, Tail::Head(head)).1 is Ok,
        names_in(block_planned(p, source, vars, block, Tail::Head(head)).0.g, names),
    ensures
        derives(
            w,
            names,
            block_planned(p, source, vars, block, Tail::Head(head)).1->Ok_0.0,
            Map::empty(),
            rel,
            row,
        ) <==> exists|r: Seq<Val>| #[trigger]
            grouped(w, source, vars, r) && group_gives(w, names, g, source, vars, block, head, r, rel, row),
        forall|r: Seq<Val>|
            group_gives(w, names, g, source, vars, block, head, r, rel, row) <==> #[trigger] group_row(
                w,
                names,
                block_planned(p, source, vars, block, Tail::Head(head)).1->Ok_0.0,
                Map::empty(),
                r,
            ) == (rel, row),
{
    let tail = Tail::Head(head);
    let plan = block_planned(p, source, vars, block, tail).1->Ok_0.0;
    let none = Seq::<InstId>::empty();
    let (keys, folds, lets) = parts_of(g, block)->Some_0;
    let t = block[0];
    lemma_same(g, p.g, t);
    lemma_fits(g, t);
    if let Node::Transform { app, .. } = g.node(t) {
        lemma_same(g, p.g, app);
        lemma_fits(g, app);
    }
    let ids = transform_args(g, t)->Some_0;
    lemma_keys(g, p.g, ids, ids.len());
    lemma_parts(g, p.g, block, block.len());
    let fv = fold_vars(folds);
    let first = with_vars(Seq::empty(), keys, keys.len());
    let bound = with_vars(first, fv, folds.len());
    lemma_with_vars(Seq::empty(), keys, keys.len());
    lemma_with_vars(first, fv, folds.len());
    let b = block_vars(keys, folds);
    let end = lets_planned(p, lets, 0, bound, tail).0.g;
    lemma_lets_state(g, p, none, lets, 0, bound, tail);
    assert(g.names.is_prefix_of(names)) by {
        assert(g.names =~= names.subrange(0, g.names.len() as int));
    }
    assert forall|v: NameId| #[trigger] b.contains(v) implies v.0 < names.len() && plain(names, v) by {
        if keys.contains(v) {
            let i = keys.index_of(v);
            assert(keys[i] == v);
        } else {
            let i = fv.index_of(v);
            assert(folds[i].var == v);
        }
        assert(g.names[v.0 as int] == names[v.0 as int]);
    }
    assert forall|v: NameId| #[trigger] bound.contains(v) <==> b.contains(v) by {
        assert(first.contains(v) <==> Seq::<NameId>::empty().contains(v) || exists|k: int|
            0 <= k < keys.len() && keys[k] == v);
        if keys.contains(v) {
            let k = keys.index_of(v);
            assert(keys[k] == v);
        }
        if fv.contains(v) {
            let k = fv.index_of(v);
            assert(fv[k] == v);
        }
    }
    assert(tracks(names, bound, b));
    let goal = head_goal(w, g, head, rel, row);
    assert(aims_at_head(w, g, head, goal));
    lemma_lets_mean(w, Set::empty(), names, g, p, none, lets, 0, bound, b, tail, goal);
    lemma_lets_straight(p, lets, 0, bound, tail);
    let body = lets_planned(p, lets, 0, bound, tail).1->Ok_0.0;
    assert forall|r: Seq<Val>|
        group_gives(w, names, g, source, vars, block, head, r, rel, row) <==> #[trigger] group_row(
        w,
        names,
        plan,
        Map::empty(),
        r,
    ) == (rel, row) by {
        let e = group_env(w, names, Map::empty(), source, vars, keys, folds, r, folds.len());
        assert(reaches(w, names, body, e, goal.want) == gives(
            w,
            Set::empty(),
            g,
            none,
            0,
            lets,
            0,
            b,
            e,
            head_goal(w, g, head, rel, row),
        ));
        lemma_straight(w, names, body, e, rel, row);
    }
    a_group_gives_one_row(w, names, p, source, vars, block, tail, Map::empty());
    if derives(w, names, plan, Map::empty(), rel, row) {
        let r = choose|r: Seq<Val>|
            grouped(w, source, vars, r) && #[trigger] group_row(w, names, plan, Map::empty(), r) == (rel, row);
        assert(group_gives(w, names, g, source, vars, block, head, r, rel, row));
    }
    if exists|r: Seq<Val>| #[trigger]
        grouped(w, source, vars, r) && group_gives(w, names, g, source, vars, block, head, r, rel, row) {
        let r = choose|r: Seq<Val>| #[trigger]
            grouped(w, source, vars, r) && group_gives(w, names, g, source, vars, block, head, r, rel, row);
        assert(group_row(w, names, plan, Map::empty(), r) == (rel, row));
    }
}

/// A plan that derives a row that is wanted derives some row, and it is wanted.
proof fn lemma_reached(
    w: World,
    names: Seq<Seq<char>>,
    p: Plan,
    env: Env,
    want: spec_fn(NameId, Seq<Val>) -> bool,
) -> (found: (NameId, Seq<Val>))
    requires
        reaches(w, names, p, env, want),
    ensures
        derives(w, names, p, env, found.0, found.1),
        want(found.0, found.1),
    decreases p,
{
    match p {
        Plan::Nop => (NameId(0), Seq::empty()),
        Plan::Sequence(ps) => {
            let k = choose|k: int|
                0 <= k < ps.len() && reaches(
                    after_plans(w, names, ps, k as nat, env),
                    names,
                    #[trigger] ps[k],
                    env,
                    want,
                );
            let f = lemma_reached(after_plans(w, names, ps, k as nat, env), names, ps[k], env, want);
            assert(reaches(after_plans(w, names, ps, k as nat, env), names, ps[k], env, only(f.0, f.1)));
            f
        },
        Plan::Iterate { source, body } => {
            let r = choose|r: Seq<Val>| #[trigger]
                listed(w, env, source, r) && reaches(
                    w,
                    names,
                    *body,
                    bind(env, row_vars(source), r, r.len()),
                    want,
                );
            lemma_reached(w, names, *body, bind(env, row_vars(source), r, r.len()), want)
        },
        Plan::Filter { cond, body } => lemma_reached(w, names, *body, env, want),
        Plan::Insert { relation, args } => (relation, operand_values(w, env, args)),
        Plan::Let { var, expr, body } => lemma_reached(
            w,
            names,
            *body,
            env.insert(var, term_value(w, names, env, expr)),
            want,
        ),
        Plan::HashJoin { build_source, probe_source, join_keys, body } => {
            let (r, q) = choose|r: Seq<Val>, q: Seq<Val>| #[trigger]
                listed(w, env, build_source, r) && #[trigger] listed(w, env, probe_source, q) && keys_agree(
                    bind(env, row_vars(build_source), r, r.len()),
                    bind(env, row_vars(probe_source), q, q.len()),
                    join_keys,
                ) && reaches(
                    w,
                    names,
                    *body,
                    bind(
                        bind(env, row_vars(build_source), r, r.len()),
                        row_vars(probe_source),
                        q,
                        q.len(),
                    ),
                    want,
                );
            lemma_reached(
                w,
                names,
                *body,
                bind(bind(env, row_vars(build_source), r, r.len()), row_vars(probe_source), q, q.len()),
                want,
            )
        },
        Plan::GroupBy { source, vars, keys, aggregates, body } => {
            let r = choose|r: Seq<Val>| #[trigger]
                grouped(w, source, vars, r) && reaches(
                    w,
                    names,
                    *body,
                    group_env(w, names, env, source, vars, keys, aggregates, r, aggregates.len()),
                    want,
                );
            lemma_reached(
                w,
                names,
                *body,
                group_env(w, names, env, source, vars, keys, aggregates, r, aggregates.len()),
                want,
            )
        },
    }
}

/// A plan that derives a row derives a wanted one, if that row is wanted.
proof fn lemma_reaching(
    w: World,
    names: Seq<Seq<char>>,
    p: Plan,
    env: Env,
    want: spec_fn(NameId, Seq<Val>) -> bool,
    rel: NameId,
    row: Seq<Val>,
)
    requires
        derives(w, names, p, env, rel, row),
        want(rel, row),
    ensures
        reaches(w, names, p, env, want),
    decreases p,
{
    let one = only(rel, row);
    match p {
        Plan::Nop => {},
        Plan::Sequence(ps) => {
            let k = choose|k: int|
                0 <= k < ps.len() && reaches(
                    after_plans(w, names, ps, k as nat, env),
                    names,
                    #[trigger] ps[k],
                    env,
                    one,
                );
            lemma_reaching(after_plans(w, names, ps, k as nat, env), names, ps[k], env, want, rel, row);
        },
        Plan::Iterate { source, body } => {
            let r = choose|r: Seq<Val>| #[trigger]
                listed(w, env, source, r) && reaches(
                    w,
                    names,
                    *body,
                    bind(env, row_vars(source), r, r.len()),
                    one,
                );
            lemma_reaching(w, names, *body, bind(env, row_vars(source), r, r.len()), want, rel, row);
        },
        Plan::Filter { cond, body } => {
            lemma_reaching(w, names, *body, env, want, rel, row);
        },
        Plan::Insert { relation, args } => {},
        Plan::Let { var, expr, body } => {
            lemma_reaching(
                w,
                names,
                *body,
                env.insert(var, term_value(w, names, env, expr)),
                want,
                rel,
                row,
            );
        },
        Plan::HashJoin { build_source, probe_source, join_keys, body } => {
            let (r, q) = choose|r: Seq<Val>, q: Seq<Val>| #[trigger]
                listed(w, env, build_source, r) && #[trigger] listed(w, env, probe_source, q) && keys_agree(
                    bind(env, row_vars(build_source), r, r.len()),
                    bind(env, row_vars(probe_source), q, q.len()),
                    join_keys,
                ) && reaches(
                    w,
                    names,
                    *body,
                    bind(
                        bind(env, row_vars(build_source), r, r.len()),
                        row_vars(probe_source),
                        q,
                        q.len(),
                    ),
                    one,
                );
            lemma_reaching(
                w,
                names,
                *body,
                bind(bind(env, row_vars(build_source), r, r.len()), row_vars(probe_source), q, q.len()),
                want,
                rel,
                row,
            );
        },
        Plan::GroupBy { source, vars, keys, aggregates, body } => {
            let r = choose|r: Seq<Val>| #[trigger]
                grouped(w, source, vars, r) && reaches(
                    w,
                    names,
                    *body,
                    group_env(w, names, env, source, vars, keys, aggregates, r, aggregates.len()),
                    one,
                );
            lemma_reaching(
                w,
                names,
                *body,
                group_env(w, names, env, source, vars, keys, aggregates, r, aggregates.len()),
                want,
                rel,
                row,
            );
        },
    }
}

/// Whether a row holds in the columns of plain variables what another holds.
pub open spec fn same_columns(names: Seq<Seq<char>>, vars: Seq<NameId>, x: Seq<Val>, y: Seq<Val>) -> bool {
    forall|i: int|
        0 <= i < vars.len() && (#[trigger] vars[i]).0 < names.len() && plain(names, vars[i]) ==> x[i] == y[i]
}

/// Whether a row holds in the columns of plain variables what these hold.
pub open spec fn columns_hold(names: Seq<Seq<char>>, vars: Seq<NameId>, s: Env, y: Seq<Val>) -> bool {
    forall|i: int|
        0 <= i < vars.len() && (#[trigger] vars[i]).0 < names.len() && plain(names, vars[i]) ==> s[vars[i]]
            == y[i]
}

/// The blocks of the transforms of a rule.
pub open spec fn blocks_of_rule(g: Graph, rule: InstId) -> Seq<Seq<InstId>> {
    split(g, g.node(rule)->Rule_transform, g.node(rule)->Rule_transform.len())
}

/// The temporary relation that the first block of a rule with groups collects rows in.
pub open spec fn first_temp(p: PlanState) -> NameId {
    with_temp(p, "temp_grp"@).1
}

/// The outcome of planning the first block of a rule with groups: its premises and the transforms
/// before the first groups.
pub open spec fn first_planned(s: Settings, p: PlanState, rule: InstId) -> (PlanState, Planned) {
    premises_planned(
        s,
        with_temp(p, "temp_grp"@).0,
        premises_of(p.g, rule),
        0,
        Seq::empty(),
        blocks_of_rule(p.g, rule)[0],
        Tail::Store(first_temp(p)),
    )
}

/// How much there is to plan in the first block.
pub open spec fn first_weight(p: PlanState, rule: InstId) -> nat {
    rest_weight(
        p.g,
        premises_of(p.g, rule),
        0,
        blocks_of_rule(p.g, rule)[0],
        0,
        Tail::Store(first_temp(p)),
    )
}

/// The first block of a rule with groups can be planned to its meaning.
pub open spec fn first_ready(p: PlanState, rule: InstId) -> bool {
    &&& p.g.wf()
    &&& p.g.has(rule)
    &&& p.g.node(rule) is Rule
    &&& plain_vars(p.g)
    &&& blocks_of_rule(p.g, rule).len() > 1
    &&& safe(
        p.g,
        premises_of(p.g, rule),
        0,
        blocks_of_rule(p.g, rule)[0],
        0,
        Tail::Store(first_temp(p)),
        Set::empty(),
    )
    &&& room(p, 1 + first_weight(p, rule))
}

/// The blocks of transforms hold transforms.
proof fn lemma_split(g: Graph, transforms: Seq<InstId>, n: nat, limit: nat)
    requires
        ids_below(transforms, limit),
        n <= transforms.len(),
    ensures
        split(g, transforms, n).len() > 0,
        forall|i: int| 0 <= i < split(g, transforms, n).len() ==> ids_below(#[trigger] split(g, transforms, n)[i], limit),
        forall|i: int| 1 <= i < split(g, transforms, n).len() ==> (#[trigger] split(g, transforms, n)[i]).len() > 0,
    decreases n,
{
    if n > 0 {
        lemma_split(g, transforms, (n - 1) as nat, limit);
        let before = split(g, transforms, (n - 1) as nat);
        let all = split(g, transforms, n);
        assert forall|i: int| 0 <= i < all.len() implies ids_below(#[trigger] all[i], limit) && (i >= 1
            ==> all[i].len() > 0) by {
            if i < before.len() {
                assert(ids_below(before[i], limit));
            }
        }
    }
}

/// What the first block reaches.
proof fn lemma_first(w: World, names: Seq<Seq<char>>, s: Settings, p: PlanState, rule: InstId, goal: Goal)
    requires
        first_ready(p, rule),
        first_planned(s, p, rule).1 is Ok,
        names_in(first_planned(s, p, rule).0.g, names),
        aims_at_row(w, names, first_temp(p), first_planned(s, p, rule).1->Ok_0.1, goal),
    ensures
        reaches(w, names, first_planned(s, p, rule).1->Ok_0.0, Map::empty(), goal.want) == gives(
            w,
            new_reads(p.g, s, premises_of(p.g, rule)),
            p.g,
            premises_of(p.g, rule),
            0,
            blocks_of_rule(p.g, rule)[0],
            0,
            Set::empty(),
            Map::empty(),
            goal,
        ),
        spent(p, first_planned(s, p, rule).0, 1 + first_weight(p, rule)),
{
    let g = p.g;
    let premises = premises_of(g, rule);
    let transform = g.node(rule)->Rule_transform;
    let lets = blocks_of_rule(g, rule)[0];
    let tail = Tail::Store(first_temp(p));
    let none = Seq::<NameId>::empty();
    let b = Set::<NameId>::empty();
    lemma_fits(g, rule);
    lemma_split(g, transform, transform.len(), g.nodes.len());
    lemma_temp(p, "temp_grp"@);
    let q = with_temp(p, "temp_grp"@).0;
    lemma_premises_state(s, g, q, premises, 0, none, lets, tail);
    lemma_extended(g, q.g, first_planned(s, p, rule).0.g);
    assert(tracks(names, none, b));
    let recent = new_reads(g, s, premises);
    assert(bound_before(g, premises, 0) == b);
    lemma_premises_mean(w, recent, names, s, g, q, premises, 0, none, b, lets, tail, goal);
    let env: Env = Map::empty();
    assert(reaches(w, names, first_planned(s, p, rule).1->Ok_0.0, env, goal.want) == gives(
        w,
        recent,
        g,
        premises,
        0,
        lets,
        0,
        b,
        env,
        goal,
    ));
}

/// The first block of a rule with groups collects the solutions of its premises: in the columns of
/// the variables of the rule, the rows that it collects hold what its variables hold where the
/// premises and the transforms before the first groups do.
pub proof fn the_first_block_collects_solutions(
    w: World,
    names: Seq<Seq<char>>,
    s: Settings,
    p: PlanState,
    rule: InstId,
    y: Seq<Val>,
)
    requires
        first_ready(p, rule),
        first_planned(s, p, rule).1 is Ok,
        names_in(first_planned(s, p, rule).0.g, names),
    ensures
        ({
            let (plan, vars) = first_planned(s, p, rule).1->Ok_0;
            (exists|x: Seq<Val>|
                x.len() == vars.len() && same_columns(names, vars, x, y) && #[trigger] derives(
                    w,
                    names,
                    plan,
                    Map::empty(),
                    first_temp(p),
                    x,
                )) <==> (exists|z: Env| #[trigger]
                satisfied(
                    w,
                    new_reads(p.g, s, premises_of(p.g, rule)),
                    p.g,
                    premises_of(p.g, rule),
                    0,
                    blocks_of_rule(p.g, rule)[0],
                    0,
                    z,
                ) && columns_hold(names, vars, z, y))
        }),
{
    let (plan, vars) = first_planned(s, p, rule).1->Ok_0;
    let temp = first_temp(p);
    let env: Env = Map::empty();
    let goal = Goal {
        want: |r: NameId, x: Seq<Val>| r == temp && x.len() == vars.len() && same_columns(names, vars, x, y),
        holds: |s: Env| columns_hold(names, vars, s, y),
    };
    assert(aims_at_row(w, names, temp, vars, goal)) by {
        assert forall|s: Env| #[trigger] goal.met(s) == (goal.want)(
            temp,
            operand_values(w, s, var_operands(vars)),
        ) by {
            let x = operand_values(w, s, var_operands(vars));
            assert forall|i: int| 0 <= i < vars.len() implies x[i] == s[#[trigger] vars[i]] by {}
            assert(columns_hold(names, vars, s, y) == same_columns(names, vars, x, y));
        }
        assert forall|s: Env, t: Env| alike_on(names, vars, s, t) implies #[trigger] goal.met(s)
            == #[trigger] goal.met(t) by {}
    }
    lemma_first(w, names, s, p, rule, goal);
    if reaches(w, names, plan, env, goal.want) {
        let f = lemma_reached(w, names, plan, env, goal.want);
        assert(derives(w, names, plan, env, temp, f.1));
    }
    if exists|x: Seq<Val>|
        x.len() == vars.len() && same_columns(names, vars, x, y) && #[trigger] derives(
            w,
            names,
            plan,
            Map::empty(),
            temp,
            x,
        ) {
        let x = choose|x: Seq<Val>|
            x.len() == vars.len() && same_columns(names, vars, x, y) && #[trigger] derives(
                w,
                names,
                plan,
                Map::empty(),
                temp,
                x,
            );
        lemma_reaching(w, names, plan, env, goal.want, temp, x);
    }
    let recent = new_reads(p.g, s, premises_of(p.g, rule));
    let lets = blocks_of_rule(p.g, rule)[0];
    if exists|z: Env| #[trigger]
        satisfied(w, recent, p.g, premises_of(p.g, rule), 0, lets, 0, z) && columns_hold(names, vars, z, y) {
        let z = choose|z: Env| #[trigger]
            satisfied(w, recent, p.g, premises_of(p.g, rule), 0, lets, 0, z) && columns_hold(names, vars, z, y);
        assert(same_on(Set::<NameId>::empty(), env, z));
        assert(goal.met(z));
    }
    if gives(w, recent, p.g, premises_of(p.g, rule), 0, lets, 0, Set::empty(), env, goal) {
        let z = choose|z: Env| #[trigger]
            satisfied(w, recent, p.g, premises_of(p.g, rule), 0, lets, 0, z) && same_on(
                Set::<NameId>::empty(),
                env,
                z,
            ) && goal.met(z);
        assert(columns_hold(names, vars, z, y));
    }
}

/// What plans see once the first block is run.
pub open spec fn collected_by(w: World, names: Seq<Seq<char>>, first: Plan) -> World {
    World {
        collected: |rel: NameId, row: Seq<Val>|
            (w.collected)(rel, row) || reaches(w, names, first, Map::empty(), only(rel, row)),
        ..w
    }
}

/// A rule with one block of groups can be planned to its meaning.
pub open spec fn aggregate_ready(s: Settings, p: PlanState, rule: InstId) -> bool {
    let blocks = blocks_of_rule(p.g, rule);
    let head = p.g.node(rule)->Rule_head;
    &&& first_ready(p, rule)
    &&& blocks.len() == 2
    &&& parts_of(p.g, blocks[1]) matches Some((keys, folds, lets)) && safe(
        p.g,
        Seq::empty(),
        0,
        lets,
        0,
        Tail::Head(head),
        block_vars(keys, folds),
    ) && room(
        p,
        1 + first_weight(p, rule) + rest_weight(p.g, Seq::empty(), 0, lets, 0, Tail::Head(head)),
    )
}

/// The plan of a rule with groups derives, for its head, one row for every group of the rows that
/// its first block collects: the head with the keys of the group, the results of the reducers and
/// what is computed from these. Nothing must be in its temporary relation before.
pub proof fn an_aggregate_gives_one_row_per_group(
    w: World,
    names: Seq<Seq<char>>,
    s: Settings,
    p: PlanState,
    rule: InstId,
    rel: NameId,
    row: Seq<Val>,
)
    requires
        aggregate_ready(s, p, rule),
        rule_planned(s, p, rule).1 is Ok,
        names_in(rule_planned(s, p, rule).0.g, names),
        forall|x: Seq<Val>| !#[trigger] (w.collected)(first_temp(p), x),
        rel != first_temp(p),
    ensures
        ({
            let (first, vars) = first_planned(s, p, rule).1->Ok_0;
            let v = collected_by(w, names, first);
            derives(w, names, rule_planned(s, p, rule).1->Ok_0, Map::empty(), rel, row) <==> exists|r: Seq<Val>|
                r.len() == vars.len() && #[trigger] derives(w, names, first, Map::empty(), first_temp(p), r)
                    && group_gives(
                    v,
                    names,
                    p.g,
                    first_temp(p),
                    vars,
                    blocks_of_rule(p.g, rule)[1],
                    p.g.node(rule)->Rule_head,
                    r,
                    rel,
                    row,
                )
        }),
{
    let g = p.g;
    let temp = first_temp(p);
    let head = g.node(rule)->Rule_head;
    let transform = g.node(rule)->Rule_transform;
    let blocks = blocks_of_rule(g, rule);
    let block = blocks[1];
    let (t, out) = first_planned(s, p, rule);
    let (first, vars) = out->Ok_0;
    let env: Env = Map::empty();
    let tail = Tail::Head(head);
    lemma_fits(g, rule);
    lemma_split(g, transform, transform.len(), g.nodes.len());
    let (keys, folds, lets) = parts_of(g, block)->Some_0;
    let other = Goal { want: only(rel, row), holds: |e: Env| false };
    // The state after the first block.
    lemma_temp(p, "temp_grp"@);
    let q = with_temp(p, "temp_grp"@).0;
    lemma_premises_state(s, g, q, premises_of(g, rule), 0, Seq::empty(), blocks[0], Tail::Store(temp));
    lemma_extended(g, q.g, t.g);
    let last = block_planned(t, temp, vars, block, tail);
    assert(group_ready(g, t, block, head));
    lemma_block_state(g, t, temp, vars, block, head);
    assert(names_in(t.g, names)) by {
        assert(t.g.names =~= names.subrange(0, t.g.names.len() as int));
    }
    let both = seq![first].push(last.1->Ok_0.0);
    assert(rule_planned(s, p, rule).1->Ok_0 == Plan::Sequence(both));
    // The first block adds to its temporary relation alone.
    assert(aims_at_row(w, names, temp, vars, other));
    lemma_first(w, names, s, p, rule, other);
    assert(!reaches(w, names, first, env, only(rel, row)));
    let v = collected_by(w, names, first);
    assert(after_plans(w, names, both, 0, env) == w);
    assert(both[0] == first && both[1] == last.1->Ok_0.0);
    let u = after_plans(w, names, both, 1, env);
    assert(u == v) by {
        assert(u.collected =~= v.collected);
    }
    a_group_gives_its_head(v, names, g, t, temp, vars, block, head, rel, row);
    let plan = Plan::Sequence(both);
    if derives(w, names, plan, env, rel, row) {
        let k = choose|k: int|
            0 <= k < both.len() && reaches(
                after_plans(w, names, both, k as nat, env),
                names,
                #[trigger] both[k],
                env,
                only(rel, row),
            );
        assert(k == 1);
        assert(derives(v, names, both[1], env, rel, row));
        let r = choose|r: Seq<Val>| #[trigger]
            grouped(v, temp, vars, r) && group_gives(v, names, g, temp, vars, block, head, r, rel, row);
        assert(derives(w, names, first, env, temp, r));
        assert(r.len() == vars.len());
        assert(exists|r: Seq<Val>|
            r.len() == vars.len() && #[trigger] derives(w, names, first, env, temp, r) && group_gives(
                v,
                names,
                g,
                temp,
                vars,
                block,
                head,
                r,
                rel,
                row,
            ));
    }
    if exists|r: Seq<Val>|
        r.len() == vars.len() && #[trigger] derives(w, names, first, env, temp, r) && group_gives(
            v,
            names,
            g,
            temp,
            vars,
            block,
            head,
            r,
            rel,
            row,
        ) {
        let r = choose|r: Seq<Val>|
            r.len() == vars.len() && #[trigger] derives(w, names, first, env, temp, r) && group_gives(
                v,
                names,
                g,
                temp,
                vars,
                block,
                head,
                r,
                rel,
                row,
            );
        assert(grouped(v, temp, vars, r));
        assert(derives(v, names, both[1], env, rel, row));
        lemma_in_sequence(w, names, both, 1, env, only(rel, row));
    }
}

/// A plan of a sequence that derives a wanted row.
pub(crate) proof fn lemma_in_sequence(
    w: World,
    names: Seq<Seq<char>>,
    ps: Seq<Plan>,
    k: int,
    env: Env,
    want: spec_fn(NameId, Seq<Val>) -> bool,
)
    requires
        0 <= k < ps.len(),
        reaches(after_plans(w, names, ps, k as nat, env), names, ps[k], env, want),
    ensures
        reaches(w, names, Plan::Sequence(ps), env, want),
{
    let plan = Plan::Sequence(ps);
    assert(plan->Sequence_0 == ps);
}

/// The state after planning a block with groups.
proof fn lemma_block_state(
    g: Graph,
    p: PlanState,
    source: NameId,
    vars: Seq<NameId>,
    block: Seq<InstId>,
    head: InstId,
)
    requires
        group_ready(g, p, block, head),
    ensures
        p.g.extended_by(block_planned(p, source, vars, block, Tail::Head(head)).0.g),
{
    let tail = Tail::Head(head);
    let (keys, folds, lets) = parts_of(g, block)->Some_0;
    let t = block[0];
    lemma_same(g, p.g, t);
    lemma_fits(g, t);
    if let Node::Transform { app, .. } = g.node(t) {
        lemma_same(g, p.g, app);
        lemma_fits(g, app);
    }
    let ids = transform_args(g, t)->Some_0;
    lemma_keys(g, p.g, ids, ids.len());
    lemma_parts(g, p.g, block, block.len());
    let bound = with_vars(
        with_vars(Seq::empty(), keys, keys.len()),
        fold_vars(folds),
        folds.len(),
    );
    lemma_lets_state(g, p, Seq::empty(), lets, 0, bound, tail);
}

} // verus!
