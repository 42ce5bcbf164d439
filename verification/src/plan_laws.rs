//! A plan of a rule derives what the rule gives.
use vstd::prelude::*;

use crate::ir::{ids_below, Graph, InstId, NameId, Node};
use crate::physical::{CompareOp, Plan, Term, Test};
use crate::plan_expr::{operands, simple_operand, term_planned, wrapped, PlanState};
use crate::plan_meaning::{
    bound_before, derives, head_is, is_temp, let_holds, new_reads, operand, operand_values, plain,
    plain_vars, plan_derives, plannable, premise_holds, reaches, related, rest_weight, room, rule_gives,
    rule_is_safe, rule_news, rule_weight, safe, same_on, satisfied, test_holds, value, values,
    vars_within, weight, with_args, Env, World,
};
use crate::plan_reads::{
    aims, aims_at_head, alike_on, gives, head_goal, head_wanted, ignores, lemma_constrained,
    lemma_constrained_state, lemma_fresh_vars, lemma_gives_same, lemma_join, lemma_known,
    lemma_read, lemma_same_bound, lemma_scan_state, lemma_scan_vars, lemma_tracks_atom,
    lemma_tracks_fresh, means, tail_known, tracks, Goal,
};
use crate::plan_terms::{
    after, agree, follows, lemma_both, lemma_both_state, lemma_fits, lemma_limit, lemma_operands,
    lemma_operands_state, lemma_pair_weight, lemma_plain, lemma_same, lemma_temp_wider,
    lemma_temps_apart, lemma_term, lemma_term_state, lemma_value_same, lemma_values_at,
    lemma_values_same, lemma_values_stable, lemma_weights_stable, lemma_wrapped, names_in, plain_in,
    spent, term_computed, top,
};
use crate::planner::{
    both_evaluated, comparison, constrained, filter_on, filtered, first_key, hash_joined, is_test,
    lemma_with_var, lets_planned, premises_planned, rule_planned, scan_vars, simple_operands, split,
    var_operands, with_var, with_vars, FilterKind, Joined, Settings, Tail,
};
use crate::value::{Order, Val};

verus! {

/// The state after planning what follows the premises.
pub(crate) proof fn lemma_lets_state(
    g: Graph,
    p: PlanState,
    premises: Seq<InstId>,
    lets: Seq<InstId>,
    j: int,
    bound: Seq<NameId>,
    tail: Tail,
)
    requires
        follows(g, p),
        ids_below(lets, g.nodes.len()),
        tail_known(g, tail),
        0 <= j,
        room(p, rest_weight(g, premises, premises.len() as int, lets, j, tail)),
    ensures
        spent(
            p,
            lets_planned(p, lets, j, bound, tail).0,
            rest_weight(g, premises, premises.len() as int, lets, j, tail),
        ),
    decreases lets.len() - j,
{
    if j < lets.len() {
        lemma_fits(g, lets[j]);
        lemma_same(g, p.g, lets[j]);
        if let Node::Transform { var: Some(v), app } = g.node(lets[j]) {
            lemma_term_state(g, p, app);
            let (q, r) = term_planned(p, app);
            if r is Ok {
                lemma_lets_state(g, q, premises, lets, j + 1, with_var(bound, v), tail);
            }
        }
    } else if let Tail::Head(head) = tail {
        lemma_fits(g, head);
        lemma_same(g, p.g, head);
        if let Node::Atom { predicate, args } = g.node(head) {
            lemma_weights_stable(g, p.g, args, args.len(), g.nodes.len(), p.g.nodes.len());
            lemma_operands_state(p.g, p, args, args.len(), p.g.nodes.len());
        }
    } else {
        assert(p.g.extended_by(p.g));
    }
}

/// The hash join that is planned for a premise and the next one.
spec fn join_at(
    s: Settings,
    g: Graph,
    args: Seq<InstId>,
    premises: Seq<InstId>,
    i: int,
    bound: Seq<NameId>,
) -> Option<Joined> {
    if s.hash_join && s.delta is None && i + 1 < premises.len() {
        hash_joined(g, s, args, premises[i + 1], bound)
    } else {
        None
    }
}

/// The state after planning premises.
#[verifier::rlimit(40)]
pub(crate) proof fn lemma_premises_state(
    s: Settings,
    g: Graph,
    p: PlanState,
    premises: Seq<InstId>,
    i: int,
    bound: Seq<NameId>,
    lets: Seq<InstId>,
    tail: Tail,
)
    requires
        follows(g, p),
        ids_below(premises, g.nodes.len()),
        ids_below(lets, g.nodes.len()),
        tail_known(g, tail),
        0 <= i <= premises.len(),
        room(p, rest_weight(g, premises, i, lets, 0, tail)),
    ensures
        spent(
            p,
            premises_planned(s, p, premises, i, bound, lets, tail).0,
            rest_weight(g, premises, i, lets, 0, tail),
        ),
    decreases premises.len() - i,
{
    if i >= premises.len() {
        lemma_lets_state(g, p, premises, lets, 0, bound, tail);
    } else {
        let id = premises[i];
        lemma_fits(g, id);
        lemma_same(g, p.g, id);
        match g.node(id) {
            Node::Atom { predicate, args } => {
                let name = g.name(predicate);
                assert(p.g.name(predicate) == name);
                lemma_weights_stable(g, g, args, args.len(), g.nodes.len(), g.nodes.len());
                if comparison(name) is Some || is_test(name) {
                    if args.len() == 2 {
                        lemma_premises_state(s, g, p, premises, i + 1, bound, lets, tail);
                        let (q, body) = premises_planned(s, p, premises, i + 1, bound, lets, tail);
                        if body is Ok {
                            lemma_pair_weight(g, args);
                            lemma_both_state(g, q, args[0], args[1]);
                        }
                    }
                } else if let Some(j) = join_at(s, p.g, args, premises, i, bound) {
                    let inner = with_vars(
                        with_vars(bound, j.build_vars, j.build_vars.len()),
                        j.probe_vars,
                        j.probe_vars.len(),
                    );
                    assert(rest_weight(g, premises, i + 2, lets, 0, tail) <= rest_weight(
                        g,
                        premises,
                        i + 1,
                        lets,
                        0,
                        tail,
                    ));
                    lemma_premises_state(s, g, p, premises, i + 2, inner, lets, tail);
                } else {
                    lemma_scan_state(g, p, args, bound, args.len());
                    let (q, vars) = scan_vars(p, args, bound, args.len());
                    let inner = with_vars(bound, vars, vars.len());
                    lemma_premises_state(s, g, q, premises, i + 1, inner, lets, tail);
                    let (r, body) = premises_planned(s, q, premises, i + 1, inner, lets, tail);
                    if let Ok((b, last)) = body {
                        lemma_constrained_state(g, r, args, vars, args.len(), b);
                    }
                }
            },
            Node::Eq(l, r) => {
                lemma_same(g, p.g, l);
                if g.node(l) is Var && !bound.contains(g.node(l)->Var_0) {
                    let v = g.node(l)->Var_0;
                    lemma_term_state(g, p, r);
                    let (q, t) = term_planned(p, r);
                    if t is Ok {
                        lemma_premises_state(s, g, q, premises, i + 1, with_var(bound, v), lets, tail);
                    }
                } else {
                    lemma_premises_state(s, g, p, premises, i + 1, bound, lets, tail);
                    let (q, body) = premises_planned(s, p, premises, i + 1, bound, lets, tail);
                    if body is Ok {
                        lemma_both_state(g, q, l, r);
                    }
                }
            },
            Node::Ineq(l, r) => {
                lemma_premises_state(s, g, p, premises, i + 1, bound, lets, tail);
                let (q, body) = premises_planned(s, p, premises, i + 1, bound, lets, tail);
                if body is Ok {
                    lemma_both_state(g, q, l, r);
                }
            },
            Node::NegAtom(inner) => {
                lemma_same(g, p.g, inner);
                lemma_premises_state(s, g, p, premises, i + 1, bound, lets, tail);
            },
            _ => {},
        }
    }
}

/// A variable that is defined by an expression.
proof fn lemma_defined(
    w: World,
    recent: Set<int>,
    names: Seq<Seq<char>>,
    g: Graph,
    id: InstId,
    v: NameId,
    bs: Seq<(NameId, Term)>,
    expr: Term,
    body: Plan,
    premises: Seq<InstId>,
    i: int,
    next_i: int,
    lets: Seq<InstId>,
    j: int,
    next_j: int,
    b: Set<NameId>,
    lo: nat,
    hi: nat,
    goal: Goal,
)
    requires
        g.wf(),
        g.has(id),
        plain_in(names, b),
        vars_within(g, id, b),
        !b.contains(v),
        term_computed(w, names, bs, expr, g, id, lo, hi),
        means(w, recent, names, body, g, premises, next_i, lets, next_j, b.insert(v), goal),
        forall|s: Env| #[trigger]
            satisfied(w, recent, g, premises, i, lets, j, s) <==> satisfied(
                w,
                recent,
                g,
                premises,
                next_i,
                lets,
                next_j,
                s,
            ) && s[v] == value(w, g, id, s),
        forall|s: Env| #[trigger]
            satisfied(w, recent, g, premises, next_i, lets, next_j, s) && s[v] == value(w, g, id, s) ==> satisfied(
                w,
                recent,
                g,
                premises,
                i,
                lets,
                j,
                s,
            ),
    ensures
        means(
            w,
            recent,
            names,
            wrapped(bs, Plan::Let { var: v, expr, body: Box::new(body) }),
            g,
            premises,
            i,
            lets,
            j,
            b,
            goal,
        ),
{
    let inner = Plan::Let { var: v, expr, body: Box::new(body) };
    let plan = wrapped(bs, inner);
    let c = b.insert(v);
    assert forall|env: Env| #[trigger]
        reaches(w, names, plan, env, goal.want) == gives(
            w,
            recent,
            g,
            premises,
            i,
            lets,
            j,
            b,
            env,
            goal,
        ) by {
        let e = after(w, names, bs, env);
        assert(e == after(w, names, bs, env));
        lemma_wrapped(w, names, bs, inner, env, goal.want);
        let x = value(w, g, id, env);
        let f = e.insert(v, x);
        assert(reaches(w, names, inner, e, goal.want) == reaches(w, names, body, f, goal.want));
        lemma_same_bound(names, b, env, e, lo, hi);
        assert(reaches(w, names, body, f, goal.want) == gives(
            w,
            recent,
            g,
            premises,
            next_i,
            lets,
            next_j,
            c,
            f,
            goal,
        ));
        if gives(w, recent, g, premises, next_i, lets, next_j, c, f, goal) {
            let s = choose|s: Env| #[trigger]
                satisfied(w, recent, g, premises, next_i, lets, next_j, s) && same_on(c, f, s) && goal.met(s);
            assert(same_on(b, env, s)) by {
                assert forall|u: NameId| #![trigger env[u]] #![trigger s[u]] b.contains(u) implies env[u]
                    == s[u] by {
                    assert(c.contains(u));
                    assert(f[u] == s[u]);
                    assert(env[u] == e[u]);
                }
            }
            assert(c.contains(v));
            assert(f[v] == s[v]);
            lemma_value_same(w, g, id, b, env, s);
            assert(satisfied(w, recent, g, premises, i, lets, j, s));
        }
        if gives(w, recent, g, premises, i, lets, j, b, env, goal) {
            let s = choose|s: Env| #[trigger]
                satisfied(w, recent, g, premises, i, lets, j, s) && same_on(b, env, s) && goal.met(s);
            lemma_value_same(w, g, id, b, env, s);
            assert(satisfied(w, recent, g, premises, next_i, lets, next_j, s));
            assert(same_on(c, f, s)) by {
                assert forall|u: NameId| #![trigger f[u]] #![trigger s[u]] c.contains(u) implies f[u]
                    == s[u] by {
                    if u != v {
                        assert(b.contains(u));
                        assert(env[u] == s[u]);
                        assert(env[u] == e[u]);
                    }
                }
            }
        }
    }
}

/// What follows the premises means what its plan derives.
pub(crate) proof fn lemma_lets_mean(
    w: World,
    recent: Set<int>,
    names: Seq<Seq<char>>,
    g: Graph,
    p: PlanState,
    premises: Seq<InstId>,
    lets: Seq<InstId>,
    j: int,
    bound: Seq<NameId>,
    b: Set<NameId>,
    tail: Tail,
    goal: Goal,
)
    requires
        follows(g, p),
        plain_vars(p.g),
        plain_vars(g),
        ids_below(lets, g.nodes.len()),
        tail_known(g, tail),
        0 <= j,
        room(p, rest_weight(g, premises, premises.len() as int, lets, j, tail)),
        names_in(lets_planned(p, lets, j, bound, tail).0.g, names),
        lets_planned(p, lets, j, bound, tail).1 is Ok,
        tracks(names, bound, b),
        safe(g, premises, premises.len() as int, lets, j, tail, b),
        aims(w, names, g, tail, lets_planned(p, lets, j, bound, tail).1->Ok_0.1, goal),
    ensures
        means(
            w,
            recent,
            names,
            lets_planned(p, lets, j, bound, tail).1->Ok_0.0,
            g,
            premises,
            premises.len() as int,
            lets,
            j,
            b,
            goal,
        ),
    decreases lets.len() - j,
{
    let end = premises.len() as int;
    lemma_lets_state(g, p, premises, lets, j, bound, tail);
    if j < lets.len() {
        lemma_fits(g, lets[j]);
        lemma_same(g, p.g, lets[j]);
        if let Node::Transform { var: Some(v), app } = g.node(lets[j]) {
            lemma_term_state(g, p, app);
            let (q, r) = term_planned(p, app);
            let (bs, expr) = r->Ok_0;
            let last = lets_planned(p, lets, j, bound, tail).0.g;
            lemma_lets_state(g, q, premises, lets, j + 1, with_var(bound, v), tail);
            lemma_with_var(bound, v);
            assert(g.nodes[lets[j].0 as int] == g.node(lets[j]));
            assert(g.names[v.0 as int] == p.g.names[v.0 as int]);
            assert(p.g.names[v.0 as int] == last.names[v.0 as int]);
            assert(last.names[v.0 as int] == names[v.0 as int]);
            lemma_lets_mean(
                w,
                recent,
                names,
                g,
                q,
                premises,
                lets,
                j + 1,
                with_var(bound, v),
                b.insert(v),
                tail,
                goal,
            );
            lemma_term(w, names, g, p, app);
            let body = lets_planned(q, lets, j + 1, with_var(bound, v), tail).1->Ok_0.0;
            assert forall|s: Env| #[trigger]
                satisfied(w, recent, g, premises, end, lets, j, s) <==> satisfied(
                    w,
                    recent,
                    g,
                    premises,
                    end,
                    lets,
                    j + 1,
                    s,
                ) && s[v] == value(w, g, app, s) by {
                assert(let_holds(w, g, lets[j], s) == (s[v] == value(w, g, app, s)));
            }
            assert forall|s: Env| #[trigger]
                satisfied(w, recent, g, premises, end, lets, j + 1, s) && s[v] == value(w, g, app, s) implies satisfied(
                w,
                recent,
                g,
                premises,
                end,
                lets,
                j,
                s,
            ) by {
                assert(let_holds(w, g, lets[j], s) == (s[v] == value(w, g, app, s)));
            }
            lemma_defined(
                w,
                recent,
                names,
                g,
                app,
                v,
                bs,
                expr,
                body,
                premises,
                end,
                end,
                lets,
                j,
                j + 1,
                b,
                p.fresh as nat,
                q.fresh as nat,
                goal,
            );
        }
    } else if let Tail::Head(head) = tail {
        lemma_fits(g, head);
        lemma_same(g, p.g, head);
        if let Node::Atom { predicate, args } = g.node(head) {
            let limit = p.g.nodes.len();
            let (q, r) = operands(p.g, p, args, args.len(), limit);
            let (bs, ops) = r->Ok_0;
            let plan = wrapped(bs, Plan::Insert { relation: predicate, args: ops });
            lemma_weights_stable(g, p.g, args, args.len(), g.nodes.len(), limit);
            lemma_operands_state(p.g, p, args, args.len(), limit);
            lemma_operands(w, names, p.g, p, args, args.len(), limit);
            let vs = |env: Env| values(w, p.g, args, args.len(), limit, env);
            assert forall|env: Env| #[trigger]
                reaches(w, names, plan, env, goal.want) == gives(
                    w,
                    recent,
                    g,
                    premises,
                    end,
                    lets,
                    j,
                    b,
                    env,
                    goal,
                ) by {
                let e = after(w, names, bs, env);
                assert(e == after(w, names, bs, env));
                let insert = Plan::Insert { relation: predicate, args: ops };
                lemma_wrapped(w, names, bs, insert, env, goal.want);
                assert(reaches(w, names, insert, e, goal.want) == (goal.want)(
                    predicate,
                    operand_values(w, e, ops),
                ));
                assert(operand_values(w, e, ops) == vs(env));
                lemma_limit(w, p.g, args, args.len(), limit, g.nodes.len(), env);
                lemma_values_stable(w, g, p.g, args, args.len(), g.nodes.len(), env);
                assert(satisfied(w, recent, g, premises, end, lets, j, env));
                assert(goal.met(env) == head_wanted(w, g, head, env, goal.want));
                assert(same_on(b, env, env));
                if gives(w, recent, g, premises, end, lets, j, b, env, goal) {
                    let s = choose|s: Env| #[trigger]
                        satisfied(w, recent, g, premises, end, lets, j, s) && same_on(b, env, s) && goal.met(s);
                    assert(goal.met(s) == head_wanted(w, g, head, s, goal.want));
                    lemma_values_same(w, g, args, args.len(), g.nodes.len(), b, env, s);
                }
            }
        }
    } else if let Tail::Store(relation) = tail {
        let plan = Plan::Insert { relation, args: var_operands(bound) };
        assert forall|env: Env| #[trigger]
            reaches(w, names, plan, env, goal.want) == gives(
                w,
                recent,
                g,
                premises,
                end,
                lets,
                j,
                b,
                env,
                goal,
            ) by {
            assert(goal.met(env) == (goal.want)(relation, operand_values(w, env, var_operands(bound))));
            assert(satisfied(w, recent, g, premises, end, lets, j, env));
            assert(same_on(b, env, env));
            if gives(w, recent, g, premises, end, lets, j, b, env, goal) {
                let s = choose|s: Env| #[trigger]
                    satisfied(w, recent, g, premises, end, lets, j, s) && same_on(b, env, s) && goal.met(s);
                assert(alike_on(names, bound, env, s)) by {
                    assert forall|i: int|
                        0 <= i < bound.len() && (#[trigger] bound[i]).0 < names.len() && plain(names, bound[i]) implies env[bound[i]]
                        == s[bound[i]] by {
                        assert(bound.contains(bound[i]));
                    }
                }
                assert(goal.met(env) == goal.met(s));
            }
        }
    }
}

/// A condition before the rest of a rule.
proof fn lemma_condition(
    w: World,
    recent: Set<int>,
    names: Seq<Seq<char>>,
    g: Graph,
    bs: Seq<(NameId, Term)>,
    cond: Test,
    body: Plan,
    premises: Seq<InstId>,
    i: int,
    lets: Seq<InstId>,
    b: Set<NameId>,
    lo: nat,
    hi: nat,
    goal: Goal,
)
    requires
        plain_in(names, b),
        0 <= i < premises.len(),
        means(w, recent, names, body, g, premises, i + 1, lets, 0, b, goal),
        forall|env: Env| #[trigger]
            after(w, names, bs, env) == after(w, names, bs, env) && agree(
                names,
                env,
                after(w, names, bs, env),
                lo,
                hi,
            ) && test_holds(w, names, after(w, names, bs, env), cond) == premise_holds(
                w,
                recent.contains(i),
                g,
                premises[i],
                env,
            ),
        forall|s: Env, t: Env|
            same_on(b, s, t) ==> #[trigger] premise_holds(w, recent.contains(i), g, premises[i], s)
                == #[trigger] premise_holds(w, recent.contains(i), g, premises[i], t),
    ensures
        means(w, recent, names, wrapped(bs, filtered(cond, body)), g, premises, i, lets, 0, b, goal),
{
    let plan = wrapped(bs, filtered(cond, body));
    assert forall|env: Env| #[trigger]
        reaches(w, names, plan, env, goal.want) == gives(
            w,
            recent,
            g,
            premises,
            i,
            lets,
            0,
            b,
            env,
            goal,
        ) by {
        let e = after(w, names, bs, env);
        assert(e == after(w, names, bs, env));
        lemma_wrapped(w, names, bs, filtered(cond, body), env, goal.want);
        assert(reaches(w, names, filtered(cond, body), e, goal.want) == (test_holds(w, names, e, cond)
            && reaches(w, names, body, e, goal.want)));
        lemma_same_bound(names, b, env, e, lo, hi);
        lemma_gives_same(w, recent, g, premises, i + 1, lets, 0, b, env, e, goal);
        assert(reaches(w, names, body, e, goal.want) == gives(
            w,
            recent,
            g,
            premises,
            i + 1,
            lets,
            0,
            b,
            e,
            goal,
        ));
        if gives(w, recent, g, premises, i, lets, 0, b, env, goal) {
            let s = choose|s: Env| #[trigger]
                satisfied(w, recent, g, premises, i, lets, 0, s) && same_on(b, env, s) && goal.met(s);
            assert(premise_holds(w, recent.contains(i), g, premises[i], s));
            assert(premise_holds(w, recent.contains(i), g, premises[i], env));
            assert(satisfied(w, recent, g, premises, i + 1, lets, 0, s));
        }
        if premise_holds(w, recent.contains(i), g, premises[i], env) && gives(
            w,
            recent,
            g,
            premises,
            i + 1,
            lets,
            0,
            b,
            env,
            goal,
        ) {
            let s = choose|s: Env| #[trigger]
                satisfied(w, recent, g, premises, i + 1, lets, 0, s) && same_on(b, env, s) && goal.met(s);
            assert(premise_holds(w, recent.contains(i), g, premises[i], s));
            assert(satisfied(w, recent, g, premises, i, lets, 0, s));
        }
    }
}

/// A filter on two terms means its premise.
proof fn lemma_filter_means(
    w: World,
    recent: Set<int>,
    names: Seq<Seq<char>>,
    g: Graph,
    q: PlanState,
    body: Plan,
    vars: Seq<NameId>,
    l: InstId,
    r: InstId,
    kind: FilterKind,
    premises: Seq<InstId>,
    i: int,
    lets: Seq<InstId>,
    b: Set<NameId>,
    goal: Goal,
)
    requires
        follows(g, q),
        plain_vars(q.g),
        g.has(l),
        g.has(r),
        room(q, weight(g, l) + weight(g, r)),
        plain_in(names, b),
        vars_within(g, l, b),
        vars_within(g, r, b),
        0 <= i < premises.len(),
        means(w, recent, names, body, g, premises, i + 1, lets, 0, b, goal),
        filter_on(q, Ok((body, vars)), l, r, kind).1 is Ok,
        names_in(filter_on(q, Ok((body, vars)), l, r, kind).0.g, names),
        forall|s: Env| #[trigger]
            premise_holds(w, recent.contains(i), g, premises[i], s) == filter_holds(
                w,
                names,
                kind,
                value(w, g, l, s),
                value(w, g, r, s),
            ),
    ensures
        means(
            w,
            recent,
            names,
            filter_on(q, Ok((body, vars)), l, r, kind).1->Ok_0.0,
            g,
            premises,
            i,
            lets,
            0,
            b,
            goal,
        ),
{
    lemma_both(w, names, g, q, l, r);
    let (t, ops) = both_evaluated(q, l, r);
    let (bs, x, y) = ops->Ok_0;
    let cond = kind.test(x, y);
    assert forall|env: Env| #[trigger]
        after(w, names, bs, env) == after(w, names, bs, env) && agree(
            names,
            env,
            after(w, names, bs, env),
            q.fresh as nat,
            t.fresh as nat,
        ) && test_holds(w, names, after(w, names, bs, env), cond) == premise_holds(
            w,
            recent.contains(i),
            g,
            premises[i],
            env,
        ) by {
        let e = after(w, names, bs, env);
        assert(e == after(w, names, bs, env));
        if kind is Call {
            assert(operand_values(w, e, seq![x, y]) =~= seq![operand(w, e, x), operand(w, e, y)]);
        }
    }
    assert forall|s: Env, z: Env| same_on(b, s, z) implies #[trigger] premise_holds(w, recent.contains(i), g, premises[i], s)
        == #[trigger] premise_holds(w, recent.contains(i), g, premises[i], z) by {
        lemma_value_same(w, g, l, b, s, z);
        lemma_value_same(w, g, r, b, s, z);
    }
    lemma_condition(
        w,
        recent,
        names,
        g,
        bs,
        cond,
        body,
        premises,
        i,
        lets,
        b,
        q.fresh as nat,
        t.fresh as nat,
        goal,
    );
}

/// Whether a filter lets two values through.
spec fn filter_holds(w: World, names: Seq<Seq<char>>, kind: FilterKind, x: Val, y: Val) -> bool {
    match kind {
        FilterKind::Compare(op) => related(w, op, x, y),
        FilterKind::Call(f) => (w.test)(names[f.0 as int], seq![x, y]),
    }
}

/// The operands of a negated atom have the values of its arguments.
proof fn lemma_simple_operands(w: World, g: Graph, args: Seq<InstId>, n: nat, s: Env)
    requires
        g.wf(),
        ids_below(args, g.nodes.len()),
        n <= args.len(),
        simple_operands(g, args, n) is Some,
    ensures
        operand_values(w, s, simple_operands(g, args, n)->Some_0) == values(
            w,
            g,
            args,
            n,
            g.nodes.len(),
            s,
        ),
    decreases n,
{
    let ops = simple_operands(g, args, n)->Some_0;
    if n == 0 {
        assert(operand_values(w, s, ops) =~= Seq::<Val>::empty());
    } else {
        lemma_simple_operands(w, g, args, (n - 1) as nat, s);
        let before = simple_operands(g, args, (n - 1) as nat)->Some_0;
        let o = simple_operand(g.node(args[n - 1]))->Some_0;
        assert(ops == before.push(o));
        assert(operand_values(w, s, ops) =~= operand_values(w, s, before).push(operand(w, s, o)));
        assert(value(w, g, args[n - 1], s) == operand(w, s, o));
    }
}

/// The premises of a safe rule mean what their plan derives.
#[verifier::rlimit(80)]
pub(crate) proof fn lemma_premises_mean(
    w: World,
    recent: Set<int>,
    names: Seq<Seq<char>>,
    s: Settings,
    g: Graph,
    p: PlanState,
    premises: Seq<InstId>,
    i: int,
    bound: Seq<NameId>,
    b: Set<NameId>,
    lets: Seq<InstId>,
    tail: Tail,
    goal: Goal,
)
    requires
        recent == new_reads(g, s, premises),
        s.delta is Some ==> b == bound_before(g, premises, i),
        follows(g, p),
        plain_vars(g),
        plain_vars(p.g),
        ids_below(premises, g.nodes.len()),
        ids_below(lets, g.nodes.len()),
        tail_known(g, tail),
        0 <= i <= premises.len(),
        room(p, rest_weight(g, premises, i, lets, 0, tail)),
        premises_planned(s, p, premises, i, bound, lets, tail).1 is Ok,
        names_in(premises_planned(s, p, premises, i, bound, lets, tail).0.g, names),
        tracks(names, bound, b),
        safe(g, premises, i, lets, 0, tail, b),
        aims(w, names, g, tail, premises_planned(s, p, premises, i, bound, lets, tail).1->Ok_0.1, goal),
    ensures
        means(
            w,
            recent,
            names,
            premises_planned(s, p, premises, i, bound, lets, tail).1->Ok_0.0,
            g,
            premises,
            i,
            lets,
            0,
            b,
            goal,
        ),
    decreases premises.len() - i,
{
    let end = premises_planned(s, p, premises, i, bound, lets, tail).0.g;
    lemma_premises_state(s, g, p, premises, i, bound, lets, tail);
    assert(g.names.is_prefix_of(names));
    if i >= premises.len() {
        lemma_lets_mean(w, recent, names, g, p, premises, lets, 0, bound, b, tail, goal);
    } else {
        let id = premises[i];
        lemma_fits(g, id);
        lemma_same(g, p.g, id);
        match g.node(id) {
            Node::Atom { predicate, args } => {
                let name = g.name(predicate);
                assert(p.g.name(predicate) == name);
                assert(g.names[predicate.0 as int] == names[predicate.0 as int]);
                lemma_weights_stable(g, g, args, args.len(), g.nodes.len(), g.nodes.len());
                if comparison(name) is Some || is_test(name) {
                    lemma_premises_state(s, g, p, premises, i + 1, bound, lets, tail);
                    let (q, body) = premises_planned(s, p, premises, i + 1, bound, lets, tail);
                    lemma_pair_weight(g, args);
                    lemma_both_state(g, q, args[0], args[1]);
                    lemma_premises_mean(
                        w,
                        recent,
                        names,
                        s,
                        g,
                        p,
                        premises,
                        i + 1,
                        bound,
                        b,
                        lets,
                        tail,
                        goal,
                    );
                    let kind = match comparison(name) {
                        Some(op) => FilterKind::Compare(op),
                        None => FilterKind::Call(predicate),
                    };
                    assert forall|e: Env| #[trigger]
                        premise_holds(w, recent.contains(i), g, premises[i], e) == filter_holds(
                            w,
                            names,
                            kind,
                            value(w, g, args[0], e),
                            value(w, g, args[1], e),
                        ) by {
                        lemma_values_at(w, g, args, args.len(), g.nodes.len(), e);
                        let vs = values(w, g, args, args.len(), g.nodes.len(), e);
                        assert(vs[0] == value(w, g, args[0], e));
                        assert(vs[1] == value(w, g, args[1], e));
                        assert(vs =~= seq![vs[0], vs[1]]);
                    }
                    assert(vars_within(g, args[0], b));
                    assert(vars_within(g, args[1], b));
                    lemma_filter_means(
                        w,
                        recent,
                        names,
                        g,
                        q,
                        body->Ok_0.0,
                        body->Ok_0.1,
                        args[0],
                        args[1],
                        kind,
                        premises,
                        i,
                        lets,
                        b,
                        goal,
                    );
                } else if let Some(j) = join_at(s, p.g, args, premises, i, bound) {
                    let next = premises[i + 1];
                    lemma_same(g, p.g, next);
                    lemma_fits(g, next);
                    if let Node::Atom { predicate: probe, args: more } = g.node(next) {
                        assert(g.names[probe.0 as int] == p.g.names[probe.0 as int]);
                        let inner = with_vars(
                            with_vars(bound, j.build_vars, j.build_vars.len()),
                            j.probe_vars,
                            j.probe_vars.len(),
                        );
                        let c = with_args(g, args, b);
                        let d = with_args(g, more, c);
                        assert(safe(g, premises, i + 1, lets, 0, tail, c));
                        lemma_fresh_vars(g, p.g, args, bound, args.len());
                        lemma_fresh_vars(g, p.g, more, bound, more.len());
                        assert(rest_weight(g, premises, i + 2, lets, 0, tail) <= rest_weight(
                            g,
                            premises,
                            i + 1,
                            lets,
                            0,
                            tail,
                        ));
                        lemma_premises_state(s, g, p, premises, i + 2, inner, lets, tail);
                        lemma_tracks_fresh(names, g, args, bound, b, j.build_vars);
                        lemma_tracks_fresh(
                            names,
                            g,
                            more,
                            with_vars(bound, j.build_vars, j.build_vars.len()),
                            c,
                            j.probe_vars,
                        );
                        lemma_premises_mean(
                            w,
                            recent,
                            names,
                            s,
                            g,
                            p,
                            premises,
                            i + 2,
                            inner,
                            d,
                            lets,
                            tail,
                            goal,
                        );
                        let body = premises_planned(
                            s,
                            p,
                            premises,
                            i + 2,
                            inner,
                            lets,
                            tail,
                        ).1->Ok_0.0;
                        lemma_join(
                            w,
                            recent,
                            names,
                            g,
                            predicate,
                            args,
                            probe,
                            more,
                            bound,
                            b,
                            j,
                            body,
                            premises,
                            i,
                            lets,
                            goal,
                        );
                    }
                } else {
                    lemma_scan_state(g, p, args, bound, args.len());
                    let (q, vars) = scan_vars(p, args, bound, args.len());
                    let inner = with_vars(bound, vars, vars.len());
                    let c = with_args(g, args, b);
                    lemma_premises_state(s, g, q, premises, i + 1, inner, lets, tail);
                    let (r, body) = premises_planned(s, q, premises, i + 1, inner, lets, tail);
                    let plan = body->Ok_0.0;
                    lemma_constrained_state(g, r, args, vars, args.len(), plan);
                    lemma_scan_vars(names, g, p, args, bound, b, args.len());
                    lemma_tracks_atom(
                        names,
                        g,
                        args,
                        bound,
                        b,
                        vars,
                        p.fresh as nat,
                        q.fresh as nat,
                    );
                    lemma_premises_mean(
                        w,
                        recent,
                        names,
                        s,
                        g,
                        q,
                        premises,
                        i + 1,
                        inner,
                        c,
                        lets,
                        tail,
                        goal,
                    );
                    let lo = r.fresh as nat;
                    assert(ignores(w, names, plan, lo, goal)) by {
                        assert forall|x: Env, y: Env| agree(names, x, y, lo, top()) implies #[trigger] reaches(
                            w,
                            names,
                            plan,
                            x,
                            goal.want,
                        ) == #[trigger] reaches(w, names, plan, y, goal.want) by {
                            lemma_same_bound(names, c, x, y, lo, top());
                            lemma_gives_same(w, recent, g, premises, i + 1, lets, 0, c, x, y, goal);
                        }
                    }
                    assert forall|k: int| 0 <= k < vars.len() implies (#[trigger] vars[k]).0
                        < names.len() && !is_temp(names, vars[k], lo, top()) by {
                        if plain(names, vars[k]) {
                            lemma_plain(names, vars[k], lo, top());
                        } else {
                            lemma_temps_apart(
                                names,
                                vars[k],
                                p.fresh as nat,
                                q.fresh as nat,
                                top(),
                            );
                            if is_temp(names, vars[k], lo, top()) {
                                lemma_temp_wider(
                                    names,
                                    vars[k],
                                    q.fresh as nat,
                                    lo,
                                    top(),
                                    top(),
                                );
                            }
                        }
                    }
                    lemma_constrained(w, names, g, r, args, vars, args.len(), plan, lo, goal);
                    let checked = constrained(r, args, vars, args.len(), plan).1->Ok_0;
                    lemma_same_key(g, p.g, args, bound, 0);
                    lemma_known(names, g, args, bound, b);
                    lemma_read(
                        w,
                        recent,
                        names,
                        s,
                        g,
                        predicate,
                        args,
                        bound,
                        b,
                        vars,
                        checked,
                        plan,
                        premises,
                        i,
                        lets,
                        p.fresh as nat,
                        q.fresh as nat,
                        goal,
                    );
                }
            },
            Node::Eq(l, r) => {
                lemma_same(g, p.g, l);
                lemma_fits(g, l);
                if g.node(l) is Var {
                    let v = g.node(l)->Var_0;
                    assert(g.nodes[l.0 as int] == Node::Var(v));
                    assert(g.names[v.0 as int] == names[v.0 as int]);
                    assert(bound.contains(v) <==> b.contains(v));
                }
                if g.node(l) is Var && !b.contains(g.node(l)->Var_0) {
                    let v = g.node(l)->Var_0;
                    lemma_term_state(g, p, r);
                    let (q, t) = term_planned(p, r);
                    let (bs, expr) = t->Ok_0;
                    lemma_premises_state(s, g, q, premises, i + 1, with_var(bound, v), lets, tail);
                    lemma_with_var(bound, v);
                    lemma_premises_mean(
                        w,
                        recent,
                        names,
                        s,
                        g,
                        q,
                        premises,
                        i + 1,
                        with_var(bound, v),
                        b.insert(v),
                        lets,
                        tail,
                        goal,
                    );
                    lemma_term(w, names, g, p, r);
                    let body = premises_planned(
                        s,
                        q,
                        premises,
                        i + 1,
                        with_var(bound, v),
                        lets,
                        tail,
                    ).1->Ok_0.0;
                    assert forall|e: Env| #[trigger]
                        satisfied(w, recent, g, premises, i, lets, 0, e) <==> satisfied(
                            w,
                            recent,
                            g,
                            premises,
                            i + 1,
                            lets,
                            0,
                            e,
                        ) && e[v] == value(w, g, r, e) by {
                        assert(premise_holds(w, recent.contains(i), g, premises[i], e) == (e[v] == value(w, g, r, e)));
                    }
                    assert forall|e: Env| #[trigger]
                        satisfied(w, recent, g, premises, i + 1, lets, 0, e) && e[v] == value(w, g, r, e) implies satisfied(
                        w,
                        recent,
                        g,
                        premises,
                        i,
                        lets,
                        0,
                        e,
                    ) by {
                        assert(premise_holds(w, recent.contains(i), g, premises[i], e) == (e[v] == value(w, g, r, e)));
                    }
                    lemma_defined(
                        w,
                        recent,
                        names,
                        g,
                        r,
                        v,
                        bs,
                        expr,
                        body,
                        premises,
                        i,
                        i + 1,
                        lets,
                        0,
                        0,
                        b,
                        p.fresh as nat,
                        q.fresh as nat,
                        goal,
                    );
                } else {
                    lemma_premises_state(s, g, p, premises, i + 1, bound, lets, tail);
                    let (q, body) = premises_planned(s, p, premises, i + 1, bound, lets, tail);
                    lemma_both_state(g, q, l, r);
                    if g.node(l) is Var {
                        assert(b.insert(g.node(l)->Var_0) =~= b);
                    }
                    lemma_premises_mean(
                        w,
                        recent,
                        names,
                        s,
                        g,
                        p,
                        premises,
                        i + 1,
                        bound,
                        b,
                        lets,
                        tail,
                        goal,
                    );
                    lemma_filter_means(
                        w,
                        recent,
                        names,
                        g,
                        q,
                        body->Ok_0.0,
                        body->Ok_0.1,
                        l,
                        r,
                        FilterKind::Compare(CompareOp::Eq),
                        premises,
                        i,
                        lets,
                        b,
                        goal,
                    );
                }
            },
            Node::Ineq(l, r) => {
                lemma_premises_state(s, g, p, premises, i + 1, bound, lets, tail);
                let (q, body) = premises_planned(s, p, premises, i + 1, bound, lets, tail);
                lemma_both_state(g, q, l, r);
                lemma_premises_mean(
                    w,
                    recent,
                    names,
                    s,
                    g,
                    p,
                    premises,
                    i + 1,
                    bound,
                    b,
                    lets,
                    tail,
                    goal,
                );
                lemma_filter_means(
                    w,
                    recent,
                    names,
                    g,
                    q,
                    body->Ok_0.0,
                    body->Ok_0.1,
                    l,
                    r,
                    FilterKind::Compare(CompareOp::Neq),
                    premises,
                    i,
                    lets,
                    b,
                    goal,
                );
            },
            Node::NegAtom(inner) => {
                lemma_same(g, p.g, inner);
                lemma_fits(g, inner);
                if let Node::Atom { predicate, args } = g.node(inner) {
                    lemma_premises_state(s, g, p, premises, i + 1, bound, lets, tail);
                    let (q, body) = premises_planned(s, p, premises, i + 1, bound, lets, tail);
                    lemma_premises_mean(
                        w,
                        recent,
                        names,
                        s,
                        g,
                        p,
                        premises,
                        i + 1,
                        bound,
                        b,
                        lets,
                        tail,
                        goal,
                    );
                    let ops = simple_operands(q.g, args, args.len())->Some_0;
                    let cond = Test::Negation { relation: predicate, args: ops };
                    let none = Seq::<(NameId, Term)>::empty();
                    let at = p.fresh as nat;
                    assert forall|env: Env| #[trigger]
                        after(w, names, none, env) == after(w, names, none, env) && agree(
                            names,
                            env,
                            after(w, names, none, env),
                            at,
                            at,
                        ) && test_holds(w, names, after(w, names, none, env), cond) == premise_holds(
                            w,
                            recent.contains(i),
                            g,
                            premises[i],
                            env,
                        ) by {
                        lemma_simple_operands(w, q.g, args, args.len(), env);
                        lemma_limit(w, q.g, args, args.len(), q.g.nodes.len(), g.nodes.len(), env);
                        lemma_values_stable(w, g, q.g, args, args.len(), g.nodes.len(), env);
                    }
                    assert forall|x: Env, y: Env| same_on(b, x, y) implies #[trigger] premise_holds(
                        w,
                        recent.contains(i),
                        g,
                        premises[i],
                        x,
                    ) == #[trigger] premise_holds(w, recent.contains(i), g, premises[i], y) by {
                        lemma_values_same(w, g, args, args.len(), g.nodes.len(), b, x, y);
                    }
                    lemma_condition(
                        w,
                        recent,
                        names,
                        g,
                        none,
                        cond,
                        body->Ok_0.0,
                        premises,
                        i,
                        lets,
                        b,
                        at,
                        at,
                        goal,
                    );
                    assert(wrapped(none, filtered(cond, body->Ok_0.0)) == filtered(cond, body->Ok_0.0));
                }
            },
            _ => {},
        }
    }
}

/// The key of a lookup is the same in a later graph.
proof fn lemma_same_key(g: Graph, later: Graph, args: Seq<InstId>, bound: Seq<NameId>, i: int)
    requires
        g.wf(),
        g.extended_by(later),
        ids_below(args, g.nodes.len()),
        0 <= i,
    ensures
        first_key(later, args, bound, i) == first_key(g, args, bound, i),
    decreases args.len() - i,
{
    if i < args.len() {
        lemma_same(g, later, args[i]);
        lemma_same_key(g, later, args, bound, i + 1);
    }
}

/// Without groups there is one block of transforms.
proof fn lemma_one_block(g: Graph, transforms: Seq<InstId>, n: nat)
    requires
        n <= transforms.len(),
    ensures
        split(g, transforms, n).len() >= 1,
        split(g, transforms, n).len() == 1 ==> split(g, transforms, n)[0] == transforms.take(n as int),
    decreases n,
{
    if n == 0 {
        assert(transforms.take(0) =~= Seq::<InstId>::empty());
    } else {
        lemma_one_block(g, transforms, (n - 1) as nat);
        assert(transforms.take(n as int) =~= transforms.take(n - 1).push(transforms[n - 1]));
    }
}

/// Transforms are split the same in a later graph.
pub(crate) proof fn lemma_same_split(g: Graph, later: Graph, transforms: Seq<InstId>, n: nat)
    requires
        g.wf(),
        g.extended_by(later),
        ids_below(transforms, g.nodes.len()),
        n <= transforms.len(),
    ensures
        split(later, transforms, n) == split(g, transforms, n),
    decreases n,
{
    if n > 0 {
        lemma_same_split(g, later, transforms, (n - 1) as nat);
        lemma_same(g, later, transforms[n - 1]);
    }
}

/// A rule of the graph `g` can be planned to its meaning in a later state of planning.
pub open spec fn plannable_at(g: Graph, p: PlanState, rule: InstId) -> bool {
    &&& follows(g, p)
    &&& g.has(rule)
    &&& plain_vars(g)
    &&& plain_vars(p.g)
    &&& rule_is_safe(g, rule)
    &&& room(p, rule_weight(g, rule))
    &&& split(g, g.node(rule)->Rule_transform, g.node(rule)->Rule_transform.len()).len() == 1
}

/// The state after planning a rule.
pub(crate) proof fn lemma_rule_state(s: Settings, g: Graph, p: PlanState, rule: InstId)
    requires
        plannable_at(g, p, rule),
    ensures
        spent(p, rule_planned(s, p, rule).0, rule_weight(g, rule)),
{
    lemma_fits(g, rule);
    lemma_same(g, p.g, rule);
    if let Node::Rule { head, premises, transform } = g.node(rule) {
        lemma_same_split(g, p.g, transform, transform.len());
        lemma_one_block(g, transform, transform.len());
        assert(transform.take(transform.len() as int) =~= transform);
        lemma_premises_state(s, g, p, premises, 0, Seq::empty(), transform, Tail::Head(head));
    }
}

/// A plan that is made in a later state derives what the rule gives.
pub(crate) proof fn lemma_plan_means(
    w: World,
    s: Settings,
    g: Graph,
    p: PlanState,
    rule: InstId,
    names: Seq<Seq<char>>,
    rel: NameId,
    row: Seq<Val>,
)
    requires
        plannable_at(g, p, rule),
        rule_planned(s, p, rule).1 is Ok,
        names_in(rule_planned(s, p, rule).0.g, names),
    ensures
        derives(w, names, rule_planned(s, p, rule).1->Ok_0, Map::empty(), rel, row) <==> rule_gives(
            w,
            rule_news(g, s, rule),
            g,
            rule,
            rel,
            row,
        ),
{
    lemma_fits(g, rule);
    lemma_same(g, p.g, rule);
    if let Node::Rule { head, premises, transform } = g.node(rule) {
        let (q, plan) = rule_planned(s, p, rule);
        let none = Seq::<NameId>::empty();
        let recent = new_reads(g, s, premises);
        lemma_same_split(g, p.g, transform, transform.len());
        lemma_one_block(g, transform, transform.len());
        assert(transform.take(transform.len() as int) =~= transform);
        let b = Set::<NameId>::empty();
        assert(tracks(names, none, b));
        let tail = Tail::Head(head);
        let goal = head_goal(w, g, head, rel, row);
        assert(aims_at_head(w, g, head, goal));
        lemma_premises_mean(w, recent, names, s, g, p, premises, 0, none, b, transform, tail, goal);
        let env: Env = Map::empty();
        assert(reaches(w, names, plan->Ok_0, env, goal.want) == gives(
            w,
            recent,
            g,
            premises,
            0,
            transform,
            0,
            b,
            env,
            goal,
        ));
        if rule_gives(w, recent, g, rule, rel, row) {
            let z = choose|z: Env| #[trigger]
                satisfied(w, recent, g, premises, 0, transform, 0, z) && head_is(
                    w,
                    g,
                    head,
                    z,
                    rel,
                    row,
                );
            assert(same_on(b, env, z));
            assert(goal.met(z));
        }
    }
}

/// The plan of a safe rule derives exactly the rows that the rule gives, whatever relations
/// hold and functions compute, with and without hash joins. Where new rows are asked for, an
/// atom with no argument known stands for its new rows. This is of rules without groups.
pub proof fn a_plan_derives_what_its_rule_gives(
    w: World,
    s: Settings,
    p: PlanState,
    rule: InstId,
    rel: NameId,
    row: Seq<Val>,
)
    requires
        plannable(p, rule),
        rule_planned(s, p, rule).1 is Ok,
    ensures
        plan_derives(w, s, p, rule, rel, row) <==> rule_gives(
            w,
            rule_news(p.g, s, rule),
            p.g,
            rule,
            rel,
            row,
        ),
{
    let q = rule_planned(s, p, rule).0;
    assert(p.g.extended_by(p.g));
    lemma_rule_state(s, p.g, p, rule);
    lemma_plan_means(w, s, p.g, p, rule, q.g.names, rel, row);
}

/// A premise of a built-in comparison says how its two values stand to each other in the order of
/// values: the left one is less than the right one, not greater, greater, or not less.
pub proof fn comparisons_mean_the_order_of_values(
    w: World,
    new: bool,
    g: Graph,
    id: InstId,
    predicate: NameId,
    l: InstId,
    r: InstId,
    s: Env,
)
    requires
        g.wf(),
        g.has(id),
        g.node(id) == (Node::Atom { predicate, args: seq![l, r] }),
    ensures
        g.name(predicate) == ":lt"@ ==> (premise_holds(w, new, g, id, s) <==> (w.order)(
            value(w, g, l, s),
            value(w, g, r, s),
        ) == Order::Less),
        g.name(predicate) == ":le"@ ==> (premise_holds(w, new, g, id, s) <==> (w.order)(
            value(w, g, l, s),
            value(w, g, r, s),
        ) != Order::Greater),
        g.name(predicate) == ":gt"@ ==> (premise_holds(w, new, g, id, s) <==> (w.order)(
            value(w, g, l, s),
            value(w, g, r, s),
        ) == Order::Greater),
        g.name(predicate) == ":ge"@ ==> (premise_holds(w, new, g, id, s) <==> (w.order)(
            value(w, g, l, s),
            value(w, g, r, s),
        ) != Order::Less),
        g.name(predicate) == ":time:lt"@ ==> (premise_holds(w, new, g, id, s) <==> (w.order)(
            value(w, g, l, s),
            value(w, g, r, s),
        ) == Order::Less),
        g.name(predicate) == ":time:le"@ ==> (premise_holds(w, new, g, id, s) <==> (w.order)(
            value(w, g, l, s),
            value(w, g, r, s),
        ) != Order::Greater),
        g.name(predicate) == ":time:gt"@ ==> (premise_holds(w, new, g, id, s) <==> (w.order)(
            value(w, g, l, s),
            value(w, g, r, s),
        ) == Order::Greater),
        g.name(predicate) == ":time:ge"@ ==> (premise_holds(w, new, g, id, s) <==> (w.order)(
            value(w, g, l, s),
            value(w, g, r, s),
        ) != Order::Less),
        g.name(predicate) == ":duration:lt"@ ==> (premise_holds(w, new, g, id, s) <==> (w.order)(
            value(w, g, l, s),
            value(w, g, r, s),
        ) == Order::Less),
        g.name(predicate) == ":duration:le"@ ==> (premise_holds(w, new, g, id, s) <==> (w.order)(
            value(w, g, l, s),
            value(w, g, r, s),
        ) != Order::Greater),
        g.name(predicate) == ":duration:gt"@ ==> (premise_holds(w, new, g, id, s) <==> (w.order)(
            value(w, g, l, s),
            value(w, g, r, s),
        ) == Order::Greater),
        g.name(predicate) == ":duration:ge"@ ==> (premise_holds(w, new, g, id, s) <==> (w.order)(
            value(w, g, l, s),
            value(w, g, r, s),
        ) != Order::Less),
{
    reveal_strlit(":lt");
    reveal_strlit(":le");
    reveal_strlit(":gt");
    reveal_strlit(":ge");
    reveal_strlit(":time:lt");
    reveal_strlit(":time:le");
    reveal_strlit(":time:gt");
    reveal_strlit(":time:ge");
    reveal_strlit(":duration:lt");
    reveal_strlit(":duration:le");
    reveal_strlit(":duration:gt");
    reveal_strlit(":duration:ge");
    assert(":lt"@.len() == 3);
    assert(":le"@.len() == 3);
    assert(":gt"@.len() == 3);
    assert(":ge"@.len() == 3);
    assert(":time:lt"@.len() == 8);
    assert(":time:le"@.len() == 8);
    assert(":time:gt"@.len() == 8);
    assert(":time:ge"@.len() == 8);
    assert(":duration:lt"@.len() == 12);
    assert(":duration:le"@.len() == 12);
    assert(":duration:gt"@.len() == 12);
    assert(":duration:ge"@.len() == 12);
    assert(":lt"@[1] == 'l' && ":lt"@[2] == 't');
    assert(":le"@[1] == 'l' && ":le"@[2] == 'e');
    assert(":gt"@[1] == 'g' && ":gt"@[2] == 't');
    assert(":ge"@[1] == 'g' && ":ge"@[2] == 'e');
    assert(":time:lt"@[6] == 'l' && ":time:lt"@[7] == 't');
    assert(":time:le"@[6] == 'l' && ":time:le"@[7] == 'e');
    assert(":time:gt"@[6] == 'g' && ":time:gt"@[7] == 't');
    assert(":time:ge"@[6] == 'g' && ":time:ge"@[7] == 'e');
    assert(":duration:lt"@[10] == 'l' && ":duration:lt"@[11] == 't');
    assert(":duration:le"@[10] == 'l' && ":duration:le"@[11] == 'e');
    assert(":duration:gt"@[10] == 'g' && ":duration:gt"@[11] == 't');
    assert(":duration:ge"@[10] == 'g' && ":duration:ge"@[11] == 'e');
    lemma_fits(g, id);
    let args = seq![l, r];
    assert(ids_below(args, g.nodes.len()));
    lemma_values_at(w, g, args, args.len(), g.nodes.len(), s);
    let vs = values(w, g, args, args.len(), g.nodes.len(), s);
    assert(vs[0] == value(w, g, args[0], s));
    assert(vs[1] == value(w, g, args[1], s));
}

/// What a plan derives comes of values of which every premise holds, and there are such values
/// of every row that is derived: so a row of a rule with a comparison is derived exactly if the
/// values that give it compare as the premise says.
pub proof fn a_derived_row_satisfies_every_premise(
    w: World,
    s: Settings,
    p: PlanState,
    rule: InstId,
    head: InstId,
    premises: Seq<InstId>,
    transform: Seq<InstId>,
    rel: NameId,
    row: Seq<Val>,
)
    requires
        plannable(p, rule),
        rule_planned(s, p, rule).1 is Ok,
        p.g.node(rule) == (Node::Rule { head, premises, transform }),
    ensures
        plan_derives(w, s, p, rule, rel, row) <==> exists|e: Env|
            head_is(w, p.g, head, e, rel, row) && #[trigger] satisfied(
                w,
                rule_news(p.g, s, rule),
                p.g,
                premises,
                0,
                transform,
                0,
                e,
            ),
{
    a_plan_derives_what_its_rule_gives(w, s, p, rule, rel, row);
}

/// A hash join is another way to the same rows.
pub proof fn a_hash_join_derives_the_same(
    w: World,
    s: Settings,
    p: PlanState,
    rule: InstId,
    rel: NameId,
    row: Seq<Val>,
)
    requires
        plannable(p, rule),
        rule_planned(Settings { hash_join: true, ..s }, p, rule).1 is Ok,
        rule_planned(Settings { hash_join: false, ..s }, p, rule).1 is Ok,
    ensures
        plan_derives(w, Settings { hash_join: true, ..s }, p, rule, rel, row)
            <==> plan_derives(w, Settings { hash_join: false, ..s }, p, rule, rel, row),
{
    let on = Settings { hash_join: true, ..s };
    let t = Settings { hash_join: false, ..s };
    assert(rule_news(p.g, on, rule) =~= rule_news(p.g, t, rule));
    a_plan_derives_what_its_rule_gives(w, on, p, rule, rel, row);
    a_plan_derives_what_its_rule_gives(w, t, p, rule, rel, row);
}

} // verus!
