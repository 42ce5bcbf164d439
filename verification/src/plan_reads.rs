//! Atoms of rules: reading their rows binds and checks their arguments.
use vstd::prelude::*;

use crate::ir::{ids_below, Graph, InstId, NameId, Node};
use crate::physical::{CompareOp, Operand, Plan, Source, Term, Test};
use crate::plan_expr::{evaluated, temp_text, with_temp, wrapped, PlanState};
use crate::plan_meaning::{
    all_within, bind, head_is, is_temp, keys_agree, known, listed, only, operand, operand_values,
    plain, plain_vars, premise_holds, reaches, room, row_vars, same_on, satisfied, test_holds,
    value, values, vars_within, weights, with_args, Env, World,
};
use crate::plan_terms::{
    after, agree, computes, follows, lemma_agree_plain, lemma_agree_wider, lemma_evaluated,
    lemma_evaluated_state, lemma_fits, lemma_plain, lemma_plain_within, lemma_same, lemma_temp,
    lemma_temp_wider, lemma_temps_apart, lemma_value_same, lemma_value_stable, lemma_values_at,
    lemma_weight_stable, lemma_wrapped, names_in, plain_in, plain_set, spent, top,
};
use crate::planner::{
    ascending, built_in, common, comparison, constrained, filtered, first_key, fresh_vars, is_test,
    key_operand, lemma_with_var, scan_vars, source_of, var_operands, with_vars, Joined, Settings,
    Tail,
};
use crate::value::Val;

verus! {

/// The state after naming the columns of a row.
pub(crate) proof fn lemma_scan_state(g: Graph, p: PlanState, args: Seq<InstId>, bound: Seq<NameId>, n: nat)
    requires
        follows(g, p),
        ids_below(args, g.nodes.len()),
        n <= args.len(),
        room(p, n),
    ensures
        spent(p, scan_vars(p, args, bound, n).0, n),
        scan_vars(p, args, bound, n).1.len() == n,
    decreases n,
{
    if n > 0 {
        lemma_scan_state(g, p, args, bound, (n - 1) as nat);
        let (q, vars) = scan_vars(p, args, bound, (n - 1) as nat);
        lemma_temp(q, "scan"@);
    }
}

/// The state after planning constraints.
pub(crate) proof fn lemma_constrained_state(
    g: Graph,
    p: PlanState,
    args: Seq<InstId>,
    vars: Seq<NameId>,
    n: nat,
    body: Plan,
)
    requires
        follows(g, p),
        ids_below(args, g.nodes.len()),
        n <= args.len(),
        room(p, weights(g, args, n, g.nodes.len())),
    ensures
        spent(p, constrained(p, args, vars, n, body).0, weights(g, args, n, g.nodes.len())),
    decreases n,
{
    if n > 0 {
        let id = args[n - 1];
        lemma_same(g, p.g, id);
        match g.node(id) {
            Node::Var(v) => {
                let cond = Test::Compare {
                    op: CompareOp::Eq,
                    left: Operand::Var(vars[n - 1]),
                    right: Operand::Var(v),
                };
                lemma_constrained_state(g, p, args, vars, (n - 1) as nat, body);
                lemma_constrained_state(g, p, args, vars, (n - 1) as nat, filtered(cond, body));
            },
            _ => {
                lemma_weight_stable(g, p.g, id);
                lemma_evaluated_state(p.g, p, id);
                let (q, r) = evaluated(p.g, p, id);
                if let Ok((bs, o)) = r {
                    let cond = Test::Compare {
                        op: CompareOp::Eq,
                        left: Operand::Var(vars[n - 1]),
                        right: o,
                    };
                    lemma_constrained_state(
                        g,
                        q,
                        args,
                        vars,
                        (n - 1) as nat,
                        wrapped(bs, filtered(cond, body)),
                    );
                }
            },
        }
    }
}

/// What is asked of the rest of a rule: rows that are wanted, and what must hold of its variables
/// for one of them.
pub struct Goal {
    pub want: spec_fn(NameId, Seq<Val>) -> bool,
    pub holds: spec_fn(Env) -> bool,
}

impl Goal {
    /// Whether what variables hold is what is asked for.
    pub open spec fn met(self, s: Env) -> bool {
        (self.holds)(s)
    }
}

/// The head is the row.
pub open spec fn head_goal(w: World, g: Graph, head: InstId, rel: NameId, row: Seq<Val>) -> Goal {
    Goal { want: only(rel, row), holds: |s: Env| head_is(w, g, head, s, rel, row) }
}

/// Whether the head gives a row that is wanted.
pub open spec fn head_wanted(
    w: World,
    g: Graph,
    head: InstId,
    s: Env,
    want: spec_fn(NameId, Seq<Val>) -> bool,
) -> bool {
    g.node(head) matches Node::Atom { predicate, args } && want(
        predicate,
        values(w, g, args, args.len(), g.nodes.len(), s),
    )
}

/// Both hold the same for the plain ones of some variables.
pub open spec fn alike_on(names: Seq<Seq<char>>, vars: Seq<NameId>, s: Env, t: Env) -> bool {
    forall|i: int|
        0 <= i < vars.len() && (#[trigger] vars[i]).0 < names.len() && plain(names, vars[i]) ==> s[vars[i]]
            == t[vars[i]]
}

/// A head is in the graph.
pub open spec fn tail_known(g: Graph, tail: Tail) -> bool {
    match tail {
        Tail::Head(head) => g.has(head),
        Tail::Store(_) => true,
    }
}

/// What is asked for is that the head gives a row that is wanted.
pub open spec fn aims_at_head(w: World, g: Graph, head: InstId, goal: Goal) -> bool {
    forall|s: Env| #[trigger] goal.met(s) == head_wanted(w, g, head, s, goal.want)
}

/// What is asked for is that a row of these variables is wanted, whatever temporaries hold.
pub open spec fn aims_at_row(w: World, names: Seq<Seq<char>>, relation: NameId, vars: Seq<NameId>, goal: Goal) -> bool {
    &&& forall|s: Env| #[trigger]
        goal.met(s) == (goal.want)(relation, operand_values(w, s, var_operands(vars)))
    &&& forall|s: Env, t: Env|
        alike_on(names, vars, s, t) ==> #[trigger] goal.met(s) == #[trigger] goal.met(t)
}

/// What is asked for is asked of the tail of a block with these variables.
pub open spec fn aims(w: World, names: Seq<Seq<char>>, g: Graph, tail: Tail, vars: Seq<NameId>, goal: Goal) -> bool {
    match tail {
        Tail::Head(head) => aims_at_head(w, g, head, goal),
        Tail::Store(relation) => aims_at_row(w, names, relation, vars, goal),
    }
}

/// Whether the rest of a rule gives what is asked for, with what the variables `b` hold.
pub open spec fn gives(
    w: World,
    recent: Set<int>,
    g: Graph,
    premises: Seq<InstId>,
    i: int,
    lets: Seq<InstId>,
    j: int,
    b: Set<NameId>,
    env: Env,
    goal: Goal,
) -> bool {
    exists|s: Env| #[trigger]
        satisfied(w, recent, g, premises, i, lets, j, s) && same_on(b, env, s) && goal.met(s)
}

/// The plan derives what the rest of the rule gives.
pub open spec fn means(
    w: World,
    recent: Set<int>,
    names: Seq<Seq<char>>,
    plan: Plan,
    g: Graph,
    premises: Seq<InstId>,
    i: int,
    lets: Seq<InstId>,
    j: int,
    b: Set<NameId>,
    goal: Goal,
) -> bool {
    forall|env: Env| #[trigger]
        reaches(w, names, plan, env, goal.want) == gives(
            w,
            recent,
            g,
            premises,
            i,
            lets,
            j,
            b,
            env,
            goal,
        )
}

/// Only what the bound variables hold matters.
pub(crate) proof fn lemma_gives_same(
    w: World,
    recent: Set<int>,
    g: Graph,
    premises: Seq<InstId>,
    i: int,
    lets: Seq<InstId>,
    j: int,
    b: Set<NameId>,
    s: Env,
    t: Env,
    goal: Goal,
)
    requires
        same_on(b, s, t),
    ensures
        gives(w, recent, g, premises, i, lets, j, b, s, goal) == gives(
            w,
            recent,
            g,
            premises,
            i,
            lets,
            j,
            b,
            t,
            goal,
        ),
{
    if gives(w, recent, g, premises, i, lets, j, b, s, goal) {
        let z = choose|z: Env| #[trigger]
            satisfied(w, recent, g, premises, i, lets, j, z) && same_on(b, s, z) && goal.met(z);
        assert(same_on(b, t, z)) by {
            assert forall|v: NameId| #![trigger t[v]] #![trigger z[v]] b.contains(v) implies t[v] == z[v] by {
                assert(s[v] == t[v]);
                assert(s[v] == z[v]);
            }
        }
    }
    if gives(w, recent, g, premises, i, lets, j, b, t, goal) {
        let z = choose|z: Env| #[trigger]
            satisfied(w, recent, g, premises, i, lets, j, z) && same_on(b, t, z) && goal.met(z);
        assert(same_on(b, s, z)) by {
            assert forall|v: NameId| #![trigger s[v]] #![trigger z[v]] b.contains(v) implies s[v] == z[v] by {
                assert(s[v] == t[v]);
                assert(t[v] == z[v]);
            }
        }
    }
}

/// The variables that planning takes for bound are those that are, but for temporaries.
pub open spec fn tracks(names: Seq<Seq<char>>, bound: Seq<NameId>, b: Set<NameId>) -> bool {
    &&& ascending(bound)
    &&& plain_in(names, b)
    &&& forall|v: NameId|
        v.0 < names.len() && plain(names, v) ==> (#[trigger] bound.contains(v) <==> b.contains(v))
}

/// Agreement but for temporaries is agreement on plain variables.
pub(crate) proof fn lemma_same_bound(
    names: Seq<Seq<char>>,
    b: Set<NameId>,
    s: Env,
    t: Env,
    lo: nat,
    hi: nat,
)
    requires
        plain_in(names, b),
        agree(names, s, t, lo, hi),
    ensures
        same_on(b, s, t),
{
    lemma_agree_plain(names, s, t, lo, hi);
    assert forall|v: NameId| #![trigger s[v]] #![trigger t[v]] b.contains(v) implies s[v] == t[v] by {
        assert(plain_set(names).contains(v));
    }
}

/// The plan does not depend on temporaries from `lo` on.
pub open spec fn ignores(
    w: World,
    names: Seq<Seq<char>>,
    plan: Plan,
    lo: nat,
    goal: Goal,
) -> bool {
    forall|s: Env, t: Env|
        agree(names, s, t, lo, top()) ==> #[trigger] reaches(w, names, plan, s, goal.want)
            == #[trigger] reaches(w, names, plan, t, goal.want)
}

/// The columns hold the values of the first `n` arguments.
pub open spec fn columns_match(
    w: World,
    g: Graph,
    args: Seq<InstId>,
    vars: Seq<NameId>,
    n: nat,
    env: Env,
) -> bool {
    forall|k: int| 0 <= k < n ==> env[#[trigger] vars[k]] == value(w, g, args[k], env)
}

/// The plan derives the row where the body does and the columns match.
pub open spec fn checks(
    w: World,
    names: Seq<Seq<char>>,
    plan: Plan,
    body: Plan,
    g: Graph,
    args: Seq<InstId>,
    vars: Seq<NameId>,
    n: nat,
    goal: Goal,
) -> bool {
    forall|env: Env| #[trigger]
        reaches(w, names, plan, env, goal.want) == (columns_match(w, g, args, vars, n, env) && reaches(
            w,
            names,
            body,
            env,
            goal.want,
        ))
}

/// One more column that is checked.
proof fn lemma_check_one(
    w: World,
    names: Seq<Seq<char>>,
    bs: Seq<(NameId, Term)>,
    o: Operand,
    body: Plan,
    g: Graph,
    id: InstId,
    var: NameId,
    lo: nat,
    mid: nat,
    hi: nat,
    goal: Goal,
)
    requires
        g.wf(),
        g.has(id),
        plain_vars(g),
        g.names.is_prefix_of(names),
        ignores(w, names, body, lo, goal),
        computes(w, names, bs, o, g, id, mid, hi),
        lo <= mid <= hi <= top(),
        var.0 < names.len(),
        !is_temp(names, var, lo, top()),
    ensures
        ({
            let cond = Test::Compare { op: CompareOp::Eq, left: Operand::Var(var), right: o };
            let plan = wrapped(bs, filtered(cond, body));
            &&& ignores(w, names, plan, lo, goal)
            &&& forall|env: Env| #[trigger]
                reaches(w, names, plan, env, goal.want) == (env[var] == value(w, g, id, env) && reaches(
                    w,
                    names,
                    body,
                    env,
                    goal.want,
                ))
        }),
{
    let cond = Test::Compare { op: CompareOp::Eq, left: Operand::Var(var), right: o };
    let plan = wrapped(bs, filtered(cond, body));
    assert forall|env: Env| #[trigger]
        reaches(w, names, plan, env, goal.want) == (env[var] == value(w, g, id, env) && reaches(
            w,
            names,
            body,
            env,
            goal.want,
        )) by {
        let e = after(w, names, bs, env);
        assert(e == after(w, names, bs, env));
        lemma_wrapped(w, names, bs, filtered(cond, body), env, goal.want);
        if is_temp(names, var, mid, hi) {
            lemma_temp_wider(names, var, lo, mid, hi, top());
        }
        assert(env[var] == e[var]);
        lemma_agree_wider(names, env, e, lo, mid, hi, top());
        assert(reaches(w, names, body, env, goal.want) == reaches(w, names, body, e, goal.want));
        assert(reaches(w, names, filtered(cond, body), e, goal.want) == (test_holds(w, names, e, cond)
            && reaches(w, names, body, e, goal.want)));
    }
    lemma_plain_within(g, names, id);
    assert forall|s: Env, t: Env| agree(names, s, t, lo, top()) implies #[trigger] reaches(
        w,
        names,
        plan,
        s,
        goal.want,
    ) == #[trigger] reaches(w, names, plan, t, goal.want) by {
        lemma_agree_plain(names, s, t, lo, top());
        lemma_value_same(w, g, id, plain_set(names), s, t);
        assert(s[var] == t[var]);
        assert(reaches(w, names, body, s, goal.want) == reaches(w, names, body, t, goal.want));
    }
}

/// The constraints of an atom check its columns.
pub(crate) proof fn lemma_constrained(
    w: World,
    names: Seq<Seq<char>>,
    g: Graph,
    p: PlanState,
    args: Seq<InstId>,
    vars: Seq<NameId>,
    n: nat,
    body: Plan,
    lo: nat,
    goal: Goal,
)
    requires
        follows(g, p),
        plain_vars(p.g),
        ids_below(args, g.nodes.len()),
        n <= args.len(),
        vars.len() == args.len(),
        room(p, weights(g, args, n, g.nodes.len())),
        lo <= p.fresh,
        ignores(w, names, body, lo, goal),
        forall|k: int|
            0 <= k < vars.len() ==> (#[trigger] vars[k]).0 < names.len() && !is_temp(
                names,
                vars[k],
                lo,
                top(),
            ),
        constrained(p, args, vars, n, body).1 is Ok,
        names_in(constrained(p, args, vars, n, body).0.g, names),
    ensures
        checks(w, names, constrained(p, args, vars, n, body).1->Ok_0, body, g, args, vars, n, goal),
    decreases n,
{
    if n > 0 {
        let id = args[n - 1];
        let var = vars[n - 1];
        let end = constrained(p, args, vars, n, body).0.g;
        lemma_constrained_state(g, p, args, vars, n, body);
        lemma_same(g, p.g, id);
        match g.node(id) {
            Node::Var(v) => {
                let cond = Test::Compare {
                    op: CompareOp::Eq,
                    left: Operand::Var(var),
                    right: Operand::Var(v),
                };
                assert(p.g.nodes[id.0 as int] == Node::Var(v));
                lemma_fits(p.g, id);
                assert(p.g.names[v.0 as int] == end.names[v.0 as int]);
                assert(names[v.0 as int] == end.names[v.0 as int]);
                if v == var {
                    lemma_constrained(w, names, g, p, args, vars, (n - 1) as nat, body, lo, goal);
                    let plan = constrained(p, args, vars, (n - 1) as nat, body).1->Ok_0;
                    assert forall|env: Env| #[trigger]
                        reaches(w, names, plan, env, goal.want) == (columns_match(
                            w,
                            g,
                            args,
                            vars,
                            n,
                            env,
                        ) && reaches(w, names, body, env, goal.want)) by {
                        assert(value(w, g, id, env) == env[v]);
                        assert(columns_match(w, g, args, vars, n, env) == columns_match(
                            w,
                            g,
                            args,
                            vars,
                            (n - 1) as nat,
                            env,
                        ));
                    }
                } else {
                    let none = Seq::<(NameId, Term)>::empty();
                    let o = Operand::Var(v);
                    let next = filtered(cond, body);
                    assert(wrapped(none, next) == next);
                    assert forall|env: Env| #[trigger]
                        after(w, names, none, env) == after(w, names, none, env) && agree(
                            names,
                            env,
                            after(w, names, none, env),
                            p.fresh as nat,
                            p.fresh as nat,
                        ) && operand(w, after(w, names, none, env), o) == value(w, p.g, id, env) by {}
                    lemma_check_one(
                        w,
                        names,
                        none,
                        o,
                        body,
                        p.g,
                        id,
                        var,
                        lo,
                        p.fresh as nat,
                        p.fresh as nat,
                        goal,
                    );
                    lemma_constrained(w, names, g, p, args, vars, (n - 1) as nat, next, lo, goal);
                    let plan = constrained(p, args, vars, (n - 1) as nat, next).1->Ok_0;
                    lemma_check_more(w, names, plan, next, body, g, p.g, args, vars, n, goal);
                }
            },
            _ => {
                lemma_weight_stable(g, p.g, id);
                lemma_evaluated_state(p.g, p, id);
                let (q, r) = evaluated(p.g, p, id);
                let (bs, o) = r->Ok_0;
                let cond = Test::Compare { op: CompareOp::Eq, left: Operand::Var(var), right: o };
                let next = wrapped(bs, filtered(cond, body));
                lemma_constrained_state(g, q, args, vars, (n - 1) as nat, next);
                lemma_evaluated(w, names, p.g, p, id);
                lemma_check_one(
                    w,
                    names,
                    bs,
                    o,
                    body,
                    p.g,
                    id,
                    var,
                    lo,
                    p.fresh as nat,
                    q.fresh as nat,
                    goal,
                );
                lemma_constrained(w, names, g, q, args, vars, (n - 1) as nat, next, lo, goal);
                let plan = constrained(q, args, vars, (n - 1) as nat, next).1->Ok_0;
                lemma_check_more(w, names, plan, next, body, g, p.g, args, vars, n, goal);
            },
        }
    }
}

/// Columns that are checked one after the other.
proof fn lemma_check_more(
    w: World,
    names: Seq<Seq<char>>,
    plan: Plan,
    next: Plan,
    body: Plan,
    g: Graph,
    later: Graph,
    args: Seq<InstId>,
    vars: Seq<NameId>,
    n: nat,
    goal: Goal,
)
    requires
        g.wf(),
        later.wf(),
        g.extended_by(later),
        ids_below(args, g.nodes.len()),
        0 < n <= args.len(),
        checks(w, names, plan, next, g, args, vars, (n - 1) as nat, goal),
        forall|env: Env| #[trigger]
            reaches(w, names, next, env, goal.want) == (env[vars[n - 1]] == value(
                w,
                later,
                args[n - 1],
                env,
            ) && reaches(w, names, body, env, goal.want)),
    ensures
        checks(w, names, plan, body, g, args, vars, n, goal),
{
    assert forall|env: Env| #[trigger]
        reaches(w, names, plan, env, goal.want) == (columns_match(w, g, args, vars, n, env) && reaches(
            w,
            names,
            body,
            env,
            goal.want,
        )) by {
        lemma_value_stable(w, g, later, args[n - 1], env);
        assert(reaches(w, names, next, env, goal.want) == (env[vars[n - 1]] == value(
            w,
            later,
            args[n - 1],
            env,
        ) && reaches(w, names, body, env, goal.want)));
        assert(columns_match(w, g, args, vars, n, env) == (columns_match(
            w,
            g,
            args,
            vars,
            (n - 1) as nat,
            env,
        ) && env[vars[n - 1]] == value(w, g, args[n - 1], env)));
    }
}

/// A row is bound column by column.
proof fn lemma_bind(env: Env, vars: Seq<NameId>, row: Seq<Val>, n: nat)
    requires
        vars.no_duplicates(),
        n <= vars.len(),
        n <= row.len(),
    ensures
        forall|k: int| 0 <= k < n ==> bind(env, vars, row, n)[#[trigger] vars[k]] == row[k],
        forall|v: NameId|
            !vars.contains(v) ==> #[trigger] bind(env, vars, row, n)[v] == env[v],
    decreases n,
{
    if n > 0 {
        lemma_bind(env, vars, row, (n - 1) as nat);
        let before = bind(env, vars, row, (n - 1) as nat);
        assert forall|k: int| 0 <= k < n implies bind(env, vars, row, n)[#[trigger] vars[k]] == row[k] by {
            if k < n - 1 {
                assert(vars[k] != vars[n - 1]);
                assert(before[vars[k]] == row[k]);
            }
        }
        assert forall|v: NameId| !vars.contains(v) implies #[trigger] bind(env, vars, row, n)[v]
            == env[v] by {
            assert(vars.contains(vars[n - 1]));
            assert(before[v] == env[v]);
        }
    }
}

/// The argument is an unbound variable that comes first there.
pub open spec fn own_column(g: Graph, args: Seq<InstId>, b: Set<NameId>, k: int) -> bool {
    &&& g.node(args[k]) is Var
    &&& !b.contains(g.node(args[k])->Var_0)
    &&& forall|i: int| 0 <= i < k ==> g.node(#[trigger] args[i]) != g.node(args[k])
}

/// An unbound variable among the arguments comes first somewhere.
proof fn lemma_own(g: Graph, args: Seq<InstId>, b: Set<NameId>, v: NameId, k: int) -> (j: int)
    requires
        0 <= k < args.len(),
        g.node(args[k]) == Node::Var(v),
        !b.contains(v),
    ensures
        0 <= j <= k,
        g.node(args[j]) == Node::Var(v),
        own_column(g, args, b, j),
    decreases k,
{
    if exists|i: int| 0 <= i < k && g.node(#[trigger] args[i]) == g.node(args[k]) {
        let i = choose|i: int| 0 <= i < k && g.node(#[trigger] args[i]) == g.node(args[k]);
        lemma_own(g, args, b, v, i)
    } else {
        k
    }
}

/// The variables that the columns of an atom go to.
pub open spec fn columns_of(
    names: Seq<Seq<char>>,
    g: Graph,
    args: Seq<InstId>,
    b: Set<NameId>,
    vars: Seq<NameId>,
    n: nat,
    lo: nat,
    hi: nat,
) -> bool {
    &&& vars.len() == n
    &&& vars.no_duplicates()
    &&& forall|k: int|
        0 <= k < n ==> (#[trigger] vars[k]).0 < names.len() && if own_column(g, args, b, k) {
            vars[k] == g.node(args[k])->Var_0 && plain(names, vars[k])
        } else {
            is_temp(names, vars[k], lo, hi) && !plain(names, vars[k])
        }
}

/// A temporary is not plain.
proof fn lemma_temp_not_plain(names: Seq<Seq<char>>, v: NameId, lo: nat, hi: nat)
    requires
        is_temp(names, v, lo, hi),
    ensures
        !plain(names, v),
{
    if plain(names, v) {
        lemma_plain(names, v, lo, hi);
    }
}

/// An unbound variable goes to itself, every other column to a temporary of its own.
pub(crate) proof fn lemma_scan_vars(
    names: Seq<Seq<char>>,
    g: Graph,
    p: PlanState,
    args: Seq<InstId>,
    bound: Seq<NameId>,
    b: Set<NameId>,
    n: nat,
)
    requires
        follows(g, p),
        plain_vars(g),
        ids_below(args, g.nodes.len()),
        n <= args.len(),
        room(p, n),
        tracks(names, bound, b),
        names_in(scan_vars(p, args, bound, n).0.g, names),
    ensures
        columns_of(
            names,
            g,
            args,
            b,
            scan_vars(p, args, bound, n).1,
            n,
            p.fresh as nat,
            scan_vars(p, args, bound, n).0.fresh as nat,
        ),
    decreases n,
{
    if n > 0 {
        let (q, vars) = scan_vars(p, args, bound, (n - 1) as nat);
        let (r, all) = scan_vars(p, args, bound, n);
        lemma_scan_state(g, p, args, bound, (n - 1) as nat);
        lemma_scan_state(g, p, args, bound, n);
        lemma_temp(q, "scan"@);
        lemma_scan_vars(names, g, p, args, bound, b, (n - 1) as nat);
        let id = args[n - 1];
        lemma_same(g, p.g, id);
        lemma_fits(g, id);
        let lo = p.fresh as nat;
        let mid = q.fresh as nat;
        let hi = r.fresh as nat;
        let last = all[n - 1];
        assert(all == vars.push(last));
        let own = own_column(g, args, b, n - 1);
        if g.node(id) is Var {
            let v = g.node(id)->Var_0;
            assert(g.nodes[id.0 as int] == Node::Var(v));
            assert(g.names[v.0 as int] == p.g.names[v.0 as int]);
            assert(p.g.names[v.0 as int] == r.g.names[v.0 as int]);
            assert(r.g.names[v.0 as int] == names[v.0 as int]);
            assert(plain(names, v));
            assert(bound.contains(v) <==> b.contains(v));
            if !b.contains(v) {
                assert(vars.contains(v) <==> !own) by {
                    if vars.contains(v) {
                        let k = vars.index_of(v);
                        assert(plain(names, vars[k]));
                        assert(own_column(g, args, b, k));
                        assert(g.node(args[k]) == g.node(args[n - 1]));
                    }
                    if !own {
                        let i = choose|i: int| 0 <= i < n - 1 && g.node(#[trigger] args[i]) == g.node(
                            args[n - 1],
                        );
                        let j = lemma_own(g, args, b, v, i);
                        assert(vars[j] == v);
                    }
                }
            }
        }
        if own {
            assert(last == g.node(id)->Var_0);
        } else {
            let (t, temp) = with_temp(q, "scan"@);
            assert(r == t);
            assert(last == temp);
            assert(r.g.names[temp.0 as int] == names[temp.0 as int]);
            assert(names[temp.0 as int] == temp_text("scan"@, q.fresh));
            assert(is_temp(names, temp, mid, hi));
            lemma_temp_wider(names, temp, lo, mid, hi, hi);
            lemma_temp_not_plain(names, temp, lo, hi);
        }
        assert forall|k: int| 0 <= k < n implies (#[trigger] all[k]).0 < names.len() && if own_column(
            g,
            args,
            b,
            k,
        ) {
            all[k] == g.node(args[k])->Var_0 && plain(names, all[k])
        } else {
            is_temp(names, all[k], lo, hi) && !plain(names, all[k])
        } by {
            if k < n - 1 {
                assert(all[k] == vars[k]);
                if !own_column(g, args, b, k) {
                    lemma_temp_wider(names, vars[k], lo, lo, mid, hi);
                }
            }
        }
        assert forall|i: int, k: int| 0 <= i < all.len() && 0 <= k < all.len() && i != k implies all[i]
            != all[k] by {
            if i < n - 1 && k < n - 1 {
                assert(all[i] == vars[i] && all[k] == vars[k]);
            } else {
                let e = if i < n - 1 { i } else { k };
                assert(all[e] == vars[e]);
                let early = own_column(g, args, b, e);
                if early && own {
                    assert(g.node(args[n - 1]) != g.node(args[e]));
                } else if !early && !own {
                    lemma_temps_apart(names, vars[e], lo, mid, hi);
                    assert(is_temp(names, last, mid, hi));
                }
            }
        }
    }
}

/// Bound variables with more of them.
pub(crate) proof fn lemma_with_vars(bound: Seq<NameId>, vars: Seq<NameId>, n: nat)
    requires
        ascending(bound),
        n <= vars.len(),
    ensures
        ascending(with_vars(bound, vars, n)),
        forall|v: NameId| #[trigger]
            with_vars(bound, vars, n).contains(v) <==> bound.contains(v) || exists|k: int|
                0 <= k < n && vars[k] == v,
    decreases n,
{
    if n > 0 {
        lemma_with_vars(bound, vars, (n - 1) as nat);
        let before = with_vars(bound, vars, (n - 1) as nat);
        lemma_with_var(before, vars[n - 1]);
        assert forall|v: NameId| #[trigger]
            with_vars(bound, vars, n).contains(v) <==> bound.contains(v) || exists|k: int|
                0 <= k < n && vars[k] == v by {
            assert(before.contains(v) <==> bound.contains(v) || exists|k: int|
                0 <= k < n - 1 && vars[k] == v);
            if v == vars[n - 1] {
                assert(0 <= n - 1 < n && vars[n - 1] == v);
            }
        }
    }
}

/// What planning takes for bound once an atom is read.
pub(crate) proof fn lemma_tracks_atom(
    names: Seq<Seq<char>>,
    g: Graph,
    args: Seq<InstId>,
    bound: Seq<NameId>,
    b: Set<NameId>,
    vars: Seq<NameId>,
    lo: nat,
    hi: nat,
)
    requires
        g.wf(),
        plain_vars(g),
        g.names.is_prefix_of(names),
        ids_below(args, g.nodes.len()),
        tracks(names, bound, b),
        vars.len() == args.len(),
        columns_of(names, g, args, b, vars, args.len(), lo, hi),
    ensures
        tracks(names, with_vars(bound, vars, vars.len()), with_args(g, args, b)),
{
    let c = with_args(g, args, b);
    let after = with_vars(bound, vars, vars.len());
    lemma_with_vars(bound, vars, vars.len());
    assert forall|v: NameId| #[trigger] c.contains(v) implies v.0 < names.len() && plain(names, v) by {
        if !b.contains(v) {
            let k = choose|k: int| 0 <= k < args.len() && g.node(#[trigger] args[k]) == Node::Var(v);
            lemma_fits(g, args[k]);
            assert(g.nodes[args[k].0 as int] == Node::Var(v));
            assert(g.names[v.0 as int] == names[v.0 as int]);
        }
    }
    assert forall|v: NameId| v.0 < names.len() && plain(names, v) implies (#[trigger] after.contains(v)
        <==> c.contains(v)) by {
        if after.contains(v) && !bound.contains(v) {
            let k = choose|k: int| 0 <= k < vars.len() && vars[k] == v;
            assert(vars[k] == v);
            assert(g.node(args[k]) == Node::Var(v));
        }
        if c.contains(v) && !b.contains(v) {
            let k = choose|k: int| 0 <= k < args.len() && g.node(#[trigger] args[k]) == Node::Var(v);
            let j = lemma_own(g, args, b, v, k);
            assert(vars[j] == v);
        }
    }
}

/// The key of an index lookup is the value of its argument.
proof fn lemma_first_key(g: Graph, args: Seq<InstId>, bound: Seq<NameId>, i: int)
    requires
        0 <= i,
        args.len() <= usize::MAX,
    ensures
        first_key(g, args, bound, i) matches Some((col, key)) ==> col < args.len() && key_operand(
            g.node(args[col as int]),
            bound,
        ) == Some(key),
        first_key(g, args, bound, i) is None ==> forall|k: int|
            i <= k < args.len() ==> key_operand(g.node(#[trigger] args[k]), bound) is None,
    decreases args.len() - i,
{
    if i < args.len() && key_operand(g.node(args[i]), bound) is None {
        lemma_first_key(g, args, bound, i + 1);
    }
}

/// No key is found exactly where no argument is known.
pub(crate) proof fn lemma_known(
    names: Seq<Seq<char>>,
    g: Graph,
    args: Seq<InstId>,
    bound: Seq<NameId>,
    b: Set<NameId>,
)
    requires
        g.wf(),
        plain_vars(g),
        g.names.is_prefix_of(names),
        ids_below(args, g.nodes.len()),
        args.len() <= usize::MAX,
        tracks(names, bound, b),
    ensures
        first_key(g, args, bound, 0) is None <==> forall|k: int|
            0 <= k < args.len() ==> !known(g.node(#[trigger] args[k]), b),
{
    lemma_first_key(g, args, bound, 0);
    assert forall|k: int| 0 <= k < args.len() implies known(g.node(#[trigger] args[k]), b) == (
    key_operand(g.node(args[k]), bound) is Some) by {
        if let Node::Var(v) = g.node(args[k]) {
            lemma_fits(g, args[k]);
            assert(g.nodes[args[k].0 as int] == Node::Var(v));
            assert(g.names[v.0 as int] == names[v.0 as int]);
        }
    }
}

/// Reading an atom before the rest of a rule.
pub(crate) proof fn lemma_read(
    w: World,
    recent: Set<int>,
    names: Seq<Seq<char>>,
    s: Settings,
    g: Graph,
    predicate: NameId,
    args: Seq<InstId>,
    bound: Seq<NameId>,
    b: Set<NameId>,
    vars: Seq<NameId>,
    plan: Plan,
    body: Plan,
    premises: Seq<InstId>,
    i: int,
    lets: Seq<InstId>,
    lo: nat,
    hi: nat,
    goal: Goal,
)
    requires
        recent.contains(i) == (s.asks_new(predicate, i) && first_key(g, args, bound, 0) is None),
        g.wf(),
        plain_vars(g),
        g.names.is_prefix_of(names),
        ids_below(args, g.nodes.len()),
        args.len() <= usize::MAX,
        0 <= i < premises.len(),
        g.node(premises[i]) == (Node::Atom { predicate, args }),
        comparison(g.name(predicate)) is None,
        !is_test(g.name(predicate)),
        tracks(names, bound, b),
        vars.len() == args.len(),
        columns_of(names, g, args, b, vars, args.len(), lo, hi),
        all_within(g, args, with_args(g, args, b)),
        checks(w, names, plan, body, g, args, vars, args.len(), goal),
        means(w, recent, names, body, g, premises, i + 1, lets, 0, with_args(g, args, b), goal),
    ensures
        means(
            w,
            recent,
            names,
            Plan::Iterate {
                source: source_of(s, predicate, i, first_key(g, args, bound, 0), vars),
                body: Box::new(plan),
            },
            g,
            premises,
            i,
            lets,
            0,
            b,
            goal,
        ),
{
    let key = first_key(g, args, bound, 0);
    let source = source_of(s, predicate, i, key, vars);
    let whole = Plan::Iterate { source, body: Box::new(plan) };
    let c = with_args(g, args, b);
    let limit = g.nodes.len();
    lemma_first_key(g, args, bound, 0);
    assert(row_vars(source) == vars);
    assert forall|env: Env| #[trigger]
        reaches(w, names, whole, env, goal.want) == gives(
            w,
            recent,
            g,
            premises,
            i,
            lets,
            0,
            b,
            env,
            goal,
        ) by {
        // A bound variable is no column.
        assert forall|v: NameId| #[trigger] b.contains(v) implies !vars.contains(v) by {
            if vars.contains(v) {
                let k = choose|k: int| 0 <= k < vars.len() && vars[k] == v;
                assert(vars[k] == v);
            }
        }
        if reaches(w, names, whole, env, goal.want) {
            let r = choose|r: Seq<Val>| #[trigger]
                listed(w, env, source, r) && reaches(
                    w,
                    names,
                    plan,
                    bind(env, vars, r, r.len()),
                    goal.want,
                );
            let e = bind(env, vars, r, r.len());
            lemma_bind(env, vars, r, r.len());
            assert(reaches(w, names, plan, e, goal.want));
            assert(columns_match(w, g, args, vars, args.len(), e));
            assert(gives(w, recent, g, premises, i + 1, lets, 0, c, e, goal));
            let z = choose|z: Env| #[trigger]
                satisfied(w, recent, g, premises, i + 1, lets, 0, z) && same_on(c, e, z) && goal.met(z);
            lemma_values_at(w, g, args, args.len(), limit, z);
            assert forall|k: int| 0 <= k < args.len() implies values(w, g, args, args.len(), limit, z)[k]
                == r[k] by {
                assert(vars_within(g, args[k], c));
                lemma_value_same(w, g, args[k], c, e, z);
                assert(e[vars[k]] == r[k]);
            }
            assert(values(w, g, args, args.len(), limit, z) =~= r);
            assert(premise_holds(w, recent.contains(i), g, premises[i], z));
            assert(same_on(b, env, z)) by {
                assert forall|v: NameId| #![trigger env[v]] #![trigger z[v]] b.contains(v) implies env[v]
                    == z[v] by {
                    assert(c.contains(v));
                    assert(e[v] == env[v]);
                    assert(e[v] == z[v]);
                }
            }
            assert(satisfied(w, recent, g, premises, i, lets, 0, z));
        }
        if gives(w, recent, g, premises, i, lets, 0, b, env, goal) {
            let z = choose|z: Env| #[trigger]
                satisfied(w, recent, g, premises, i, lets, 0, z) && same_on(b, env, z) && goal.met(z);
            assert(premise_holds(w, recent.contains(i), g, premises[i], z));
            let r = values(w, g, args, args.len(), limit, z);
            lemma_values_at(w, g, args, args.len(), limit, z);
            let e = bind(env, vars, r, r.len());
            lemma_bind(env, vars, r, r.len());
            if let Some((col, k)) = key {
                let id = args[col as int];
                assert(r[col as int] == value(w, g, id, z));
                if let Node::Var(v) = g.node(id) {
                    lemma_fits(g, id);
                    assert(g.nodes[id.0 as int] == Node::Var(v));
                    assert(g.names[v.0 as int] == names[v.0 as int]);
                    assert(bound.contains(v));
                    assert(b.contains(v));
                    assert(env[v] == z[v]);
                }
                assert(r[col as int] == operand(w, env, k));
            }
            assert(listed(w, env, source, r));
            assert(same_on(c, e, z)) by {
                assert forall|v: NameId| #![trigger e[v]] #![trigger z[v]] c.contains(v) implies e[v]
                    == z[v] by {
                    if b.contains(v) {
                        assert(e[v] == env[v]);
                        assert(env[v] == z[v]);
                    } else {
                        let k = choose|k: int|
                            0 <= k < args.len() && g.node(#[trigger] args[k]) == Node::Var(v);
                        let j = lemma_own(g, args, b, v, k);
                        assert(vars[j] == v);
                        assert(r[j] == value(w, g, args[j], z));
                    }
                }
            }
            assert(columns_match(w, g, args, vars, args.len(), e)) by {
                assert forall|k: int| 0 <= k < args.len() implies e[#[trigger] vars[k]] == value(
                    w,
                    g,
                    args[k],
                    e,
                ) by {
                    assert(vars_within(g, args[k], c));
                    lemma_value_same(w, g, args[k], c, e, z);
                    assert(r[k] == value(w, g, args[k], z));
                }
            }
            assert(satisfied(w, recent, g, premises, i + 1, lets, 0, z));
            assert(gives(w, recent, g, premises, i + 1, lets, 0, c, e, goal));
            assert(reaches(w, names, body, e, goal.want));
            assert(reaches(w, names, plan, e, goal.want));
        }
    }
}

/// The arguments are these variables, none of them bound or repeated.
pub open spec fn are_fresh(g: Graph, args: Seq<InstId>, bound: Seq<NameId>, vars: Seq<NameId>) -> bool {
    &&& vars.len() == args.len()
    &&& vars.no_duplicates()
    &&& forall|k: int|
        0 <= k < args.len() ==> g.node(#[trigger] args[k]) == Node::Var(vars[k]) && !bound.contains(
            vars[k],
        )
}

/// What fresh variables are.
pub(crate) proof fn lemma_fresh_vars(g: Graph, later: Graph, args: Seq<InstId>, bound: Seq<NameId>, n: nat)
    requires
        g.wf(),
        g.extended_by(later),
        ids_below(args, g.nodes.len()),
        n <= args.len(),
        fresh_vars(later, args, bound, n) is Some,
    ensures
        are_fresh(g, args.take(n as int), bound, fresh_vars(later, args, bound, n)->Some_0),
        n == args.len() ==> are_fresh(g, args, bound, fresh_vars(later, args, bound, n)->Some_0),
    decreases n,
{
    let vars = fresh_vars(later, args, bound, n)->Some_0;
    let some = args.take(n as int);
    if n > 0 {
        lemma_fresh_vars(g, later, args, bound, (n - 1) as nat);
        lemma_same(g, later, args[n - 1]);
        let before = fresh_vars(later, args, bound, (n - 1) as nat)->Some_0;
        let v = g.node(args[n - 1])->Var_0;
        assert(vars == before.push(v));
        assert forall|k: int| 0 <= k < some.len() implies g.node(#[trigger] some[k]) == Node::Var(
            vars[k],
        ) && !bound.contains(vars[k]) by {
            if k < n - 1 {
                assert(args.take(n - 1)[k] == some[k]);
                assert(vars[k] == before[k]);
            }
        }
        assert forall|i: int, k: int| 0 <= i < vars.len() && 0 <= k < vars.len() && i != k implies vars[i]
            != vars[k] by {
            if i < n - 1 && k < n - 1 {
                assert(before[i] != before[k]);
            } else if i < n - 1 {
                assert(before.contains(before[i]));
            } else {
                assert(before.contains(before[k]));
            }
        }
    }
    if n == args.len() {
        assert(some =~= args);
    }
}

/// What planning takes for bound once an atom of fresh variables is read.
pub(crate) proof fn lemma_tracks_fresh(
    names: Seq<Seq<char>>,
    g: Graph,
    args: Seq<InstId>,
    bound: Seq<NameId>,
    b: Set<NameId>,
    vars: Seq<NameId>,
)
    requires
        g.wf(),
        plain_vars(g),
        g.names.is_prefix_of(names),
        ids_below(args, g.nodes.len()),
        tracks(names, bound, b),
        vars.len() == args.len(),
        forall|k: int| 0 <= k < args.len() ==> g.node(#[trigger] args[k]) == Node::Var(vars[k]),
    ensures
        tracks(names, with_vars(bound, vars, vars.len()), with_args(g, args, b)),
{
    let c = with_args(g, args, b);
    let after = with_vars(bound, vars, vars.len());
    lemma_with_vars(bound, vars, vars.len());
    assert forall|v: NameId| #[trigger] c.contains(v) implies v.0 < names.len() && plain(names, v) by {
        if !b.contains(v) {
            let k = choose|k: int| 0 <= k < args.len() && g.node(#[trigger] args[k]) == Node::Var(v);
            lemma_fits(g, args[k]);
            assert(g.nodes[args[k].0 as int] == Node::Var(v));
            assert(g.names[v.0 as int] == names[v.0 as int]);
        }
    }
    assert forall|v: NameId| v.0 < names.len() && plain(names, v) implies (#[trigger] after.contains(v)
        <==> c.contains(v)) by {
        if after.contains(v) && !bound.contains(v) {
            let k = choose|k: int| 0 <= k < vars.len() && vars[k] == v;
            assert(g.node(args[k]) == Node::Var(v));
        }
        if c.contains(v) && !b.contains(v) {
            let k = choose|k: int| 0 <= k < args.len() && g.node(#[trigger] args[k]) == Node::Var(v);
            assert(vars[k] == v);
        }
    }
}

/// The keys of a join are the common variables.
proof fn lemma_common(names: Seq<NameId>, other: Seq<NameId>, n: nat)
    requires
        n <= names.len(),
    ensures
        forall|v: NameId| #[trigger]
            common(names, other, n).contains(v) <==> other.contains(v) && exists|k: int|
                0 <= k < n && names[k] == v,
    decreases n,
{
    if n > 0 {
        lemma_common(names, other, (n - 1) as nat);
        let before = common(names, other, (n - 1) as nat);
        let last = names[n - 1];
        assert forall|v: NameId| #[trigger]
            common(names, other, n).contains(v) <==> other.contains(v) && exists|k: int|
                0 <= k < n && names[k] == v by {
            assert(before.contains(v) <==> other.contains(v) && exists|k: int|
                0 <= k < n - 1 && names[k] == v);
            if other.contains(last) {
                assert(before.push(last)[before.len() as int] == last);
                if before.contains(v) {
                    assert(before.push(last)[before.index_of(v)] == v);
                }
                if before.push(last).contains(v) && v != last {
                    let k = before.push(last).index_of(v);
                    assert(before[k] == v);
                }
            }
            if v == last {
                assert(0 <= n - 1 < n && names[n - 1] == v);
            }
        }
    }
}

/// Whether two rows are joined, and the body derives the row from them.
pub open spec fn joined(
    w: World,
    names: Seq<Seq<char>>,
    env: Env,
    bv: Seq<NameId>,
    pv: Seq<NameId>,
    keys: Seq<NameId>,
    body: Plan,
    r: Seq<Val>,
    q: Seq<Val>,
    goal: Goal,
) -> bool {
    keys_agree(bind(env, bv, r, r.len()), bind(env, pv, q, q.len()), keys) && reaches(
        w,
        names,
        body,
        bind(bind(env, bv, r, r.len()), pv, q, q.len()),
        goal.want,
    )
}

/// Reading two atoms at once before the rest of a rule.
#[verifier::rlimit(40)]
pub(crate) proof fn lemma_join(
    w: World,
    recent: Set<int>,
    names: Seq<Seq<char>>,
    g: Graph,
    predicate: NameId,
    args: Seq<InstId>,
    probe: NameId,
    more: Seq<InstId>,
    bound: Seq<NameId>,
    b: Set<NameId>,
    j: Joined,
    body: Plan,
    premises: Seq<InstId>,
    i: int,
    lets: Seq<InstId>,
    goal: Goal,
)
    requires
        g.wf(),
        plain_vars(g),
        g.names.is_prefix_of(names),
        ids_below(args, g.nodes.len()),
        ids_below(more, g.nodes.len()),
        0 <= i,
        i + 1 < premises.len(),
        g.node(premises[i]) == (Node::Atom { predicate, args }),
        g.node(premises[i + 1]) == (Node::Atom { predicate: probe, args: more }),
        !built_in(g.name(predicate)),
        !built_in(g.name(probe)),
        tracks(names, bound, b),
        are_fresh(g, args, bound, j.build_vars),
        are_fresh(g, more, bound, j.probe_vars),
        !recent.contains(i),
        !recent.contains(i + 1),
        j.probe == probe,
        j.keys == common(j.build_vars, j.probe_vars, j.build_vars.len()),
        means(
            w,
            recent,
            names,
            body,
            g,
            premises,
            i + 2,
            lets,
            0,
            with_args(g, more, with_args(g, args, b)),
            goal,
        ),
    ensures
        means(
            w,
            recent,
            names,
            Plan::HashJoin {
                build_source: Source::Scan { relation: predicate, vars: j.build_vars },
                probe_source: Source::Scan { relation: probe, vars: j.probe_vars },
                join_keys: j.keys,
                body: Box::new(body),
            },
            g,
            premises,
            i,
            lets,
            0,
            b,
            goal,
        ),
{
    let bv = j.build_vars;
    let pv = j.probe_vars;
    let build = Source::Scan { relation: predicate, vars: bv };
    let other = Source::Scan { relation: probe, vars: pv };
    let whole = Plan::HashJoin {
        build_source: build,
        probe_source: other,
        join_keys: j.keys,
        body: Box::new(body),
    };
    let d = with_args(g, more, with_args(g, args, b));
    let limit = g.nodes.len();
    lemma_common(bv, pv, bv.len());
    assert forall|v: NameId| #[trigger] d.contains(v) <==> b.contains(v) || bv.contains(v) || pv.contains(
        v,
    ) by {
        if bv.contains(v) {
            let k = bv.index_of(v);
            assert(g.node(args[k]) == Node::Var(v));
        }
        if pv.contains(v) {
            let k = pv.index_of(v);
            assert(g.node(more[k]) == Node::Var(v));
        }
        if d.contains(v) && !b.contains(v) {
            if exists|k: int| 0 <= k < args.len() && g.node(#[trigger] args[k]) == Node::Var(v) {
                let k = choose|k: int| 0 <= k < args.len() && g.node(#[trigger] args[k]) == Node::Var(v);
                assert(bv[k] == v);
            } else {
                let k = choose|k: int| 0 <= k < more.len() && g.node(#[trigger] more[k]) == Node::Var(v);
                assert(pv[k] == v);
            }
        }
    }
    assert forall|v: NameId| #[trigger] b.contains(v) implies !bv.contains(v) && !pv.contains(v) by {
        assert(bound.contains(v));
        if bv.contains(v) {
            let k = bv.index_of(v);
            assert(g.node(args[k]) == Node::Var(bv[k]));
        }
        if pv.contains(v) {
            let k = pv.index_of(v);
            assert(g.node(more[k]) == Node::Var(pv[k]));
        }
    }
    assert forall|env: Env| #[trigger]
        reaches(w, names, whole, env, goal.want) == gives(
            w,
            recent,
            g,
            premises,
            i,
            lets,
            0,
            b,
            env,
            goal,
        ) by {
        if reaches(w, names, whole, env, goal.want) {
            let (r, q) = choose|r: Seq<Val>, q: Seq<Val>| #[trigger]
                listed(w, env, build, r) && #[trigger] listed(w, env, other, q) && joined(
                    w,
                    names,
                    env,
                    bv,
                    pv,
                    j.keys,
                    body,
                    r,
                    q,
                    goal,
                );
            let x = bind(env, bv, r, r.len());
            let y = bind(env, pv, q, q.len());
            let e = bind(x, pv, q, q.len());
            lemma_bind(env, bv, r, r.len());
            lemma_bind(env, pv, q, q.len());
            lemma_bind(x, pv, q, q.len());
            assert(gives(w, recent, g, premises, i + 2, lets, 0, d, e, goal));
            let z = choose|z: Env| #[trigger]
                satisfied(w, recent, g, premises, i + 2, lets, 0, z) && same_on(d, e, z) && goal.met(z);
            lemma_values_at(w, g, args, args.len(), limit, z);
            lemma_values_at(w, g, more, more.len(), limit, z);
            assert(values(w, g, args, args.len(), limit, z) =~= r) by {
                assert forall|k: int| 0 <= k < args.len() implies values(
                    w,
                    g,
                    args,
                    args.len(),
                    limit,
                    z,
                )[k] == r[k] by {
                    let v = bv[k];
                    assert(g.node(args[k]) == Node::Var(v));
                    assert(bv.contains(v));
                    assert(d.contains(v));
                    assert(e[v] == z[v]);
                    assert(x[v] == r[k]);
                    if pv.contains(v) {
                        assert(j.keys.contains(v));
                        let m = j.keys.index_of(v);
                        assert(x[j.keys[m]] == y[j.keys[m]]);
                        let o = pv.index_of(v);
                        assert(y[pv[o]] == q[o]);
                        assert(e[pv[o]] == q[o]);
                    } else {
                        assert(e[v] == x[v]);
                    }
                }
            }
            assert(values(w, g, more, more.len(), limit, z) =~= q) by {
                assert forall|k: int| 0 <= k < more.len() implies values(
                    w,
                    g,
                    more,
                    more.len(),
                    limit,
                    z,
                )[k] == q[k] by {
                    let v = pv[k];
                    assert(g.node(more[k]) == Node::Var(v));
                    assert(pv.contains(v));
                    assert(d.contains(v));
                    assert(e[v] == z[v]);
                    assert(e[pv[k]] == q[k]);
                }
            }
            assert(premise_holds(w, recent.contains(i), g, premises[i], z));
            assert(premise_holds(w, recent.contains(i + 1), g, premises[i + 1], z));
            assert(same_on(b, env, z)) by {
                assert forall|v: NameId| #![trigger env[v]] #![trigger z[v]] b.contains(v) implies env[v]
                    == z[v] by {
                    assert(d.contains(v));
                    assert(e[v] == x[v]);
                    assert(x[v] == env[v]);
                    assert(e[v] == z[v]);
                }
            }
            assert(satisfied(w, recent, g, premises, i, lets, 0, z));
        }
        if gives(w, recent, g, premises, i, lets, 0, b, env, goal) {
            let z = choose|z: Env| #[trigger]
                satisfied(w, recent, g, premises, i, lets, 0, z) && same_on(b, env, z) && goal.met(z);
            assert(premise_holds(w, recent.contains(i), g, premises[i], z));
            assert(premise_holds(w, recent.contains(i + 1), g, premises[i + 1], z));
            let r = values(w, g, args, args.len(), limit, z);
            let q = values(w, g, more, more.len(), limit, z);
            lemma_values_at(w, g, args, args.len(), limit, z);
            lemma_values_at(w, g, more, more.len(), limit, z);
            let x = bind(env, bv, r, r.len());
            let y = bind(env, pv, q, q.len());
            let e = bind(x, pv, q, q.len());
            lemma_bind(env, bv, r, r.len());
            lemma_bind(env, pv, q, q.len());
            lemma_bind(x, pv, q, q.len());
            assert forall|v: NameId| bv.contains(v) implies #[trigger] x[v] == z[v] by {
                let k = bv.index_of(v);
                assert(g.node(args[k]) == Node::Var(v));
                assert(x[bv[k]] == r[k]);
                assert(r[k] == value(w, g, args[k], z));
            }
            assert forall|v: NameId| pv.contains(v) implies #[trigger] y[v] == z[v] && e[v] == z[v] by {
                let k = pv.index_of(v);
                assert(g.node(more[k]) == Node::Var(v));
                assert(y[pv[k]] == q[k]);
                assert(e[pv[k]] == q[k]);
                assert(q[k] == value(w, g, more[k], z));
            }
            assert(same_on(d, e, z)) by {
                assert forall|v: NameId| #![trigger e[v]] #![trigger z[v]] d.contains(v) implies e[v]
                    == z[v] by {
                    if pv.contains(v) {
                        assert(y[v] == z[v]);
                    } else {
                        assert(e[v] == x[v]);
                        if bv.contains(v) {
                            assert(x[v] == z[v]);
                        } else {
                            assert(x[v] == env[v]);
                            assert(b.contains(v));
                            assert(env[v] == z[v]);
                        }
                    }
                }
            }
            assert forall|m: int| 0 <= m < j.keys.len() implies x[#[trigger] j.keys[m]] == y[j.keys[m]] by {
                let v = j.keys[m];
                assert(j.keys.contains(v));
                assert(pv.contains(v));
                assert(bv.contains(v));
                assert(x[v] == z[v]);
                assert(y[v] == z[v]);
            }
            assert(satisfied(w, recent, g, premises, i + 2, lets, 0, z));
            assert(gives(w, recent, g, premises, i + 2, lets, 0, d, e, goal));
            assert(reaches(w, names, body, e, goal.want));
            assert(listed(w, env, build, r));
            assert(listed(w, env, other, q));
            assert(joined(w, names, env, bv, pv, j.keys, body, r, q, goal));
        }
    }
}

} // verus!
