//! What plans and rules mean: the rows that a plan derives, and those that a rule gives.
use vstd::prelude::*;

use crate::ir::{ids_below, Graph, InstId, NameId, Node};
use crate::physical::{CompareOp, Constant, Fold, Operand, Plan, Source, Term, Test};
use crate::plan_expr::{interleaved, least, lemma_interleaved, simple_operand, temp_text, PlanState};
use crate::planner::{built_in, comparison, is_test, rule_planned, split, Settings, Tail};
use crate::value::{Order, Val};

verus! {

/// What a program is run against: the rows of relations, among them the new ones, the rows that
/// are being collected, the values of constants, functions and reducers, the order of values, and
/// what built-in predicates say. A reducer is given what its arguments are for each row of a group.
pub struct World {
    pub rows: spec_fn(NameId, Seq<Val>) -> bool,
    pub delta: spec_fn(NameId, Seq<Val>) -> bool,
    pub collected: spec_fn(NameId, Seq<Val>) -> bool,
    pub reduce: spec_fn(Seq<char>, Map<Seq<Val>, Seq<Val>>) -> Val,
    pub constant: spec_fn(Constant) -> Val,
    pub apply: spec_fn(Seq<char>, Seq<Val>) -> Val,
    pub order: spec_fn(Val, Val) -> Order,
    pub test: spec_fn(Seq<char>, Seq<Val>) -> bool,
}

/// Whether two values stand in the relation of a comparison.
pub open spec fn related(w: World, op: CompareOp, a: Val, b: Val) -> bool {
    match op {
        CompareOp::Eq => a == b,
        CompareOp::Neq => a != b,
        CompareOp::Lt => (w.order)(a, b) == Order::Less,
        CompareOp::Le => (w.order)(a, b) != Order::Greater,
        CompareOp::Gt => (w.order)(a, b) == Order::Greater,
        CompareOp::Ge => (w.order)(a, b) != Order::Less,
    }
}

impl World {
    /// Values are compared equal exactly where they are.
    pub open spec fn wf(self) -> bool {
        forall|a: Val, b: Val| #[trigger] related(self, CompareOp::Eq, a, b) == (a == b)
    }
}

/// In every world, values are compared equal exactly where they are.
pub proof fn equal_values_are_the_same(w: World)
    ensures
        w.wf(),
{
}

/// What variables hold.
pub type Env = Map<NameId, Val>;

/// The value of an operand.
pub open spec fn operand(w: World, env: Env, o: Operand) -> Val {
    match o {
        Operand::Var(v) => env[v],
        Operand::Const(c) => (w.constant)(c),
    }
}

/// The values of operands.
pub open spec fn operand_values(w: World, env: Env, ops: Seq<Operand>) -> Seq<Val> {
    Seq::new(ops.len(), |i: int| operand(w, env, ops[i]))
}

/// The value of an expression; `names` are the texts of names.
pub open spec fn term_value(w: World, names: Seq<Seq<char>>, env: Env, t: Term) -> Val {
    match t {
        Term::Value(o) => operand(w, env, o),
        Term::Call { function, args } => (w.apply)(names[function.0 as int], operand_values(w, env, args)),
    }
}

/// Whether a condition holds.
pub open spec fn test_holds(w: World, names: Seq<Seq<char>>, env: Env, t: Test) -> bool {
    match t {
        Test::Compare { op, left, right } => related(w, op, operand(w, env, left), operand(w, env, right)),
        Test::Negation { relation, args } => !(w.rows)(relation, operand_values(w, env, args)),
        Test::Call { function, args } => (w.test)(names[function.0 as int], operand_values(w, env, args)),
    }
}

/// The first `n` variables hold what a row holds.
pub open spec fn bind(env: Env, vars: Seq<NameId>, row: Seq<Val>, n: nat) -> Env
    decreases n,
{
    if n == 0 {
        env
    } else {
        bind(env, vars, row, (n - 1) as nat).insert(vars[n - 1], row[n - 1])
    }
}

/// The variables that the rows of a source go to.
pub open spec fn row_vars(s: Source) -> Seq<NameId> {
    match s {
        Source::Scan { vars, .. } => vars,
        Source::ScanDelta { vars, .. } => vars,
        Source::IndexLookup { vars, .. } => vars,
    }
}

/// Whether a source has a row.
pub open spec fn listed(w: World, env: Env, s: Source, row: Seq<Val>) -> bool {
    &&& row.len() == row_vars(s).len()
    &&& match s {
        Source::Scan { relation, .. } => (w.rows)(relation, row),
        Source::ScanDelta { relation, .. } => (w.delta)(relation, row),
        Source::IndexLookup { relation, col_idx, key, .. } => (w.rows)(relation, row) && col_idx
            < row.len() && row[col_idx as int] == operand(w, env, key),
    }
}

/// Whether both hold the same for the keys.
pub open spec fn keys_agree(s: Env, t: Env, keys: Seq<NameId>) -> bool {
    forall|i: int| 0 <= i < keys.len() ==> s[#[trigger] keys[i]] == t[keys[i]]
}

/// Whether a row is one that groups are made of: it is collected, and has a value for every
/// variable.
pub open spec fn grouped(w: World, source: NameId, vars: Seq<NameId>, r: Seq<Val>) -> bool {
    (w.collected)(source, r) && r.len() == vars.len()
}

/// Whether two rows are in one group: they agree on the keys.
pub open spec fn together(env: Env, vars: Seq<NameId>, keys: Seq<NameId>, r: Seq<Val>, x: Seq<Val>) -> bool {
    keys_agree(bind(env, vars, r, r.len()), bind(env, vars, x, x.len()), keys)
}

/// What the arguments of a reducer are for each row of the group of a row.
pub open spec fn members(
    w: World,
    env: Env,
    source: NameId,
    vars: Seq<NameId>,
    keys: Seq<NameId>,
    args: Seq<Operand>,
    r: Seq<Val>,
) -> Map<Seq<Val>, Seq<Val>> {
    Map::new(
        |x: Seq<Val>| grouped(w, source, vars, x) && together(env, vars, keys, r, x),
        |x: Seq<Val>| operand_values(w, bind(env, vars, x, x.len()), args),
    )
}

/// The first `n` keys hold what a row holds.
pub open spec fn with_keys(env: Env, vars: Seq<NameId>, keys: Seq<NameId>, r: Seq<Val>, n: nat) -> Env
    decreases n,
{
    if n == 0 {
        env
    } else {
        with_keys(env, vars, keys, r, (n - 1) as nat).insert(
            keys[n - 1],
            bind(env, vars, r, r.len())[keys[n - 1]],
        )
    }
}

/// What variables hold for the group of a row: the keys what the row holds, and the first `n`
/// variables of reducers what these make of the group.
pub open spec fn group_env(
    w: World,
    names: Seq<Seq<char>>,
    env: Env,
    source: NameId,
    vars: Seq<NameId>,
    keys: Seq<NameId>,
    folds: Seq<Fold>,
    r: Seq<Val>,
    n: nat,
) -> Env
    decreases n,
{
    if n == 0 {
        with_keys(env, vars, keys, r, keys.len())
    } else {
        let f = folds[n - 1];
        group_env(w, names, env, source, vars, keys, folds, r, (n - 1) as nat).insert(
            f.var,
            (w.reduce)(names[f.func.0 as int], members(w, env, source, vars, keys, f.args, r)),
        )
    }
}

/// What plans see once the first `n` of a sequence are run: the rows that these derive are
/// collected.
pub open spec fn after_plans(w: World, names: Seq<Seq<char>>, ps: Seq<Plan>, n: nat, env: Env) -> World
    decreases ps, n,
{
    if n == 0 || n > ps.len() {
        w
    } else {
        let v = after_plans(w, names, ps, (n - 1) as nat, env);
        World {
            collected: |rel: NameId, row: Seq<Val>|
                (v.collected)(rel, row) || reaches(v, names, ps[n - 1], env, only(rel, row)),
            ..v
        }
    }
}

/// The one row of a relation.
pub open spec fn only(rel: NameId, row: Seq<Val>) -> spec_fn(NameId, Seq<Val>) -> bool {
    |r: NameId, x: Seq<Val>| r == rel && x == row
}

/// Whether a plan derives a row of a relation.
pub open spec fn derives(
    w: World,
    names: Seq<Seq<char>>,
    p: Plan,
    env: Env,
    rel: NameId,
    row: Seq<Val>,
) -> bool {
    reaches(w, names, p, env, only(rel, row))
}

/// Whether a plan derives a row that is wanted.
pub open spec fn reaches(
    w: World,
    names: Seq<Seq<char>>,
    p: Plan,
    env: Env,
    want: spec_fn(NameId, Seq<Val>) -> bool,
) -> bool
    decreases p, 0nat,
{
    match p {
        Plan::Nop => false,
        Plan::Sequence(ps) => exists|k: int|
            0 <= k < ps.len() && reaches(
                after_plans(w, names, ps, k as nat, env),
                names,
                #[trigger] ps[k],
                env,
                want,
            ),
        Plan::Iterate { source, body } => exists|r: Seq<Val>| #[trigger]
            listed(w, env, source, r) && reaches(
                w,
                names,
                *body,
                bind(env, row_vars(source), r, r.len()),
                want,
            ),
        Plan::Filter { cond, body } => test_holds(w, names, env, cond) && reaches(
            w,
            names,
            *body,
            env,
            want,
        ),
        Plan::Insert { relation, args } => want(relation, operand_values(w, env, args)),
        Plan::Let { var, expr, body } => reaches(
            w,
            names,
            *body,
            env.insert(var, term_value(w, names, env, expr)),
            want,
        ),
        Plan::HashJoin { build_source, probe_source, join_keys, body } => exists|r: Seq<Val>, q: Seq<Val>| #[trigger]
            listed(w, env, build_source, r) && #[trigger] listed(w, env, probe_source, q) && keys_agree(
                bind(env, row_vars(build_source), r, r.len()),
                bind(env, row_vars(probe_source), q, q.len()),
                join_keys,
            ) && reaches(
                w,
                names,
                *body,
                bind(
                    bind(env, row_vars(build_source), r, r.len()),
                    row_vars(probe_source),
                    q,
                    q.len(),
                ),
                want,
            ),
        Plan::GroupBy { source, vars, keys, aggregates, body } => exists|r: Seq<Val>| #[trigger]
            grouped(w, source, vars, r) && reaches(
                w,
                names,
                *body,
                group_env(w, names, env, source, vars, keys, aggregates, r, aggregates.len()),
                want,
            ),
    }
}

/// The value of a term of a rule.
pub open spec fn value(w: World, g: Graph, id: InstId, s: Env) -> Val
    decreases id.0, 1nat, 0nat,
    when g.wf() && g.has(id)
{
    match simple_operand(g.node(id)) {
        Some(o) => operand(w, s, o),
        None => match g.node(id) {
            Node::ApplyFn { function, args } => (w.apply)(
                g.name(function),
                values(w, g, args, args.len(), id.0 as nat, s),
            ),
            Node::List(items) => (w.apply)("fn:list"@, values(w, g, items, items.len(), id.0 as nat, s)),
            Node::Dict { keys, values: vs } => {
                let n = least(keys.len(), vs.len());
                let ids = interleaved(keys, vs, n);
                proof {
                    lemma_interleaved(keys, vs, n, id.0 as nat);
                }
                (w.apply)("fn:map"@, values(w, g, ids, ids.len(), id.0 as nat, s))
            },
            Node::Struct { fields, values: vs } => (w.apply)(
                "fn:struct"@,
                field_values(w, g, fields, vs, vs.len(), id.0 as nat, s),
            ),
            _ => Val::Null,
        },
    }
}

/// The values of the first `n` terms.
pub open spec fn values(w: World, g: Graph, ids: Seq<InstId>, n: nat, limit: nat, s: Env) -> Seq<Val>
    decreases limit, 0nat, n,
    when g.wf() && limit <= g.nodes.len() && ids_below(ids, limit) && n <= ids.len()
{
    if n == 0 {
        Seq::empty()
    } else {
        values(w, g, ids, (n - 1) as nat, limit, s).push(value(w, g, ids[n - 1], s))
    }
}

/// The names and values of the first `n` fields in turn.
pub open spec fn field_values(
    w: World,
    g: Graph,
    fields: Seq<NameId>,
    ids: Seq<InstId>,
    n: nat,
    limit: nat,
    s: Env,
) -> Seq<Val>
    decreases limit, 0nat, n,
    when g.wf() && limit <= g.nodes.len() && ids_below(ids, limit) && n <= ids.len()
{
    if n == 0 {
        Seq::empty()
    } else {
        field_values(w, g, fields, ids, (n - 1) as nat, limit, s).push(
            (w.constant)(Constant::Name(fields[n - 1])),
        ).push(value(w, g, ids[n - 1], s))
    }
}

/// The predicates that say that the first of two values, which may be numbers, times or durations,
/// is less than the second.
pub open spec fn is_less(name: Seq<char>) -> bool {
    name == ":lt"@ || name == ":time:lt"@ || name == ":duration:lt"@
}

/// The predicates that say that the first of two values is not greater than the second.
pub open spec fn is_at_most(name: Seq<char>) -> bool {
    name == ":le"@ || name == ":time:le"@ || name == ":duration:le"@
}

/// The predicates that say that the first of two values is greater than the second.
pub open spec fn is_greater(name: Seq<char>) -> bool {
    name == ":gt"@ || name == ":time:gt"@ || name == ":duration:gt"@
}

/// The predicates that say that the first of two values is not less than the second.
pub open spec fn is_at_least(name: Seq<char>) -> bool {
    name == ":ge"@ || name == ":time:ge"@ || name == ":duration:ge"@
}

/// The predicates that test two texts.
pub open spec fn tests_values(name: Seq<char>) -> bool {
    name == ":string:starts_with"@ || name == ":string:ends_with"@ || name == ":string:contains"@ || name
        == ":match_prefix"@
}

/// Whether a premise holds of what variables hold.
pub open spec fn premise_holds(w: World, new: bool, g: Graph, id: InstId, s: Env) -> bool {
    match g.node(id) {
        Node::Atom { predicate, args } => {
            let name = g.name(predicate);
            let vs = values(w, g, args, args.len(), g.nodes.len(), s);
            if is_less(name) {
                args.len() == 2 && (w.order)(vs[0], vs[1]) == Order::Less
            } else if is_at_most(name) {
                args.len() == 2 && (w.order)(vs[0], vs[1]) != Order::Greater
            } else if is_greater(name) {
                args.len() == 2 && (w.order)(vs[0], vs[1]) == Order::Greater
            } else if is_at_least(name) {
                args.len() == 2 && (w.order)(vs[0], vs[1]) != Order::Less
            } else if tests_values(name) {
                args.len() == 2 && (w.test)(name, vs)
            } else if new {
                (w.delta)(predicate, vs)
            } else {
                (w.rows)(predicate, vs)
            }
        },
        Node::Eq(l, r) => value(w, g, l, s) == value(w, g, r, s),
        Node::Ineq(l, r) => value(w, g, l, s) != value(w, g, r, s),
        Node::NegAtom(inner) => match g.node(inner) {
            Node::Atom { predicate, args } => !(w.rows)(
                predicate,
                values(w, g, args, args.len(), g.nodes.len(), s),
            ),
            _ => false,
        },
        _ => false,
    }
}

/// Whether a variable holds what a transform gives it.
pub open spec fn let_holds(w: World, g: Graph, id: InstId, s: Env) -> bool {
    match g.node(id) {
        Node::Transform { var: Some(v), app } => s[v] == value(w, g, app, s),
        _ => false,
    }
}

/// Whether the premises from `i` on and the transforms from `j` on hold.
pub open spec fn satisfied(
    w: World,
    recent: Set<int>,
    g: Graph,
    premises: Seq<InstId>,
    i: int,
    lets: Seq<InstId>,
    j: int,
    s: Env,
) -> bool {
    &&& forall|k: int| i <= k < premises.len() && 0 <= k ==> premise_holds(
        w,
        recent.contains(k),
        g,
        #[trigger] premises[k],
        s,
    )
    &&& forall|k: int| j <= k < lets.len() && 0 <= k ==> let_holds(w, g, #[trigger] lets[k], s)
}

/// Whether the head is the row, given what variables hold.
pub open spec fn head_is(w: World, g: Graph, head: InstId, s: Env, rel: NameId, row: Seq<Val>) -> bool {
    g.node(head) matches Node::Atom { predicate, args } && rel == predicate && row == values(
        w,
        g,
        args,
        args.len(),
        g.nodes.len(),
        s,
    )
}

/// Whether a rule gives a row: some values of its variables satisfy its premises and
/// transforms, and its head is the row.
pub open spec fn rule_gives(w: World, recent: Set<int>, g: Graph, rule: InstId, rel: NameId, row: Seq<Val>) -> bool {
    g.node(rule) matches Node::Rule { head, premises, transform } && exists|s: Env| #[trigger]
        satisfied(w, recent, g, premises, 0, transform, 0, s) && head_is(w, g, head, s, rel, row)
}

/// The variables of a term are in the set.
pub open spec fn vars_within(g: Graph, id: InstId, b: Set<NameId>) -> bool
    decreases id.0,
    when g.wf() && g.has(id)
{
    proof {
        assert(g.nodes[id.0 as int].fits(id.0 as nat, g.names.len(), g.strings.len()));
    }
    match g.node(id) {
        Node::Var(v) => b.contains(v),
        Node::ApplyFn { function, args } => forall|k: int|
            0 <= k < args.len() ==> vars_within(g, #[trigger] args[k], b),
        Node::List(items) => forall|k: int|
            0 <= k < items.len() ==> vars_within(g, #[trigger] items[k], b),
        Node::Dict { keys, values: vs } => (forall|k: int|
            0 <= k < keys.len() ==> vars_within(g, #[trigger] keys[k], b)) && (forall|k: int|
            0 <= k < vs.len() ==> vars_within(g, #[trigger] vs[k], b)),
        Node::Struct { fields, values: vs } => forall|k: int|
            0 <= k < vs.len() ==> vars_within(g, #[trigger] vs[k], b),
        _ => true,
    }
}

/// The variables of all terms are in the set.
pub open spec fn all_within(g: Graph, ids: Seq<InstId>, b: Set<NameId>) -> bool {
    forall|k: int| 0 <= k < ids.len() ==> vars_within(g, #[trigger] ids[k], b)
}

/// Both hold the same on the set.
pub open spec fn same_on(b: Set<NameId>, s: Env, t: Env) -> bool {
    forall|v: NameId| #![trigger s[v]] #![trigger t[v]] b.contains(v) ==> s[v] == t[v]
}

/// The name is that of a temporary with a number from `lo` on and below `hi`.
pub open spec fn is_temp(names: Seq<Seq<char>>, v: NameId, lo: nat, hi: nat) -> bool {
    exists|prefix: Seq<char>, n: usize|
        lo <= n < hi && names[v.0 as int] == #[trigger] temp_text(prefix, n)
}

/// The name is not that of a temporary.
pub open spec fn plain(names: Seq<Seq<char>>, v: NameId) -> bool {
    !(names[v.0 as int].len() > 0 && names[v.0 as int][0] == '$')
}

/// No variable of the graph is called like a temporary.
pub open spec fn plain_vars(g: Graph) -> bool {
    forall|i: int|
        0 <= i < g.nodes.len() ==> match #[trigger] g.nodes[i] {
            Node::Var(v) => plain(g.names, v),
            Node::Transform { var: Some(v), .. } => plain(g.names, v),
            _ => true,
        }
}

/// How much there is to plan in a term: its parts, and the terms in it.
pub open spec fn weight(g: Graph, id: InstId) -> nat
    decreases id.0, 1nat, 0nat,
    when g.wf() && g.has(id)
{
    match g.node(id) {
        Node::ApplyFn { function, args } => 1 + weights(g, args, args.len(), id.0 as nat),
        Node::List(items) => 1 + weights(g, items, items.len(), id.0 as nat),
        Node::Dict { keys, values: vs } => {
            let n = least(keys.len(), vs.len());
            let ids = interleaved(keys, vs, n);
            proof {
                lemma_interleaved(keys, vs, n, id.0 as nat);
            }
            1 + weights(g, ids, ids.len(), id.0 as nat)
        },
        Node::Struct { fields, values: vs } => 1 + vs.len() + weights(g, vs, vs.len(), id.0 as nat),
        _ => 1,
    }
}

/// How much there is to plan in the first `n` terms.
pub open spec fn weights(g: Graph, ids: Seq<InstId>, n: nat, limit: nat) -> nat
    decreases limit, 0nat, n,
    when g.wf() && limit <= g.nodes.len() && ids_below(ids, limit) && n <= ids.len()
{
    if n == 0 {
        0
    } else {
        weights(g, ids, (n - 1) as nat, limit) + weight(g, ids[n - 1])
    }
}

/// There is room for so many temporaries, with their names and instructions.
pub open spec fn room(p: PlanState, n: nat) -> bool {
    &&& p.fresh + n <= usize::MAX
    &&& p.g.names.len() + 2 * n <= usize::MAX
    &&& p.g.nodes.len() + n <= usize::MAX
}

/// How much there is to plan in a list of terms of the graph.
pub open spec fn list_weight(g: Graph, ids: Seq<InstId>) -> nat {
    weights(g, ids, ids.len(), g.nodes.len())
}

/// How much there is to plan in a premise.
pub open spec fn premise_weight(g: Graph, id: InstId) -> nat {
    match g.node(id) {
        Node::Atom { args, .. } => 2 * list_weight(g, args),
        Node::Eq(l, r) => weight(g, l) + weight(g, r),
        Node::Ineq(l, r) => weight(g, l) + weight(g, r),
        _ => 0,
    }
}

/// How much there is to plan from a premise or a transform on.
pub open spec fn rest_weight(
    g: Graph,
    premises: Seq<InstId>,
    i: int,
    lets: Seq<InstId>,
    j: int,
    tail: Tail,
) -> nat
    decreases premises.len() - i, lets.len() - j,
{
    if 0 <= i < premises.len() {
        premise_weight(g, premises[i]) + rest_weight(g, premises, i + 1, lets, j, tail)
    } else if 0 <= j < lets.len() {
        (match g.node(lets[j]) {
            Node::Transform { app, .. } => weight(g, app),
            _ => 0,
        }) + rest_weight(g, premises, i, lets, j + 1, tail)
    } else {
        match tail {
            Tail::Head(head) => match g.node(head) {
                Node::Atom { args, .. } => list_weight(g, args),
                _ => 0,
            },
            Tail::Store(_) => 0,
        }
    }
}

/// The variables once an atom is read: those that are its arguments too.
pub open spec fn with_args(g: Graph, args: Seq<InstId>, b: Set<NameId>) -> Set<NameId> {
    Set::new(
        |v: NameId|
            b.contains(v) || exists|k: int|
                0 <= k < args.len() && g.node(#[trigger] args[k]) == Node::Var(v),
    )
}

/// Whether an argument is known before its atom is read: a constant, or a variable that is
/// bound.
pub open spec fn known(n: Node, b: Set<NameId>) -> bool {
    match n {
        Node::Var(v) => b.contains(v),
        _ => simple_operand(n) is Some,
    }
}

/// The variables that the premises before the `n`-th bind.
pub open spec fn bound_before(g: Graph, premises: Seq<InstId>, n: int) -> Set<NameId>
    decreases n,
{
    if n <= 0 || n > premises.len() {
        Set::empty()
    } else {
        let b = bound_before(g, premises, n - 1);
        match g.node(premises[n - 1]) {
            Node::Atom { predicate, args } => if built_in(g.name(predicate)) {
                b
            } else {
                with_args(g, args, b)
            },
            Node::Eq(l, _) => match g.node(l) {
                Node::Var(v) => b.insert(v),
                _ => b,
            },
            _ => b,
        }
    }
}

/// Whether a premise is an atom of which new rows are asked for, with no argument known.
pub open spec fn reads_new(g: Graph, s: Settings, premises: Seq<InstId>, n: int) -> bool {
    g.node(premises[n]) matches Node::Atom { predicate, args } && s.asks_new(predicate, n)
        && !built_in(g.name(predicate)) && forall|k: int|
        0 <= k < args.len() ==> !known(g.node(#[trigger] args[k]), bound_before(g, premises, n))
}

/// The premises of which a plan reads new rows only.
pub open spec fn new_reads(g: Graph, s: Settings, premises: Seq<InstId>) -> Set<int> {
    Set::new(|n: int| 0 <= n < premises.len() && reads_new(g, s, premises, n))
}

/// The rule is safe from a premise or a transform on, with the variables `b` bound: a
/// variable is bound by an atom or defined before it is used.
pub open spec fn safe(
    g: Graph,
    premises: Seq<InstId>,
    i: int,
    lets: Seq<InstId>,
    j: int,
    tail: Tail,
    b: Set<NameId>,
) -> bool
    decreases premises.len() - i, lets.len() - j,
{
    if 0 <= i < premises.len() {
        match g.node(premises[i]) {
            Node::Atom { predicate, args } => if comparison(g.name(predicate)) is Some || is_test(
                g.name(predicate),
            ) {
                all_within(g, args, b) && safe(g, premises, i + 1, lets, j, tail, b)
            } else {
                all_within(g, args, with_args(g, args, b)) && safe(
                    g,
                    premises,
                    i + 1,
                    lets,
                    j,
                    tail,
                    with_args(g, args, b),
                )
            },
            Node::Eq(l, r) => if g.node(l) is Var && !b.contains(g.node(l)->Var_0) {
                vars_within(g, r, b) && safe(
                    g,
                    premises,
                    i + 1,
                    lets,
                    j,
                    tail,
                    b.insert(g.node(l)->Var_0),
                )
            } else {
                vars_within(g, l, b) && vars_within(g, r, b) && safe(
                    g,
                    premises,
                    i + 1,
                    lets,
                    j,
                    tail,
                    b,
                )
            },
            Node::Ineq(l, r) => vars_within(g, l, b) && vars_within(g, r, b) && safe(
                g,
                premises,
                i + 1,
                lets,
                j,
                tail,
                b,
            ),
            Node::NegAtom(inner) => (g.node(inner) matches Node::Atom { args, .. } && all_within(
                g,
                args,
                b,
            )) && safe(g, premises, i + 1, lets, j, tail, b),
            _ => false,
        }
    } else if 0 <= j < lets.len() {
        match g.node(lets[j]) {
            Node::Transform { var: Some(v), app } => vars_within(g, app, b) && !b.contains(v) && safe(
                g,
                premises,
                i,
                lets,
                j + 1,
                tail,
                b.insert(v),
            ),
            _ => false,
        }
    } else {
        match tail {
            Tail::Head(head) => g.node(head) matches Node::Atom { args, .. } && all_within(g, args, b),
            Tail::Store(_) => true,
        }
    }
}

/// How much there is to plan in a rule.
pub open spec fn rule_weight(g: Graph, rule: InstId) -> nat {
    match g.node(rule) {
        Node::Rule { head, premises, transform } => rest_weight(
            g,
            premises,
            0,
            transform,
            0,
            Tail::Head(head),
        ),
        _ => 0,
    }
}

/// The rule is safe: an atom binds every variable, or it is defined, before it is used.
pub open spec fn rule_is_safe(g: Graph, rule: InstId) -> bool {
    g.node(rule) matches Node::Rule { head, premises, transform } && safe(
        g,
        premises,
        0,
        transform,
        0,
        Tail::Head(head),
        Set::empty(),
    )
}

/// The premises of a rule of which a plan reads new rows only.
pub open spec fn rule_news(g: Graph, s: Settings, rule: InstId) -> Set<int> {
    match g.node(rule) {
        Node::Rule { premises, .. } => new_reads(g, s, premises),
        _ => Set::empty(),
    }
}

/// A rule can be planned to its meaning: it is safe, has no groups, and leaves room for the
/// names that planning makes.
pub open spec fn plannable(p: PlanState, rule: InstId) -> bool {
    &&& p.g.wf()
    &&& p.g.has(rule)
    &&& plain_vars(p.g)
    &&& rule_is_safe(p.g, rule)
    &&& room(p, rule_weight(p.g, rule))
    &&& split(
        p.g,
        p.g.node(rule)->Rule_transform,
        p.g.node(rule)->Rule_transform.len(),
    ).len() == 1
}

/// Whether a plan derives a row from nothing bound.
pub open spec fn plan_derives(
    w: World,
    s: Settings,
    p: PlanState,
    rule: InstId,
    rel: NameId,
    row: Seq<Val>,
) -> bool {
    let (q, plan) = rule_planned(s, p, rule);
    derives(w, q.g.names, plan->Ok_0, Map::empty(), rel, row)
}

} // verus!
