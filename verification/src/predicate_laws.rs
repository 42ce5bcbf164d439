//! What the predicates that are left to sources of base facts mean: a row of which one does not
//! hold is of no use to any plan.
use vstd::prelude::*;

use crate::ir::{Graph, NameId};
use crate::physical::{source_relation, CompareOp, Constant, Fold, Operand, Plan, Source, Term, Test};
use crate::plan_meaning::{
    after_plans, bind, group_env, grouped, listed, members, only, operand, operand_values,
    reaches, related, row_vars, term_value, test_holds, Env, World,
};
use crate::predicate::{
    all_reads, column_of, column_pred, cond_pred, constant_value, filter_preds, flipped, is_relation,
    made_by_all, plain_read, pushed, reads, source_read,
};
use crate::source::{all_hold, pred_holds, Pred};
use crate::value::{comparison_reverses, order_of, Val};

verus! {

/// Values are ordered as values are, and constants have the values that they are written as.
pub open spec fn plain_values(w: World, g: Graph) -> bool {
    &&& forall|a: Val, b: Val| #[trigger] (w.order)(a, b) == order_of(a, b)
    &&& forall|n: i64|
        #![trigger (w.constant)(Constant::Number(n))]
        (w.constant)(Constant::Number(n)) == Val::Number(n)
    &&& forall|b: u64|
        #![trigger (w.constant)(Constant::Float(b))]
        (w.constant)(Constant::Float(b)) == Val::Float(b)
    &&& forall|s: crate::ir::StringId|
        #![trigger (w.constant)(Constant::String(s))]
        s.0 < g.strings.len() ==> (w.constant)(Constant::String(s)) == Val::String(g.string(s))
    &&& forall|n: NameId|
        #![trigger (w.constant)(Constant::Name(n))]
        g.has_name(n) ==> (w.constant)(Constant::Name(n)) == Val::Name(g.name(n))
    &&& forall|t: i64|
        #![trigger (w.constant)(Constant::Time(t))]
        (w.constant)(Constant::Time(t)) == Val::Time(t)
    &&& forall|d: i64|
        #![trigger (w.constant)(Constant::Duration(d))]
        (w.constant)(Constant::Duration(d)) == Val::Duration(d)
}

/// A variable of a scan holds what the row has in the variable's last column.
proof fn lemma_column(env: Env, vars: Seq<NameId>, row: Seq<Val>, v: NameId, n: nat)
    requires
        n <= vars.len(),
        vars.len() <= usize::MAX,
    ensures
        column_of(vars, v, n) matches Some(c) ==> c < n && bind(env, vars, row, n)[v] == row[c as int],
        column_of(vars, v, n) is None ==> forall|k: int| 0 <= k < n ==> vars[k] != v,
    decreases n,
{
    if n > 0 {
        lemma_column(env, vars, row, v, (n - 1) as nat);
    }
}

/// The predicate of a column and a constant holds of a row exactly if the comparison does.
proof fn lemma_column_pred(
    w: World,
    g: Graph,
    env: Env,
    vars: Seq<NameId>,
    row: Seq<Val>,
    op: CompareOp,
    left: Operand,
    right: Operand,
)
    requires
        plain_values(w, g),
        vars.len() <= usize::MAX,
        row.len() == vars.len(),
        column_pred(g, op, left, right, vars) is Some,
    ensures
        pred_holds(column_pred(g, op, left, right, vars)->Some_0, row) <==> related(
            w,
            op,
            operand(w, bind(env, vars, row, row.len()), left),
            operand(w, bind(env, vars, row, row.len()), right),
        ),
{
    if let Operand::Var(v) = left {
        lemma_column(env, vars, row, v, vars.len());
    }
    if let Operand::Const(c) = right {
        assert(constant_value(g, c) is Some ==> (w.constant)(c) == constant_value(g, c)->Some_0);
    }
}

/// A predicate that a condition is turned into holds of a row exactly if the condition holds
/// once the row is bound to the variables of the scan.
pub proof fn a_predicate_holds_where_its_condition_does(
    w: World,
    g: Graph,
    names: Seq<Seq<char>>,
    env: Env,
    vars: Seq<NameId>,
    row: Seq<Val>,
    cond: Test,
)
    requires
        plain_values(w, g),
        vars.len() <= usize::MAX,
        row.len() == vars.len(),
        cond_pred(g, cond, vars) is Some,
    ensures
        pred_holds(cond_pred(g, cond, vars)->Some_0, row) <==> test_holds(
            w,
            names,
            bind(env, vars, row, row.len()),
            cond,
        ),
{
    if let Test::Compare { op, left, right } = cond {
        let e = bind(env, vars, row, row.len());
        if column_pred(g, op, left, right, vars) is Some {
            lemma_column_pred(w, g, env, vars, row, op, left, right);
        } else {
            lemma_column_pred(w, g, env, vars, row, flipped(op), right, left);
            comparison_reverses(operand(w, e, left), operand(w, e, right));
        }
    }
}

/// A comparison of a variable of a scan with a constant whose value is known is turned into a
/// predicate, on whichever side the constant stands.
pub proof fn a_comparison_with_a_constant_is_a_predicate(
    g: Graph,
    vars: Seq<NameId>,
    op: CompareOp,
    v: NameId,
    c: Constant,
)
    requires
        vars.contains(v),
        vars.len() <= usize::MAX,
        match c {
            Constant::String(s) => s.0 < g.strings.len(),
            Constant::Name(n) => g.has_name(n),
            _ => true,
        },
    ensures
        cond_pred(g, Test::Compare { op, left: Operand::Var(v), right: Operand::Const(c) }, vars) is Some,
        cond_pred(g, Test::Compare { op, left: Operand::Const(c), right: Operand::Var(v) }, vars) is Some,
{
    let k = vars.index_of(v);
    assert(vars[k] == v);
    lemma_column(Map::empty(), vars, Seq::empty(), v, vars.len());
}

/// No row has more columns than can be counted.
pub open spec fn narrow(p: Plan) -> bool
    decreases p, 0nat,
{
    match p {
        Plan::Sequence(ps) => all_narrow(ps, ps.len()),
        Plan::Iterate { source, body } => row_vars(source).len() <= usize::MAX && narrow(*body),
        Plan::Filter { body, .. } => narrow(*body),
        Plan::Let { body, .. } => narrow(*body),
        Plan::GroupBy { body, .. } => narrow(*body),
        Plan::HashJoin { body, .. } => narrow(*body),
        _ => true,
    }
}

/// No row in the first `n` plans has more columns than can be counted.
pub open spec fn all_narrow(ps: Seq<Plan>, n: nat) -> bool
    decreases ps, n,
{
    if n == 0 || n > ps.len() {
        true
    } else {
        all_narrow(ps, (n - 1) as nat) && narrow(ps[n - 1])
    }
}

/// What a program is run against if the source of a relation leaves out the rows of which some
/// predicate does not hold.
pub open spec fn without_rows(w: World, g: Graph, rel: Seq<char>, left: Seq<Pred>) -> World {
    World {
        rows: |n: NameId, row: Seq<Val>|
            (w.rows)(n, row) && (is_relation(g, n, rel) ==> all_hold(left, row)),
        ..w
    }
}

/// Every read makes all of the predicates.
spec fn made(made_by: Seq<Seq<Pred>>, left: Seq<Pred>) -> bool {
    forall|k: int| 0 <= k < left.len() ==> made_by_all(made_by, #[trigger] left[k])
}

proof fn lemma_made_parts(a: Seq<Seq<Pred>>, b: Seq<Seq<Pred>>, left: Seq<Pred>)
    requires
        made(a + b, left),
    ensures
        made(a, left),
        made(b, left),
{
    let both = a + b;
    assert forall|k: int| 0 <= k < left.len() implies made_by_all(a, #[trigger] left[k]) && made_by_all(
        b,
        left[k],
    ) by {
        assert(made_by_all(both, left[k]));
        assert forall|i: int| 0 <= i < a.len() implies (#[trigger] a[i]).contains(left[k]) by {
            assert(both[i] == a[i]);
        }
        assert forall|i: int| 0 <= i < b.len() implies (#[trigger] b[i]).contains(left[k]) by {
            assert(both[a.len() + i] == b[i]);
        }
    }
}

/// Where a read makes no predicate, none is left to the source.
proof fn lemma_plain_read(g: Graph, n: NameId, rel: Seq<char>, left: Seq<Pred>)
    requires
        made(plain_read(g, n, rel), left),
        is_relation(g, n, rel),
    ensures
        left.len() == 0,
{
    if left.len() > 0 {
        let rs = plain_read(g, n, rel);
        assert(made_by_all(rs, left[0]));
        assert(rs[0].contains(left[0]));
    }
}

/// What is derived below filters comes of a row of which the predicates of the filters hold.
proof fn lemma_filters_hold(
    w: World,
    g: Graph,
    names: Seq<Seq<char>>,
    env: Env,
    vars: Seq<NameId>,
    row: Seq<Val>,
    body: Plan,
    want: spec_fn(NameId, Seq<Val>) -> bool,
)
    requires
        plain_values(w, g),
        vars.len() <= usize::MAX,
        row.len() == vars.len(),
        reaches(w, names, body, bind(env, vars, row, row.len()), want),
    ensures
        all_hold(filter_preds(g, body, vars), row),
    decreases body,
{
    if let Plan::Filter { cond, body: inner } = body {
        lemma_filters_hold(w, g, names, env, vars, row, *inner, want);
        let rest = filter_preds(g, *inner, vars);
        if let Some(c) = cond_pred(g, cond, vars) {
            a_predicate_holds_where_its_condition_does(w, g, names, env, vars, row, cond);
            let all = seq![c] + rest;
            assert forall|i: int| 0 <= i < all.len() implies pred_holds(#[trigger] all[i], row) by {
                if i > 0 {
                    assert(all[i] == rest[i - 1]);
                }
            }
        }
    }
}

/// Predicates that hold hold in any selection.
proof fn lemma_selected(all: Seq<Pred>, left: Seq<Pred>, row: Seq<Val>)
    requires
        all_hold(all, row),
        forall|k: int| 0 <= k < left.len() ==> all.contains(#[trigger] left[k]),
    ensures
        all_hold(left, row),
{
    assert forall|k: int| 0 <= k < left.len() implies pred_holds(#[trigger] left[k], row) by {
        assert(all.contains(left[k]));
        let j = all.index_of(left[k]);
        assert(all[j] == left[k]);
    }
}

/// A row that a plan makes something of has all predicates that every read makes.
proof fn lemma_row_kept(
    w: World,
    g: Graph,
    rel: Seq<char>,
    left: Seq<Pred>,
    names: Seq<Seq<char>>,
    source: Source,
    body: Plan,
    env: Env,
    row: Seq<Val>,
    want: spec_fn(NameId, Seq<Val>) -> bool,
)
    requires
        plain_values(w, g),
        narrow(Plan::Iterate { source, body: Box::new(body) }),
        made(reads(g, Plan::Iterate { source, body: Box::new(body) }, rel), left),
        listed(w, env, source, row),
        reaches(w, names, body, bind(env, row_vars(source), row, row.len()), want),
    ensures
        listed(without_rows(w, g, rel, left), env, source, row),
{
    let v = without_rows(w, g, rel, left);
    let all = reads(g, Plan::Iterate { source, body: Box::new(body) }, rel);
    if let Some(own) = source_read(g, source, body, rel) {
        assert(all[0] == own);
        assert forall|k: int| 0 <= k < left.len() implies own.contains(#[trigger] left[k]) by {
            assert(made_by_all(all, left[k]));
            assert(all[0].contains(left[k]));
        }
        match source {
            Source::Scan { relation, vars } => {
                lemma_filters_hold(w, g, names, env, vars, row, body, want);
                lemma_selected(own, left, row);
            },
            Source::ScanDelta { .. } => {},
            Source::IndexLookup { relation, col_idx, key, vars } => {
                if let Operand::Const(c) = key {
                    assert(constant_value(g, c) is Some ==> (w.constant)(c) == constant_value(g, c)->Some_0);
                }
                lemma_selected(own, left, row);
            },
        }
    }
}

/// Operands have the same values without some rows.
proof fn lemma_same_operands(w: World, g: Graph, rel: Seq<char>, left: Seq<Pred>, env: Env, args: Seq<Operand>)
    ensures
        operand_values(without_rows(w, g, rel, left), env, args) == operand_values(w, env, args),
{
    let v = without_rows(w, g, rel, left);
    assert forall|i: int| 0 <= i < args.len() implies operand(v, env, args[i]) == operand(w, env, args[i]) by {}
    assert(operand_values(v, env, args) =~= operand_values(w, env, args));
}

/// A group gives the same without some rows.
proof fn lemma_same_group(
    w: World,
    g: Graph,
    rel: Seq<char>,
    left: Seq<Pred>,
    names: Seq<Seq<char>>,
    env: Env,
    source: NameId,
    vars: Seq<NameId>,
    keys: Seq<NameId>,
    folds: Seq<Fold>,
    r: Seq<Val>,
    n: nat,
)
    requires
        n <= folds.len(),
    ensures
        group_env(without_rows(w, g, rel, left), names, env, source, vars, keys, folds, r, n) == group_env(
            w,
            names,
            env,
            source,
            vars,
            keys,
            folds,
            r,
            n,
        ),
    decreases n,
{
    if n > 0 {
        let v = without_rows(w, g, rel, left);
        lemma_same_group(w, g, rel, left, names, env, source, vars, keys, folds, r, (n - 1) as nat);
        let f = folds[n - 1];
        let a = members(v, env, source, vars, keys, f.args, r);
        let b = members(w, env, source, vars, keys, f.args, r);
        assert forall|x: Seq<Val>| #[trigger] a.dom().contains(x) implies a[x] == b[x] by {
            lemma_same_operands(w, g, rel, left, bind(env, vars, x, x.len()), f.args);
        }
        assert(a =~= b);
    }
}

/// A condition holds alike without rows that it does not ask for.
proof fn lemma_same_test(
    w: World,
    g: Graph,
    rel: Seq<char>,
    left: Seq<Pred>,
    names: Seq<Seq<char>>,
    env: Env,
    cond: Test,
)
    requires
        match cond {
            Test::Negation { relation, .. } => made(plain_read(g, relation, rel), left),
            _ => true,
        },
    ensures
        test_holds(without_rows(w, g, rel, left), names, env, cond) == test_holds(w, names, env, cond),
{
    match cond {
        Test::Negation { relation, args } => {
            lemma_same_operands(w, g, rel, left, env, args);
            if is_relation(g, relation, rel) {
                lemma_plain_read(g, relation, rel, left);
            }
        },
        Test::Call { function, args } => {
            lemma_same_operands(w, g, rel, left, env, args);
        },
        Test::Compare { .. } => {},
    }
}

/// The reads of the first plans are among those of all.
proof fn lemma_made_first(g: Graph, ps: Seq<Plan>, n: nat, rel: Seq<char>, left: Seq<Pred>)
    requires
        0 < n <= ps.len(),
        made(all_reads(g, ps, n, rel), left),
        all_narrow(ps, n),
    ensures
        made(all_reads(g, ps, (n - 1) as nat, rel), left),
        made(reads(g, ps[n - 1], rel), left),
        all_narrow(ps, (n - 1) as nat),
        narrow(ps[n - 1]),
{
    lemma_made_parts(all_reads(g, ps, (n - 1) as nat, rel), reads(g, ps[n - 1], rel), left);
}

/// The reads of every plan are among those of all.
proof fn lemma_made_at(g: Graph, ps: Seq<Plan>, n: nat, rel: Seq<char>, left: Seq<Pred>, k: int)
    requires
        0 <= k < n <= ps.len(),
        made(all_reads(g, ps, n, rel), left),
        all_narrow(ps, n),
    ensures
        made(reads(g, ps[k], rel), left),
        narrow(ps[k]),
    decreases n,
{
    lemma_made_first(g, ps, n, rel, left);
    if k < n - 1 {
        lemma_made_at(g, ps, (n - 1) as nat, rel, left, k);
    }
}

/// Plans collect the same without rows that they have no use for.
proof fn lemma_after_unused(
    w: World,
    g: Graph,
    rel: Seq<char>,
    left: Seq<Pred>,
    names: Seq<Seq<char>>,
    ps: Seq<Plan>,
    n: nat,
    env: Env,
)
    requires
        plain_values(w, g),
        n <= ps.len(),
        made(all_reads(g, ps, n, rel), left),
        all_narrow(ps, n),
    ensures
        after_plans(without_rows(w, g, rel, left), names, ps, n, env) == without_rows(
            after_plans(w, names, ps, n, env),
            g,
            rel,
            left,
        ),
        plain_values(after_plans(w, names, ps, n, env), g),
        after_plans(w, names, ps, n, env).rows == w.rows,
    decreases ps, n,
{
    if n > 0 {
        lemma_made_first(g, ps, n, rel, left);
        lemma_after_unused(w, g, rel, left, names, ps, (n - 1) as nat, env);
        let a = after_plans(w, names, ps, (n - 1) as nat, env);
        let b = without_rows(a, g, rel, left);
        let x = after_plans(without_rows(w, g, rel, left), names, ps, n, env);
        let y = without_rows(after_plans(w, names, ps, n, env), g, rel, left);
        assert forall|r: NameId, row: Seq<Val>| #[trigger] (x.collected)(r, row) == (y.collected)(r, row) by {
            lemma_unused(a, g, rel, left, names, ps[n - 1], env, only(r, row));
        }
        assert(x.collected =~= y.collected);
        assert(x.rows =~= y.rows);
        assert(x == y);
    } else {
        let v = without_rows(w, g, rel, left);
        assert(after_plans(v, names, ps, n, env) == v);
    }
}

/// A source of which the read makes no predicate has the same rows without those.
proof fn lemma_same_listed(w: World, g: Graph, rel: Seq<char>, left: Seq<Pred>, env: Env, source: Source, r: Seq<Val>)
    requires
        made(plain_read(g, source_relation(source), rel), left),
    ensures
        listed(without_rows(w, g, rel, left), env, source, r) == listed(w, env, source, r),
{
    if is_relation(g, source_relation(source), rel) {
        lemma_plain_read(g, source_relation(source), rel, left);
    }
}

/// A plan derives the same without rows that no read of the relation has a use for.
#[verifier::rlimit(60)]
proof fn lemma_unused(
    w: World,
    g: Graph,
    rel: Seq<char>,
    left: Seq<Pred>,
    names: Seq<Seq<char>>,
    p: Plan,
    env: Env,
    want: spec_fn(NameId, Seq<Val>) -> bool,
)
    requires
        plain_values(w, g),
        narrow(p),
        made(reads(g, p, rel), left),
    ensures
        reaches(without_rows(w, g, rel, left), names, p, env, want) == reaches(w, names, p, env, want),
    decreases p, 0nat,
{
    let v = without_rows(w, g, rel, left);
    match p {
        Plan::Nop => {},
        Plan::Sequence(ps) => {
            assert forall|k: int| 0 <= k < ps.len() implies reaches(
                after_plans(v, names, ps, k as nat, env),
                names,
                #[trigger] ps[k],
                env,
                want,
            ) == reaches(after_plans(w, names, ps, k as nat, env), names, ps[k], env, want) by {
                lemma_made_upto(g, ps, ps.len(), rel, left, k as nat);
                lemma_made_at(g, ps, ps.len(), rel, left, k);
                lemma_after_unused(w, g, rel, left, names, ps, k as nat, env);
                lemma_unused(after_plans(w, names, ps, k as nat, env), g, rel, left, names, ps[k], env, want);
            }
            if reaches(w, names, p, env, want) {
                let k = choose|k: int|
                    0 <= k < ps.len() && reaches(
                        after_plans(w, names, ps, k as nat, env),
                        names,
                        #[trigger] ps[k],
                        env,
                        want,
                    );
                assert(reaches(after_plans(v, names, ps, k as nat, env), names, ps[k], env, want));
            }
        },
        Plan::Iterate { source, body } => {
            let own = match source_read(g, source, *body, rel) {
                Some(made_here) => seq![made_here],
                None => Seq::empty(),
            };
            assert(reads(g, p, rel) =~= own + reads(g, *body, rel));
            lemma_made_parts(own, reads(g, *body, rel), left);
            if reaches(w, names, p, env, want) {
                let r = choose|r: Seq<Val>| #[trigger]
                    listed(w, env, source, r) && reaches(
                        w,
                        names,
                        *body,
                        bind(env, row_vars(source), r, r.len()),
                        want,
                    );
                lemma_row_kept(w, g, rel, left, names, source, *body, env, r, want);
                lemma_unused(w, g, rel, left, names, *body, bind(env, row_vars(source), r, r.len()), want);
            }
            if reaches(v, names, p, env, want) {
                let r = choose|r: Seq<Val>| #[trigger]
                    listed(v, env, source, r) && reaches(
                        v,
                        names,
                        *body,
                        bind(env, row_vars(source), r, r.len()),
                        want,
                    );
                assert(listed(w, env, source, r));
                lemma_unused(w, g, rel, left, names, *body, bind(env, row_vars(source), r, r.len()), want);
            }
        },
        Plan::Filter { cond, body } => {
            let own = match cond {
                Test::Negation { relation, .. } => plain_read(g, relation, rel),
                _ => Seq::empty(),
            };
            assert(reads(g, p, rel) =~= own + reads(g, *body, rel));
            lemma_made_parts(own, reads(g, *body, rel), left);
            lemma_unused(w, g, rel, left, names, *body, env, want);
            lemma_same_test(w, g, rel, left, names, env, cond);
        },
        Plan::Insert { relation, args } => {
            lemma_same_operands(w, g, rel, left, env, args);
        },
        Plan::Let { var, expr, body } => {
            if let Term::Call { function, args } = expr {
                lemma_same_operands(w, g, rel, left, env, args);
            }
            lemma_unused(w, g, rel, left, names, *body, env.insert(var, term_value(w, names, env, expr)), want);
        },
        Plan::HashJoin { build_source, probe_source, join_keys, body } => {
            let a = plain_read(g, source_relation(build_source), rel);
            let b = plain_read(g, source_relation(probe_source), rel);
            lemma_made_parts(a + b, reads(g, *body, rel), left);
            lemma_made_parts(a, b, left);
            assert forall|r: Seq<Val>, q: Seq<Val>|
                #![trigger listed(w, env, build_source, r), listed(w, env, probe_source, q)]
                #![trigger listed(v, env, build_source, r), listed(v, env, probe_source, q)]
                listed(v, env, build_source, r) == listed(w, env, build_source, r) && listed(
                    v,
                    env,
                    probe_source,
                    q,
                ) == listed(w, env, probe_source, q) && reaches(
                    v,
                    names,
                    *body,
                    bind(
                        bind(env, row_vars(build_source), r, r.len()),
                        row_vars(probe_source),
                        q,
                        q.len(),
                    ),
                    want,
                ) == reaches(
                    w,
                    names,
                    *body,
                    bind(
                        bind(env, row_vars(build_source), r, r.len()),
                        row_vars(probe_source),
                        q,
                        q.len(),
                    ),
                    want,
                ) by {
                lemma_same_listed(w, g, rel, left, env, build_source, r);
                lemma_same_listed(w, g, rel, left, env, probe_source, q);
                lemma_unused(
                    w,
                    g,
                    rel,
                    left,
                    names,
                    *body,
                    bind(
                        bind(env, row_vars(build_source), r, r.len()),
                        row_vars(probe_source),
                        q,
                        q.len(),
                    ),
                    want,
                );
            }
        },
        Plan::GroupBy { source, vars, keys, aggregates, body } => {
            lemma_made_parts(plain_read(g, source, rel), reads(g, *body, rel), left);
            assert forall|r: Seq<Val>|
                #![trigger grouped(w, source, vars, r)]
                #![trigger grouped(v, source, vars, r)]
                reaches(
                    v,
                    names,
                    *body,
                    group_env(v, names, env, source, vars, keys, aggregates, r, aggregates.len()),
                    want,
                ) == reaches(
                    w,
                    names,
                    *body,
                    group_env(w, names, env, source, vars, keys, aggregates, r, aggregates.len()),
                    want,
                ) && grouped(v, source, vars, r) == grouped(w, source, vars, r) by {
                lemma_same_group(
                    w,
                    g,
                    rel,
                    left,
                    names,
                    env,
                    source,
                    vars,
                    keys,
                    aggregates,
                    r,
                    aggregates.len(),
                );
                lemma_unused(
                    w,
                    g,
                    rel,
                    left,
                    names,
                    *body,
                    group_env(w, names, env, source, vars, keys, aggregates, r, aggregates.len()),
                    want,
                );
            }
        },
    }
}

/// The reads of the first plans are among those of more.
proof fn lemma_made_upto(g: Graph, ps: Seq<Plan>, n: nat, rel: Seq<char>, left: Seq<Pred>, k: nat)
    requires
        k <= n <= ps.len(),
        made(all_reads(g, ps, n, rel), left),
        all_narrow(ps, n),
    ensures
        made(all_reads(g, ps, k, rel), left),
        all_narrow(ps, k),
    decreases n,
{
    if k < n {
        lemma_made_first(g, ps, n, rel, left);
        lemma_made_upto(g, ps, (n - 1) as nat, rel, left, k);
    }
}

/// The predicates that are left to the source of a relation are of no account to what plans
/// derive: every plan derives the same rows whether or not the source leaves out the rows of
/// which a predicate does not hold. So no row for which a plan derives anything is left out.
pub proof fn pushed_predicates_change_nothing(
    w: World,
    g: Graph,
    rel: Seq<char>,
    ps: Seq<Plan>,
    k: int,
    names: Seq<Seq<char>>,
    env: Env,
    want: spec_fn(NameId, Seq<Val>) -> bool,
)
    requires
        plain_values(w, g),
        all_narrow(ps, ps.len()),
        0 <= k < ps.len(),
    ensures
        reaches(without_rows(w, g, rel, pushed(g, ps, rel)), names, ps[k], env, want) <==> reaches(
            w,
            names,
            ps[k],
            env,
            want,
        ),
{
    let all = all_reads(g, ps, ps.len(), rel);
    let left = pushed(g, ps, rel);
    let keep = |p: Pred| made_by_all(all, p);
    assert forall|i: int| 0 <= i < left.len() implies made_by_all(all, #[trigger] left[i]) by {
        all[0].lemma_filter_pred(keep, i);
        assert(keep(left[i]));
    }
    lemma_made_at(g, ps, ps.len(), rel, left, k);
    lemma_unused(w, g, rel, left, names, ps[k], env, want);
}

/// A condition right below the only read of a relation that can be turned into a predicate is
/// left to the source: no row is kept of which the condition does not hold.
pub proof fn the_filter_of_a_single_read_is_pushed(
    w: World,
    g: Graph,
    names: Seq<Seq<char>>,
    env: Env,
    relation: NameId,
    vars: Seq<NameId>,
    cond: Test,
    body: Plan,
    row: Seq<Val>,
)
    requires
        plain_values(w, g),
        g.has_name(relation),
        vars.len() <= usize::MAX,
        row.len() == vars.len(),
        cond_pred(g, cond, vars) is Some,
        reads(g, body, g.name(relation)).len() == 0,
        all_hold(
            pushed(
                g,
                seq![
                    Plan::Iterate {
                        source: Source::Scan { relation, vars },
                        body: Box::new(Plan::Filter { cond, body: Box::new(body) }),
                    },
                ],
                g.name(relation),
            ),
            row,
        ),
    ensures
        test_holds(w, names, bind(env, vars, row, row.len()), cond),
{
    let rel = g.name(relation);
    let below = Plan::Filter { cond, body: Box::new(body) };
    let p = Plan::Iterate { source: Source::Scan { relation, vars }, body: Box::new(below) };
    let ps = seq![p];
    let made_here = filter_preds(g, below, vars);
    let c = cond_pred(g, cond, vars)->Some_0;
    assert(made_here[0] == c);
    assert(reads(g, below, rel) =~= Seq::<Seq<Pred>>::empty());
    assert(reads(g, p, rel) =~= seq![made_here]);
    assert(all_reads(g, ps, 0, rel) =~= Seq::<Seq<Pred>>::empty());
    let all = all_reads(g, ps, 1, rel);
    assert(all =~= seq![made_here]);
    assert(made_here.contains(c));
    let keep = |p: Pred| made_by_all(all, p);
    assert(keep(c));
    made_here.lemma_filter_contains(keep, 0);
    let left = pushed(g, ps, rel);
    let j = left.index_of(c);
    assert(left[j] == c);
    assert(pred_holds(c, row));
    a_predicate_holds_where_its_condition_does(w, g, names, env, vars, row, cond);
}

} // verus!
