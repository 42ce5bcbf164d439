//! The code that is generated for the imports of the host asks for texts that are in the
//! tables of the module.
use vstd::prelude::*;

use crate::codegen::{
    all_collected, columns_code, compare_import, cond_code, constant_code, expr_code, fold_code,
    local_of, operand_code, operands_code, plan_code, plans_code, repeated, run_code, scan_code,
    schedule_code, shape_of, source_vars, start_code, table_index,
};
use crate::codegen::{Backend, Shape, WasmImportsBackend, IMP_CONST_NAME, IMP_CONST_STRING};
use crate::ir::{Graph, NameId};
use crate::physical::{
    all_known, known, lemma_all_known, operand_known, operands_known, source_known, term_known,
    test_known, Plan, Source, Term, Test,
};
use crate::physical::{Constant, Operand};
use crate::schedule::{loops_fit, Scheduled};
use crate::wasm::Instr;

verus! {

/// The tables of a graph are no longer than the host can count.
pub open spec fn tables_fit(g: Graph) -> bool {
    g.strings.len() <= i32::MAX && g.names.len() <= i32::MAX
}

/// Whether the instruction before the `k`-th leaves a place in a table of that length; places
/// are counted from one.
pub open spec fn place_before(code: Seq<Instr>, k: int, len: nat) -> bool {
    k > 0 && (code[k - 1] matches Instr::I32Const(c) && 1 <= c <= len)
}

/// If the `k`-th instruction asks for a string or a name, it does so by a place in the table of
/// strings or of names.
pub open spec fn asks_listed(g: Graph, code: Seq<Instr>, k: int) -> bool {
    &&& code[k] == Instr::Call(IMP_CONST_STRING) ==> place_before(code, k, g.strings.len())
    &&& code[k] == Instr::Call(IMP_CONST_NAME) ==> place_before(code, k, g.names.len())
}

/// Every string and every name that the code asks for is in its table.
pub open spec fn all_listed(g: Graph, code: Seq<Instr>) -> bool {
    forall|k: int| 0 <= k < code.len() ==> #[trigger] asks_listed(g, code, k)
}

/// Code one after the other.
proof fn lemma_both(g: Graph, x: Seq<Instr>, y: Seq<Instr>)
    requires
        all_listed(g, x),
        all_listed(g, y),
    ensures
        all_listed(g, x + y),
{
    let code = x + y;
    assert forall|k: int| 0 <= k < code.len() implies #[trigger] asks_listed(g, code, k) by {
        if k < x.len() {
            assert(asks_listed(g, x, k));
        } else {
            assert(asks_listed(g, y, k - x.len()));
        }
    }
}

/// An instruction that asks for no text.
spec fn asks_nothing(i: Instr) -> bool {
    i != Instr::Call(IMP_CONST_STRING) && i != Instr::Call(IMP_CONST_NAME)
}

/// Code that asks for no text.
proof fn lemma_nothing(g: Graph, code: Seq<Instr>)
    requires
        forall|k: int| 0 <= k < code.len() ==> asks_nothing(#[trigger] code[k]),
    ensures
        all_listed(g, code),
{
    assert forall|k: int| 0 <= k < code.len() implies #[trigger] asks_listed(g, code, k) by {
        assert(asks_nothing(code[k]));
    }
}

/// The place of a constant with a text holds that text.
pub proof fn a_constant_names_its_text(g: Graph, c: Constant)
    requires
        operand_known(Operand::Const(c), g),
        tables_fit(g),
    ensures
        c matches Constant::String(s) ==> constant_code(c)[0] == Instr::I32Const(table_index(s.0)) && 1
            <= table_index(s.0) <= g.strings.len() && g.strings[table_index(s.0) - 1]
            == g.strings[s.0 as int],
        c matches Constant::Name(n) ==> constant_code(c)[0] == Instr::I32Const(table_index(n.0)) && 1
            <= table_index(n.0) <= g.names.len() && g.names[table_index(n.0) - 1] == g.name(n),
{
}

proof fn lemma_operand(g: Graph, order: Seq<NameId>, o: Operand)
    requires
        operand_known(o, g),
        tables_fit(g),
    ensures
        all_listed(g, operand_code(order, o)),
{
    let code = operand_code(order, o);
    match o {
        Operand::Const(c) => {
            a_constant_names_its_text(g, c);
            assert forall|k: int| 0 <= k < code.len() implies #[trigger] asks_listed(g, code, k) by {
                assert(code.len() == 2);
                assert(k == 0 || k == 1);
            }
        },
        Operand::Var(v) => {
            assert forall|k: int| 0 <= k < code.len() implies asks_nothing(#[trigger] code[k]) by {
                assert(code.len() == 1);
            }
            lemma_nothing(g, code);
        },
    }
}

proof fn lemma_operands(g: Graph, order: Seq<NameId>, ops: Seq<Operand>, n: nat, after: Seq<Instr>)
    requires
        operands_known(ops, g),
        n <= ops.len(),
        tables_fit(g),
        all_listed(g, after),
    ensures
        all_listed(g, operands_code(order, ops, n, after)),
    decreases n,
{
    if n > 0 {
        let before = operands_code(order, ops, (n - 1) as nat, after);
        lemma_operands(g, order, ops, (n - 1) as nat, after);
        lemma_operand(g, order, ops[n - 1]);
        lemma_both(g, before, operand_code(order, ops[n - 1]));
        lemma_both(g, before + operand_code(order, ops[n - 1]), after);
    }
}

/// One instruction that asks for no text.
proof fn lemma_one(g: Graph, i: Instr)
    requires
        asks_nothing(i),
    ensures
        all_listed(g, seq![i]),
{
    lemma_nothing(g, seq![i]);
}

proof fn lemma_fold(g: Graph, order: Seq<NameId>, ops: Seq<Operand>, n: nat, f: u32)
    requires
        operands_known(ops, g),
        n <= ops.len(),
        tables_fit(g),
        asks_nothing(Instr::Call(f)),
    ensures
        all_listed(g, fold_code(order, ops, n, f)),
    decreases n,
{
    if n == 0 {
        lemma_one(g, Instr::RefNull);
    } else if n == 1 {
        lemma_operand(g, order, ops[0]);
    } else {
        let before = fold_code(order, ops, (n - 1) as nat, f);
        lemma_fold(g, order, ops, (n - 1) as nat, f);
        lemma_operand(g, order, ops[n - 1]);
        lemma_both(g, before, operand_code(order, ops[n - 1]));
        lemma_one(g, Instr::Call(f));
        lemma_both(g, before + operand_code(order, ops[n - 1]), seq![Instr::Call(f)]);
    }
}

/// No function of the host that computes is one that gives a text.
proof fn lemma_shape(name: Seq<char>)
    ensures
        match shape_of(name) {
            Shape::Fold(f) => asks_nothing(Instr::Call(f)),
            Shape::Unary(f) => asks_nothing(Instr::Call(f)),
            Shape::Exactly(_, f) => asks_nothing(Instr::Call(f)),
            _ => true,
        },
{
}

#[verifier::rlimit(30)]
proof fn lemma_expr(g: Graph, order: Seq<NameId>, t: Term)
    requires
        term_known(t, g),
        tables_fit(g),
    ensures
        all_listed(g, expr_code(g, order, t)),
{
    match t {
        Term::Value(o) => lemma_operand(g, order, o),
        Term::Call { function, args } => {
            let code = expr_code(g, order, t);
            let none = Seq::<Instr>::empty();
            lemma_nothing(g, none);
            lemma_one(g, Instr::RefNull);
            lemma_shape(g.name(function));
            match shape_of(g.name(function)) {
                Shape::Fold(f) => lemma_fold(g, order, args, args.len(), f),
                Shape::Unary(f) => {
                    if args.len() > 0 {
                        lemma_operand(g, order, args[0]);
                        lemma_one(g, Instr::Call(f));
                        lemma_both(g, operand_code(order, args[0]), seq![Instr::Call(f)]);
                        assert(code =~= operand_code(order, args[0]) + seq![Instr::Call(f)]);
                    }
                },
                Shape::Exactly(n, f) => {
                    if args.len() == n {
                        let all = operands_code(order, args, args.len(), none);
                        lemma_operands(g, order, args, args.len(), none);
                        lemma_one(g, Instr::Call(f));
                        lemma_both(g, all, seq![Instr::Call(f)]);
                        assert(code =~= all + seq![Instr::Call(f)]);
                    }
                },
                Shape::Compound(kind) => {
                    let begin = seq![
                        Instr::I32Const(kind),
                        Instr::Call(crate::codegen::IMP_COMPOUND_BEGIN),
                    ];
                    let push = seq![Instr::Call(crate::codegen::IMP_COMPOUND_PUSH)];
                    let end = seq![Instr::Call(crate::codegen::IMP_COMPOUND_END)];
                    lemma_nothing(g, begin);
                    lemma_nothing(g, push);
                    lemma_nothing(g, end);
                    let all = operands_code(order, args, args.len(), push);
                    lemma_operands(g, order, args, args.len(), push);
                    lemma_both(g, begin, all);
                    lemma_both(g, begin + all, end);
                },
                Shape::Unknown => {
                    let all = operands_code(order, args, args.len(), none);
                    lemma_operands(g, order, args, args.len(), none);
                    let drops = repeated(Instr::Drop, args.len());
                    lemma_nothing(g, drops);
                    lemma_both(g, all, drops);
                    lemma_both(g, all + drops, seq![Instr::RefNull]);
                },
            }
        },
    }
}

proof fn lemma_cond(g: Graph, order: Seq<NameId>, c: Test)
    requires
        test_known(c, g),
        tables_fit(g),
    ensures
        all_listed(g, cond_code(order, c)),
{
    match c {
        Test::Compare { op, left, right } => {
            let x = operand_code(order, left);
            let y = operand_code(order, right);
            lemma_operand(g, order, left);
            lemma_operand(g, order, right);
            lemma_both(g, x, y);
            lemma_one(g, Instr::Call(compare_import(op)));
            lemma_both(g, x + y, seq![Instr::Call(compare_import(op))]);
        },
        _ => lemma_one(g, Instr::I32Const(1)),
    }
}

proof fn lemma_columns(g: Graph, b: WasmImportsBackend, order: Seq<NameId>, vars: Seq<NameId>, n: nat)
    ensures
        all_listed(g, columns_code(b, order, vars, n)),
    decreases n,
{
    if n > 0 {
        let before = columns_code(b, order, vars, (n - 1) as nat);
        lemma_columns(g, b, order, vars, (n - 1) as nat);
        if let Some(local) = local_of(order, vars[n - 1]) {
            let col = b.get_col(1, (n - 1) as u32);
            lemma_nothing(g, col);
            lemma_both(g, before, col);
            lemma_one(g, Instr::LocalSet(local));
            lemma_both(g, before + col, seq![Instr::LocalSet(local)]);
        }
    }
}

proof fn lemma_scan(g: Graph, b: WasmImportsBackend, order: Seq<NameId>, s: Source, iter_local: u32)
    requires
        source_known(s, g),
        tables_fit(g),
    ensures
        all_listed(g, scan_code(b, g, order, s, iter_local)),
{
    let start = start_code(b, g, order, s);
    assert(all_listed(g, start)) by {
        match s {
            Source::Scan { relation, .. } => lemma_nothing(g, start),
            Source::ScanDelta { relation, .. } => lemma_nothing(g, start),
            Source::IndexLookup { relation, col_idx, key, .. } => {
                let lookup = b.scan_index_start(g.name(relation), col_idx as u32);
                lemma_nothing(g, lookup);
                lemma_operand(g, order, key);
                lemma_both(g, operand_code(order, key), lookup);
            },
        }
    }
    let open = seq![Instr::LocalSet(iter_local), Instr::Block, Instr::Loop];
    let next = b.scan_next(iter_local);
    let leave = seq![Instr::LocalTee(1), Instr::I32Eqz, Instr::BrIf(1)];
    let columns = columns_code(b, order, source_vars(s), source_vars(s).len());
    lemma_nothing(g, open);
    lemma_nothing(g, next);
    lemma_nothing(g, leave);
    lemma_columns(g, b, order, source_vars(s), source_vars(s).len());
    lemma_both(g, start, open);
    lemma_both(g, start + open, next);
    lemma_both(g, start + open + next, leave);
    lemma_both(g, start + open + next + leave, columns);
}

proof fn lemma_plan(g: Graph, b: WasmImportsBackend, order: Seq<NameId>, offset: u32, p: Plan)
    requires
        known(p, g),
        tables_fit(g),
    ensures
        all_listed(g, plan_code(b, g, order, offset, p).0),
    decreases p, 0nat,
{
    let code = plan_code(b, g, order, offset, p).0;
    match p {
        Plan::Iterate { source, body } => {
            let iter_local = crate::codegen::local_at(order.len() as int).wrapping_add(offset);
            let inner = plan_code(b, g, order, offset.wrapping_add(1), *body).0;
            let scan = scan_code(b, g, order, source, iter_local);
            let end = seq![Instr::Br(0), Instr::End, Instr::End];
            lemma_scan(g, b, order, source, iter_local);
            lemma_plan(g, b, order, offset.wrapping_add(1), *body);
            lemma_nothing(g, end);
            lemma_both(g, scan, inner);
            lemma_both(g, scan + inner, end);
        },
        Plan::Filter { cond, body } => {
            let inner = plan_code(b, g, order, offset, *body).0;
            let test = cond_code(order, cond);
            lemma_cond(g, order, cond);
            lemma_plan(g, b, order, offset, *body);
            lemma_one(g, Instr::If);
            lemma_one(g, Instr::End);
            lemma_both(g, test, seq![Instr::If]);
            lemma_both(g, test + seq![Instr::If], inner);
            lemma_both(g, test + seq![Instr::If] + inner, seq![Instr::End]);
        },
        Plan::Let { var, expr, body } => {
            let inner = plan_code(b, g, order, offset, *body).0;
            let kept = match local_of(order, var) {
                Some(local) => Instr::LocalSet(local),
                None => Instr::Drop,
            };
            let value = expr_code(g, order, expr);
            lemma_expr(g, order, expr);
            lemma_plan(g, b, order, offset, *body);
            lemma_one(g, kept);
            lemma_both(g, value, seq![kept]);
            lemma_both(g, value + seq![kept], inner);
        },
        Plan::Insert { relation, args } => {
            let begin = b.insert_begin(g.name(relation));
            let end = b.insert_end();
            let values = operands_code(order, args, args.len(), b.insert_push());
            lemma_nothing(g, begin);
            lemma_nothing(g, b.insert_push());
            lemma_nothing(g, end);
            lemma_operands(g, order, args, args.len(), b.insert_push());
            lemma_both(g, begin, values);
            lemma_both(g, begin + values, end);
        },
        Plan::Sequence(ps) => {
            assert forall|i: int| 0 <= i < ps.len() implies known(#[trigger] ps[i], g) by {
                lemma_all_known(ps, ps.len(), g, i);
            }
            lemma_plans(g, b, order, offset, ps, ps.len());
        },
        _ => lemma_nothing(g, code),
    }
}

proof fn lemma_plans(g: Graph, b: WasmImportsBackend, order: Seq<NameId>, offset: u32, ps: Seq<Plan>, n: nat)
    requires
        forall|i: int| 0 <= i < ps.len() ==> known(#[trigger] ps[i], g),
        tables_fit(g),
    ensures
        all_listed(g, plans_code(b, g, order, offset, ps, n).0),
    decreases ps, n,
{
    if n == 0 || n > ps.len() {
        lemma_nothing(g, plans_code(b, g, order, offset, ps, n).0);
    } else {
        let (before, o) = plans_code(b, g, order, offset, ps, (n - 1) as nat);
        lemma_plans(g, b, order, offset, ps, (n - 1) as nat);
        lemma_plan(g, b, order, o, ps[n - 1]);
        lemma_both(g, before, plan_code(b, g, order, o, ps[n - 1]).0);
    }
}

proof fn lemma_schedule(b: WasmImportsBackend, sc: Scheduled, order: Seq<NameId>, offset: u32, i: nat, k: nat)
    requires
        loops_fit(sc.loops, sc.plans.len()),
        forall|j: int| 0 <= j < sc.plans.len() ==> known(#[trigger] sc.plans[j], sc.g),
        tables_fit(sc.g),
    ensures
        all_listed(sc.g, schedule_code(b, sc, order, offset, i, k)),
    decreases sc.plans.len() - i, sc.loops.len() - k,
{
    let g = sc.g;
    if i >= sc.plans.len() {
        lemma_nothing(g, schedule_code(b, sc, order, offset, i, k));
    } else if k < sc.loops.len() && sc.loops[k as int].0 == i {
        let end = sc.loops[k as int].1;
        let part = sc.plans.subrange(i as int, end as int);
        let (body, next) = plans_code(b, g, order, offset, part, part.len());
        lemma_plans(g, b, order, offset, part, part.len());
        lemma_schedule(b, sc, order, next, end, k + 1);
        let merge = b.merge_deltas();
        let open = seq![Instr::Drop, Instr::Loop];
        let close = seq![Instr::BrIf(0), Instr::End];
        let rest = schedule_code(b, sc, order, next, end, k + 1);
        lemma_nothing(g, merge);
        lemma_nothing(g, open);
        lemma_nothing(g, close);
        lemma_both(g, merge, open);
        lemma_both(g, merge + open, body);
        lemma_both(g, merge + open + body, merge);
        lemma_both(g, merge + open + body + merge, close);
        lemma_both(g, merge + open + body + merge + close, rest);
    } else {
        let (one, next) = plan_code(b, g, order, offset, sc.plans[i as int]);
        lemma_plan(g, b, order, offset, sc.plans[i as int]);
        lemma_schedule(b, sc, order, next, i + 1, k);
        lemma_both(g, one, schedule_code(b, sc, order, next, i + 1, k));
    }
}

/// Every string and every name that the function that runs plans asks for is in the module's
/// table of strings or of names, the names that planning made among them.
pub proof fn emitted_ids_lie_in_their_tables(b: WasmImportsBackend, sc: Scheduled)
    requires
        loops_fit(sc.loops, sc.plans.len()),
        all_known(sc.plans, sc.plans.len(), sc.g),
        tables_fit(sc.g),
    ensures
        all_listed(sc.g, run_code(b, sc)),
{
    let order = all_collected(Seq::empty(), sc.plans, sc.plans.len());
    assert forall|j: int| 0 <= j < sc.plans.len() implies known(#[trigger] sc.plans[j], sc.g) by {
        lemma_all_known(sc.plans, sc.plans.len(), sc.g, j);
    }
    lemma_schedule(b, sc, order, 0, 0, 0);
    lemma_one(sc.g, Instr::End);
    lemma_both(sc.g, schedule_code(b, sc, order, 0, 0, 0), seq![Instr::End]);
}

} // verus!
