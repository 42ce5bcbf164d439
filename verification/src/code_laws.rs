//! The code that is generated for the imports of the host is valid: values have the types
//! that instructions take, and blocks are nested.
use vstd::prelude::*;

use crate::codegen::{
    all_collected, all_scans, columns_code, compare_import, cond_code, constant_code, expr_code,
    fold_code, host_functions, local_at, local_of, module_types, operand_code, operands_code,
    plan_code, plans_code, repeated, run_code, run_locals, runs, scan_code, scans, schedule_code,
    shape_of, source_vars, start_code,
};
use crate::codegen::{
    Backend, Shape, WasmImportsBackend, IMP_COMPOUND_BEGIN, IMP_COMPOUND_END, IMP_COMPOUND_PUSH,
    IMP_CONST_DURATION, IMP_CONST_FLOAT, IMP_CONST_NAME, IMP_CONST_NUMBER, IMP_CONST_STRING,
    IMP_CONST_TIME, IMP_GET_COL, IMP_INSERT_BEGIN, IMP_INSERT_END, IMP_INSERT_PUSH, IMP_MERGE_DELTAS,
    IMP_SCAN_DELTA_START, IMP_SCAN_INDEX_START, IMP_SCAN_NEXT, IMP_SCAN_START,
};
use crate::ir::{Graph, NameId};
use crate::physical::{CompareOp, Constant, Operand};
use crate::physical::{Plan, Source, Term, Test};
use crate::schedule::{loops_fit, Scheduled};
use crate::wasm::{Instr, Signature, WasmType};

verus! {

/// The types of the values on the stack since the innermost open block was entered, and the
/// number of open blocks, the function's own among them.
pub type Checked = (Seq<WasmType>, nat);

/// The types of the locals that runs declare.
pub open spec fn local_types(rs: Seq<(u32, WasmType)>) -> Seq<WasmType>
    decreases rs.len(),
{
    if rs.len() == 0 {
        Seq::empty()
    } else {
        local_types(rs.drop_last()) + Seq::new(rs.last().0 as nat, |i: int| rs.last().1)
    }
}

/// The signature of an imported function.
pub open spec fn signature(i: u32) -> Option<Signature> {
    if i < host_functions().len() {
        Some(module_types()[host_functions()[i as int].ty as int])
    } else {
        None
    }
}

/// The stack with `params` taken off and `results` put on.
pub open spec fn applied(stack: Seq<WasmType>, params: Seq<WasmType>, results: Seq<WasmType>) -> Option<Seq<WasmType>> {
    if params.is_suffix_of(stack) {
        Some(stack.take(stack.len() - params.len()) + results)
    } else {
        None
    }
}

/// What an instruction makes of the stack and the open blocks; nothing if it is not valid
/// there. A block is entered and left with an empty stack.
pub open spec fn stepped(locals: Seq<WasmType>, at: Option<Checked>, i: Instr) -> Option<Checked> {
    match at {
        None => None,
        Some((stack, depth)) => {
            let next = match i {
                Instr::LocalGet(l) => if l < locals.len() {
                    applied(stack, Seq::empty(), seq![locals[l as int]])
                } else {
                    None
                },
                Instr::LocalSet(l) => if l < locals.len() {
                    applied(stack, seq![locals[l as int]], Seq::empty())
                } else {
                    None
                },
                Instr::LocalTee(l) => if l < locals.len() {
                    applied(stack, seq![locals[l as int]], seq![locals[l as int]])
                } else {
                    None
                },
                Instr::I32Const(_) => applied(stack, Seq::empty(), seq![WasmType::I32]),
                Instr::I64Const(_) => applied(stack, Seq::empty(), seq![WasmType::I64]),
                Instr::RefNull => applied(stack, Seq::empty(), seq![WasmType::ExternRef]),
                Instr::I32Eqz => applied(stack, seq![WasmType::I32], seq![WasmType::I32]),
                Instr::Call(f) => match signature(f) {
                    Some((params, results)) => applied(stack, params, results),
                    None => None,
                },
                Instr::Drop => if stack.len() > 0 {
                    Some(stack.drop_last())
                } else {
                    None
                },
                Instr::Block | Instr::Loop | Instr::End => if stack.len() == 0 {
                    Some(stack)
                } else {
                    None
                },
                Instr::Br(n) => if n < depth && stack.len() == 0 {
                    Some(stack)
                } else {
                    None
                },
                Instr::If => if stack == seq![WasmType::I32] {
                    Some(Seq::empty())
                } else {
                    None
                },
                Instr::BrIf(n) => if n < depth && stack == seq![WasmType::I32] {
                    Some(Seq::empty())
                } else {
                    None
                },
            };
            match next {
                None => None,
                Some(s) => match i {
                    Instr::Block | Instr::Loop | Instr::If => Some((s, depth + 1)),
                    Instr::End => if depth > 0 {
                        Some((s, (depth - 1) as nat))
                    } else {
                        None
                    },
                    _ => Some((s, depth)),
                },
            }
        },
    }
}

/// What code makes of the stack and the open blocks.
pub open spec fn checked(locals: Seq<WasmType>, at: Option<Checked>, code: Seq<Instr>) -> Option<Checked>
    decreases code.len(),
{
    if code.len() == 0 {
        at
    } else {
        stepped(locals, checked(locals, at, code.drop_last()), code.last())
    }
}

/// The body of a function without results is valid: it closes its own block and no other.
pub open spec fn body_is_valid(locals: Seq<WasmType>, code: Seq<Instr>) -> bool {
    checked(locals, Some((Seq::empty(), 1)), code) == Some((Seq::<WasmType>::empty(), 0nat))
}

/// Code is checked part by part.
proof fn lemma_concat(locals: Seq<WasmType>, at: Option<Checked>, x: Seq<Instr>, y: Seq<Instr>)
    ensures
        checked(locals, at, x + y) == checked(locals, checked(locals, at, x), y),
    decreases y.len(),
{
    if y.len() == 0 {
        assert(x + y =~= x);
    } else {
        assert((x + y).drop_last() =~= x + y.drop_last());
        lemma_concat(locals, at, x, y.drop_last());
    }
}

/// A single instruction.
proof fn lemma_single(locals: Seq<WasmType>, at: Option<Checked>, i: Instr)
    ensures
        checked(locals, at, seq![i]) == stepped(locals, at, i),
{
    assert(seq![i].drop_last() =~= Seq::<Instr>::empty());
    assert(checked(locals, at, seq![i].drop_last()) == at);
}

/// The code takes `params` off the stack and puts `results` on it, whatever lies below and
/// however many blocks are open.
pub open spec fn turns(
    locals: Seq<WasmType>,
    code: Seq<Instr>,
    params: Seq<WasmType>,
    results: Seq<WasmType>,
) -> bool {
    forall|s: Seq<WasmType>, d: nat| #[trigger]
        checked(locals, Some((s + params, d)), code) == Some((s + results, d))
}

/// No code does nothing.
proof fn lemma_nothing(locals: Seq<WasmType>, params: Seq<WasmType>)
    ensures
        turns(locals, Seq::empty(), params, params),
{
}

/// Code one after the other.
proof fn lemma_turns(
    locals: Seq<WasmType>,
    x: Seq<Instr>,
    y: Seq<Instr>,
    a: Seq<WasmType>,
    b: Seq<WasmType>,
    c: Seq<WasmType>,
)
    requires
        turns(locals, x, a, b),
        turns(locals, y, b, c),
    ensures
        turns(locals, x + y, a, c),
{
    assert forall|s: Seq<WasmType>, d: nat| #[trigger]
        checked(locals, Some((s + a, d)), x + y) == Some((s + c, d)) by {
        lemma_concat(locals, Some((s + a, d)), x, y);
        assert(checked(locals, Some((s + a, d)), x) == Some((s + b, d)));
        assert(checked(locals, Some((s + b, d)), y) == Some((s + c, d)));
    }
}

/// What lies below stays.
proof fn lemma_below(
    locals: Seq<WasmType>,
    code: Seq<Instr>,
    below: Seq<WasmType>,
    a: Seq<WasmType>,
    b: Seq<WasmType>,
)
    requires
        turns(locals, code, a, b),
    ensures
        turns(locals, code, below + a, below + b),
{
    assert forall|s: Seq<WasmType>, d: nat| #[trigger]
        checked(locals, Some((s + (below + a), d)), code) == Some((s + (below + b), d)) by {
        assert(s + (below + a) =~= (s + below) + a);
        assert(s + (below + b) =~= (s + below) + b);
        assert(checked(locals, Some(((s + below) + a, d)), code) == Some(((s + below) + b, d)));
    }
}

/// A function is applied to what lies on top.
proof fn lemma_applied(s: Seq<WasmType>, params: Seq<WasmType>, results: Seq<WasmType>)
    ensures
        applied(s + params, params, results) == Some(s + results),
{
    let stack = s + params;
    assert(stack.skip(stack.len() - params.len()) =~= params);
    assert(params.is_suffix_of(stack));
    assert(stack.take(stack.len() - params.len()) =~= s);
}

/// A plain instruction.
proof fn lemma_plain(
    locals: Seq<WasmType>,
    i: Instr,
    params: Seq<WasmType>,
    results: Seq<WasmType>,
)
    requires
        match i {
            Instr::LocalGet(l) => l < locals.len() && params.len() == 0 && results == seq![
                locals[l as int],
            ],
            Instr::LocalSet(l) => l < locals.len() && params == seq![locals[l as int]] && results.len()
                == 0,
            Instr::LocalTee(l) => l < locals.len() && params == seq![locals[l as int]] && results
                == params,
            Instr::I32Const(_) => params.len() == 0 && results == seq![WasmType::I32],
            Instr::I64Const(_) => params.len() == 0 && results == seq![WasmType::I64],
            Instr::RefNull => params.len() == 0 && results == seq![WasmType::ExternRef],
            Instr::I32Eqz => params == seq![WasmType::I32] && results == params,
            Instr::Call(f) => signature(f) == Some((params, results)),
            Instr::Drop => params.len() == 1 && results.len() == 0,
            _ => false,
        },
    ensures
        turns(locals, seq![i], params, results),
{
    assert forall|s: Seq<WasmType>, d: nat| #[trigger]
        checked(locals, Some((s + params, d)), seq![i]) == Some((s + results, d)) by {
        lemma_single(locals, Some((s + params, d)), i);
        lemma_applied(s, params, results);
        if params.len() == 0 {
            assert(params =~= Seq::<WasmType>::empty());
        }
        if results.len() == 0 {
            assert(results =~= Seq::<WasmType>::empty());
        }
        if i is Drop {
            assert((s + params).drop_last() =~= s + results);
        }
    }
}

/// The signatures of the host's functions.
proof fn lemma_signatures()
    ensures
        signature(IMP_SCAN_START) == Some((seq![WasmType::I32], seq![WasmType::I32])),
        signature(IMP_SCAN_DELTA_START) == Some((seq![WasmType::I32], seq![WasmType::I32])),
        signature(IMP_SCAN_NEXT) == Some((seq![WasmType::I32], seq![WasmType::I32])),
        signature(IMP_GET_COL) == Some(
            (seq![WasmType::I32, WasmType::I32], seq![WasmType::ExternRef]),
        ),
        signature(IMP_INSERT_BEGIN) == Some((seq![WasmType::I32], Seq::<WasmType>::empty())),
        signature(IMP_INSERT_PUSH) == Some((seq![WasmType::ExternRef], Seq::<WasmType>::empty())),
        signature(IMP_INSERT_END) == Some((Seq::<WasmType>::empty(), Seq::<WasmType>::empty())),
        signature(IMP_MERGE_DELTAS) == Some((Seq::<WasmType>::empty(), seq![WasmType::I32])),
        signature(IMP_SCAN_INDEX_START) == Some(
            (seq![WasmType::I32, WasmType::I32, WasmType::ExternRef], seq![WasmType::I32]),
        ),
        signature(IMP_CONST_NUMBER) == Some((seq![WasmType::I64], seq![WasmType::ExternRef])),
        signature(IMP_CONST_FLOAT) == Some((seq![WasmType::I64], seq![WasmType::ExternRef])),
        signature(IMP_CONST_STRING) == Some((seq![WasmType::I32], seq![WasmType::ExternRef])),
        signature(IMP_CONST_NAME) == Some((seq![WasmType::I32], seq![WasmType::ExternRef])),
        signature(IMP_CONST_TIME) == Some((seq![WasmType::I64], seq![WasmType::ExternRef])),
        signature(IMP_CONST_DURATION) == Some((seq![WasmType::I64], seq![WasmType::ExternRef])),
        signature(IMP_COMPOUND_BEGIN) == Some((seq![WasmType::I32], Seq::<WasmType>::empty())),
        signature(IMP_COMPOUND_PUSH) == Some((seq![WasmType::ExternRef], Seq::<WasmType>::empty())),
        signature(IMP_COMPOUND_END) == Some((Seq::<WasmType>::empty(), seq![WasmType::ExternRef])),
{
}

/// The signatures of comparisons.
proof fn lemma_compare_signature(op: CompareOp)
    ensures
        signature(compare_import(op)) == Some(
            (seq![WasmType::ExternRef, WasmType::ExternRef], seq![WasmType::I32]),
        ),
{
}

/// `n` external values.
spec fn values(n: nat) -> Seq<WasmType> {
    Seq::new(n, |i: int| WasmType::ExternRef)
}

/// The signatures of the functions that expressions call.
proof fn lemma_shape_signature(name: Seq<char>)
    ensures
        match shape_of(name) {
            Shape::Fold(i) => signature(i) == Some((values(2), values(1))),
            Shape::Unary(i) => signature(i) == Some((values(1), values(1))),
            Shape::Exactly(n, i) => signature(i) == Some((values(n as nat), values(1))),
            _ => true,
        },
{
    assert(values(1) =~= seq![WasmType::ExternRef]);
    assert(values(2) =~= seq![WasmType::ExternRef, WasmType::ExternRef]);
    assert(values(4) =~= seq![
        WasmType::ExternRef,
        WasmType::ExternRef,
        WasmType::ExternRef,
        WasmType::ExternRef,
    ]);
}

/// The locals of a function that runs plans: a value, a row, the variables, and the scans.
spec fn laid_out(locals: Seq<WasmType>, order: Seq<NameId>, total: nat) -> bool {
    &&& locals.len() == 2 + order.len() + total
    &&& locals.len() <= u32::MAX
    &&& locals[0] == WasmType::ExternRef
    &&& locals[1] == WasmType::I32
    &&& forall|i: int| 2 <= i < 2 + order.len() ==> #[trigger] locals[i] == WasmType::ExternRef
    &&& forall|i: int| 2 + order.len() <= i < locals.len() ==> #[trigger] locals[i] == WasmType::I32
}

/// The local of a variable holds a value.
proof fn lemma_local(locals: Seq<WasmType>, order: Seq<NameId>, total: nat, v: NameId)
    requires
        laid_out(locals, order, total),
    ensures
        local_of(order, v) matches Some(l) ==> l < locals.len() && locals[l as int]
            == WasmType::ExternRef,
{
    if order.contains(v) {
        let i = order.index_of(v);
        assert(0 <= i < order.len());
        assert(local_at(i) == i + 2);
    }
}

/// Two instructions.
proof fn lemma_two(
    locals: Seq<WasmType>,
    i: Instr,
    j: Instr,
    a: Seq<WasmType>,
    b: Seq<WasmType>,
    c: Seq<WasmType>,
)
    requires
        turns(locals, seq![i], a, b),
        turns(locals, seq![j], b, c),
    ensures
        turns(locals, seq![i, j], a, c),
{
    lemma_turns(locals, seq![i], seq![j], a, b, c);
    assert(seq![i] + seq![j] =~= seq![i, j]);
}

/// A constant leaves its value.
proof fn lemma_constant(locals: Seq<WasmType>, c: Constant)
    ensures
        turns(locals, constant_code(c), Seq::empty(), seq![WasmType::ExternRef]),
{
    lemma_signatures();
    let code = constant_code(c);
    let mid = match c {
        Constant::String(_) | Constant::Name(_) => seq![WasmType::I32],
        _ => seq![WasmType::I64],
    };
    lemma_plain(locals, code[0], Seq::empty(), mid);
    lemma_plain(locals, code[1], mid, seq![WasmType::ExternRef]);
    lemma_two(locals, code[0], code[1], Seq::empty(), mid, seq![WasmType::ExternRef]);
    assert(code =~= seq![code[0], code[1]]);
}

/// An operand leaves its value.
proof fn lemma_operand(locals: Seq<WasmType>, order: Seq<NameId>, total: nat, o: Operand)
    requires
        laid_out(locals, order, total),
    ensures
        turns(locals, operand_code(order, o), Seq::empty(), seq![WasmType::ExternRef]),
{
    match o {
        Operand::Var(v) => {
            lemma_local(locals, order, total, v);
            match local_of(order, v) {
                Some(l) => lemma_plain(
                    locals,
                    Instr::LocalGet(l),
                    Seq::empty(),
                    seq![WasmType::ExternRef],
                ),
                None => lemma_plain(locals, Instr::RefNull, Seq::empty(), seq![WasmType::ExternRef]),
            }
        },
        Operand::Const(c) => lemma_constant(locals, c),
    }
}

/// Operands leave their values.
proof fn lemma_operands(
    locals: Seq<WasmType>,
    order: Seq<NameId>,
    total: nat,
    ops: Seq<Operand>,
    n: nat,
)
    requires
        laid_out(locals, order, total),
    ensures
        turns(locals, operands_code(order, ops, n, Seq::empty()), Seq::empty(), values(n)),
    decreases n,
{
    let none = Seq::<WasmType>::empty();
    let one = seq![WasmType::ExternRef];
    if n == 0 {
        lemma_nothing(locals, none);
        assert(values(0) =~= none);
    } else {
        let before = operands_code(order, ops, (n - 1) as nat, Seq::empty());
        let last = operand_code(order, ops[n - 1]);
        lemma_operands(locals, order, total, ops, (n - 1) as nat);
        lemma_operand(locals, order, total, ops[n - 1]);
        lemma_below(locals, last, values((n - 1) as nat), none, one);
        assert(values((n - 1) as nat) + none =~= values((n - 1) as nat));
        assert(values((n - 1) as nat) + one =~= values(n));
        lemma_turns(locals, before, last, none, values((n - 1) as nat), values(n));
        assert(operands_code(order, ops, n, Seq::empty()) =~= before + last);
    }
}

/// Operands whose values are taken one by one.
proof fn lemma_taken(
    locals: Seq<WasmType>,
    order: Seq<NameId>,
    total: nat,
    ops: Seq<Operand>,
    n: nat,
    after: Seq<Instr>,
)
    requires
        laid_out(locals, order, total),
        turns(locals, after, seq![WasmType::ExternRef], Seq::empty()),
    ensures
        turns(locals, operands_code(order, ops, n, after), Seq::empty(), Seq::empty()),
    decreases n,
{
    let none = Seq::<WasmType>::empty();
    let one = seq![WasmType::ExternRef];
    if n == 0 {
        lemma_nothing(locals, none);
    } else {
        let before = operands_code(order, ops, (n - 1) as nat, after);
        let last = operand_code(order, ops[n - 1]);
        lemma_taken(locals, order, total, ops, (n - 1) as nat, after);
        lemma_operand(locals, order, total, ops[n - 1]);
        lemma_turns(locals, before, last, none, none, one);
        lemma_turns(locals, before + last, after, none, one, none);
    }
}

/// Values that are dropped.
proof fn lemma_dropped(locals: Seq<WasmType>, n: nat)
    ensures
        turns(locals, repeated(Instr::Drop, n), values(n), Seq::empty()),
    decreases n,
{
    let none = Seq::<WasmType>::empty();
    let one = seq![WasmType::ExternRef];
    if n == 0 {
        lemma_nothing(locals, none);
        assert(values(0) =~= none);
        assert(repeated(Instr::Drop, 0) =~= Seq::<Instr>::empty());
    } else {
        let fewer = (n - 1) as nat;
        lemma_dropped(locals, fewer);
        lemma_plain(locals, Instr::Drop, one, none);
        lemma_below(locals, seq![Instr::Drop], values(fewer), one, none);
        assert(values(fewer) + one =~= values(n));
        assert(values(fewer) + none =~= values(fewer));
        lemma_turns(
            locals,
            seq![Instr::Drop],
            repeated(Instr::Drop, fewer),
            values(n),
            values(fewer),
            none,
        );
        assert(seq![Instr::Drop] + repeated(Instr::Drop, fewer) =~= repeated(Instr::Drop, n));
    }
}

/// A function applied from the left leaves its value.
proof fn lemma_fold(
    locals: Seq<WasmType>,
    order: Seq<NameId>,
    total: nat,
    ops: Seq<Operand>,
    n: nat,
    f: u32,
)
    requires
        laid_out(locals, order, total),
        signature(f) == Some((values(2), values(1))),
    ensures
        turns(locals, fold_code(order, ops, n, f), Seq::empty(), seq![WasmType::ExternRef]),
    decreases n,
{
    let none = Seq::<WasmType>::empty();
    let one = seq![WasmType::ExternRef];
    assert(values(1) =~= one);
    if n == 0 {
        lemma_plain(locals, Instr::RefNull, none, one);
    } else if n == 1 {
        lemma_operand(locals, order, total, ops[0]);
    } else {
        let before = fold_code(order, ops, (n - 1) as nat, f);
        let last = operand_code(order, ops[n - 1]);
        lemma_fold(locals, order, total, ops, (n - 1) as nat, f);
        lemma_operand(locals, order, total, ops[n - 1]);
        lemma_below(locals, last, one, none, one);
        assert(one + none =~= one);
        assert(one + one =~= values(2));
        lemma_turns(locals, before, last, none, one, values(2));
        lemma_plain(locals, Instr::Call(f), values(2), values(1));
        lemma_turns(locals, before + last, seq![Instr::Call(f)], none, values(2), one);
    }
}

/// An expression leaves its value.
proof fn lemma_expr(locals: Seq<WasmType>, g: Graph, order: Seq<NameId>, total: nat, t: Term)
    requires
        laid_out(locals, order, total),
    ensures
        turns(locals, expr_code(g, order, t), Seq::empty(), seq![WasmType::ExternRef]),
{
    let none = Seq::<WasmType>::empty();
    let one = seq![WasmType::ExternRef];
    let number = seq![WasmType::I32];
    match t {
        Term::Value(o) => lemma_operand(locals, order, total, o),
        Term::Call { function, args } => {
            let name = g.name(function);
            lemma_shape_signature(name);
            lemma_signatures();
            lemma_plain(locals, Instr::RefNull, none, one);
            assert(values(1) =~= one);
            match shape_of(name) {
                Shape::Fold(f) => lemma_fold(locals, order, total, args, args.len(), f),
                Shape::Unary(f) => {
                    if args.len() > 0 {
                        let first = operand_code(order, args[0]);
                        lemma_operand(locals, order, total, args[0]);
                        lemma_plain(locals, Instr::Call(f), one, one);
                        lemma_turns(locals, first, seq![Instr::Call(f)], none, one, one);
                        assert(first + seq![Instr::Call(f)] =~= first.push(Instr::Call(f)));
                    }
                },
                Shape::Exactly(n, f) => {
                    if args.len() == n {
                        let all = operands_code(order, args, args.len(), Seq::empty());
                        lemma_operands(locals, order, total, args, args.len());
                        lemma_plain(locals, Instr::Call(f), values(n as nat), values(1));
                        lemma_turns(locals, all, seq![Instr::Call(f)], none, values(n as nat), one);
                        assert(all + seq![Instr::Call(f)] =~= all.push(Instr::Call(f)));
                    }
                },
                Shape::Compound(kind) => {
                    let begin = seq![Instr::I32Const(kind), Instr::Call(IMP_COMPOUND_BEGIN)];
                    let push = seq![Instr::Call(IMP_COMPOUND_PUSH)];
                    let items = operands_code(order, args, args.len(), push);
                    let end = seq![Instr::Call(IMP_COMPOUND_END)];
                    lemma_plain(locals, Instr::I32Const(kind), none, number);
                    lemma_plain(locals, Instr::Call(IMP_COMPOUND_BEGIN), number, none);
                    lemma_two(
                        locals,
                        Instr::I32Const(kind),
                        Instr::Call(IMP_COMPOUND_BEGIN),
                        none,
                        number,
                        none,
                    );
                    lemma_plain(locals, Instr::Call(IMP_COMPOUND_PUSH), one, none);
                    lemma_taken(locals, order, total, args, args.len(), push);
                    lemma_plain(locals, Instr::Call(IMP_COMPOUND_END), none, one);
                    lemma_turns(locals, begin, items, none, none, none);
                    lemma_turns(locals, begin + items, end, none, none, one);
                },
                Shape::Unknown => {
                    let all = operands_code(order, args, args.len(), Seq::empty());
                    let drops = repeated(Instr::Drop, args.len());
                    lemma_operands(locals, order, total, args, args.len());
                    lemma_dropped(locals, args.len());
                    lemma_turns(locals, all, drops, none, values(args.len()), none);
                    lemma_turns(locals, all + drops, seq![Instr::RefNull], none, none, one);
                },
            }
        },
    }
}

/// A condition leaves whether it holds.
proof fn lemma_cond(locals: Seq<WasmType>, order: Seq<NameId>, total: nat, c: Test)
    requires
        laid_out(locals, order, total),
    ensures
        turns(locals, cond_code(order, c), Seq::empty(), seq![WasmType::I32]),
{
    let none = Seq::<WasmType>::empty();
    let one = seq![WasmType::ExternRef];
    let two = seq![WasmType::ExternRef, WasmType::ExternRef];
    let number = seq![WasmType::I32];
    match c {
        Test::Compare { op, left, right } => {
            let l = operand_code(order, left);
            let r = operand_code(order, right);
            let call = Instr::Call(compare_import(op));
            lemma_operand(locals, order, total, left);
            lemma_operand(locals, order, total, right);
            lemma_below(locals, r, one, none, one);
            assert(one + none =~= one);
            assert(one + one =~= two);
            lemma_turns(locals, l, r, none, one, two);
            lemma_compare_signature(op);
            lemma_plain(locals, call, two, number);
            lemma_turns(locals, l + r, seq![call], none, two, number);
        },
        _ => lemma_plain(locals, Instr::I32Const(1), none, number),
    }
}

/// The code starts and ends with an empty stack and the same open blocks.
spec fn balanced(locals: Seq<WasmType>, code: Seq<Instr>) -> bool {
    forall|d: nat| #[trigger]
        checked(locals, Some((Seq::<WasmType>::empty(), d)), code) == Some((Seq::<WasmType>::empty(), d))
}

/// Code that leaves nothing is balanced.
proof fn lemma_balanced(locals: Seq<WasmType>, code: Seq<Instr>)
    requires
        turns(locals, code, Seq::empty(), Seq::empty()),
    ensures
        balanced(locals, code),
{
    let none = Seq::<WasmType>::empty();
    assert forall|d: nat| #[trigger] checked(locals, Some((none, d)), code) == Some((none, d)) by {
        assert(none + none =~= none);
        assert(checked(locals, Some((none + none, d)), code) == Some((none + none, d)));
    }
}

/// Balanced code one after the other.
proof fn lemma_both_balanced(locals: Seq<WasmType>, x: Seq<Instr>, y: Seq<Instr>)
    requires
        balanced(locals, x),
        balanced(locals, y),
    ensures
        balanced(locals, x + y),
{
    let none = Seq::<WasmType>::empty();
    assert forall|d: nat| #[trigger] checked(locals, Some((none, d)), x + y) == Some((none, d)) by {
        lemma_concat(locals, Some((none, d)), x, y);
    }
}

/// Columns are put into locals.
proof fn lemma_columns(
    locals: Seq<WasmType>,
    b: WasmImportsBackend,
    order: Seq<NameId>,
    total: nat,
    vars: Seq<NameId>,
    n: nat,
)
    requires
        laid_out(locals, order, total),
    ensures
        turns(locals, columns_code(b, order, vars, n), Seq::empty(), Seq::empty()),
    decreases n,
{
    let none = Seq::<WasmType>::empty();
    let one = seq![WasmType::ExternRef];
    let number = seq![WasmType::I32];
    let two = seq![WasmType::I32, WasmType::I32];
    if n == 0 {
        lemma_nothing(locals, none);
    } else {
        let before = columns_code(b, order, vars, (n - 1) as nat);
        lemma_columns(locals, b, order, total, vars, (n - 1) as nat);
        lemma_local(locals, order, total, vars[n - 1]);
        if let Some(local) = local_of(order, vars[n - 1]) {
            let col = Instr::I32Const((n - 1) as u32 as i32);
            let get = b.get_col(1, (n - 1) as u32);
            lemma_signatures();
            lemma_plain(locals, Instr::LocalGet(1), none, number);
            lemma_plain(locals, col, none, number);
            lemma_below(locals, seq![col], number, none, number);
            assert(number + none =~= number);
            assert(number + number =~= two);
            lemma_two(locals, Instr::LocalGet(1), col, none, number, two);
            lemma_plain(locals, Instr::Call(IMP_GET_COL), two, one);
            lemma_turns(
                locals,
                seq![Instr::LocalGet(1), col],
                seq![Instr::Call(IMP_GET_COL)],
                none,
                two,
                one,
            );
            assert(get =~= seq![Instr::LocalGet(1), col] + seq![Instr::Call(IMP_GET_COL)]);
            lemma_plain(locals, Instr::LocalSet(local), one, none);
            lemma_turns(locals, before, get, none, none, one);
            lemma_turns(locals, before + get, seq![Instr::LocalSet(local)], none, one, none);
        }
    }
}

/// A scan is started.
proof fn lemma_start(
    locals: Seq<WasmType>,
    b: WasmImportsBackend,
    g: Graph,
    order: Seq<NameId>,
    total: nat,
    s: Source,
)
    requires
        laid_out(locals, order, total),
    ensures
        turns(locals, start_code(b, g, order, s), Seq::empty(), seq![WasmType::I32]),
{
    let none = Seq::<WasmType>::empty();
    let one = seq![WasmType::ExternRef];
    let number = seq![WasmType::I32];
    let two = seq![WasmType::I32, WasmType::I32];
    let three = seq![WasmType::I32, WasmType::I32, WasmType::ExternRef];
    lemma_signatures();
    match s {
        Source::Scan { relation, .. } => {
            let code = start_code(b, g, order, s);
            lemma_plain(locals, code[0], none, number);
            lemma_plain(locals, code[1], number, number);
            lemma_two(locals, code[0], code[1], none, number, number);
            assert(code =~= seq![code[0], code[1]]);
        },
        Source::ScanDelta { relation, .. } => {
            let code = start_code(b, g, order, s);
            lemma_plain(locals, code[0], none, number);
            lemma_plain(locals, code[1], number, number);
            lemma_two(locals, code[0], code[1], none, number, number);
            assert(code =~= seq![code[0], code[1]]);
        },
        Source::IndexLookup { relation, col_idx, key, .. } => {
            let first = operand_code(order, key);
            let code = b.scan_index_start(g.name(relation), col_idx as u32);
            lemma_operand(locals, order, total, key);
            lemma_plain(locals, code[0], one, none);
            lemma_plain(locals, code[1], none, number);
            lemma_two(locals, code[0], code[1], one, none, number);
            lemma_plain(locals, code[2], none, number);
            lemma_below(locals, seq![code[2]], number, none, number);
            assert(number + none =~= number);
            assert(number + number =~= two);
            lemma_turns(locals, seq![code[0], code[1]], seq![code[2]], one, number, two);
            lemma_plain(locals, code[3], none, one);
            lemma_below(locals, seq![code[3]], two, none, one);
            assert(two + none =~= two);
            assert(two + one =~= three);
            lemma_turns(
                locals,
                seq![code[0], code[1]] + seq![code[2]],
                seq![code[3]],
                one,
                two,
                three,
            );
            lemma_plain(locals, code[4], three, number);
            lemma_turns(
                locals,
                seq![code[0], code[1]] + seq![code[2]] + seq![code[3]],
                seq![code[4]],
                one,
                three,
                number,
            );
            assert(code =~= seq![code[0], code[1]] + seq![code[2]] + seq![code[3]] + seq![code[4]]);
            lemma_turns(locals, first, code, none, one, number);
        },
    }
}

/// Code that leaves something on an empty stack.
proof fn lemma_on_empty(locals: Seq<WasmType>, code: Seq<Instr>, results: Seq<WasmType>, d: nat)
    requires
        turns(locals, code, Seq::empty(), results),
    ensures
        checked(locals, Some((Seq::<WasmType>::empty(), d)), code) == Some((results, d)),
{
    let none = Seq::<WasmType>::empty();
    assert(none + none =~= none);
    assert(none + results =~= results);
    assert(checked(locals, Some((none + none, d)), code) == Some((none + results, d)));
}

/// The start of a loop over rows opens two blocks.
proof fn lemma_scan(
    locals: Seq<WasmType>,
    b: WasmImportsBackend,
    g: Graph,
    order: Seq<NameId>,
    total: nat,
    s: Source,
    iter: u32,
    d: nat,
)
    requires
        laid_out(locals, order, total),
        2 + order.len() <= iter < locals.len(),
    ensures
        checked(locals, Some((Seq::<WasmType>::empty(), d)), scan_code(b, g, order, s, iter)) == Some(
            (Seq::<WasmType>::empty(), d + 2),
        ),
{
    let none = Seq::<WasmType>::empty();
    let number = seq![WasmType::I32];
    let start = start_code(b, g, order, s);
    let set = Instr::LocalSet(iter);
    let next = b.scan_next(iter);
    let tee = Instr::LocalTee(1);
    let leave = Instr::BrIf(1);
    let columns = columns_code(b, order, source_vars(s), source_vars(s).len());
    lemma_signatures();
    lemma_start(locals, b, g, order, total, s);
    lemma_plain(locals, set, number, none);
    lemma_turns(locals, start, seq![set], none, number, none);
    let opened = start + seq![set];
    lemma_on_empty(locals, opened, none, d);
    let at0 = Some((none, d));
    lemma_single(locals, at0, Instr::Block);
    lemma_single(locals, Some((none, d + 1)), Instr::Loop);
    lemma_concat(locals, at0, opened, seq![Instr::Block]);
    lemma_concat(locals, at0, opened + seq![Instr::Block], seq![Instr::Loop]);
    let head = opened + seq![Instr::Block] + seq![Instr::Loop];
    assert(checked(locals, at0, head) == Some((none, d + 2)));
    lemma_plain(locals, Instr::LocalGet(iter), none, number);
    lemma_plain(locals, Instr::Call(IMP_SCAN_NEXT), number, number);
    lemma_two(locals, Instr::LocalGet(iter), Instr::Call(IMP_SCAN_NEXT), none, number, number);
    assert(next =~= seq![Instr::LocalGet(iter), Instr::Call(IMP_SCAN_NEXT)]);
    lemma_plain(locals, tee, number, number);
    lemma_plain(locals, Instr::I32Eqz, number, number);
    lemma_two(locals, tee, Instr::I32Eqz, number, number, number);
    lemma_turns(locals, next, seq![tee, Instr::I32Eqz], none, number, number);
    let test = next + seq![tee, Instr::I32Eqz];
    lemma_on_empty(locals, test, number, d + 2);
    lemma_single(locals, Some((number, d + 2)), leave);
    lemma_concat(locals, at0, head, test);
    lemma_concat(locals, at0, head + test, seq![leave]);
    lemma_columns(locals, b, order, total, source_vars(s), source_vars(s).len());
    lemma_on_empty(locals, columns, none, d + 2);
    lemma_concat(locals, at0, head + test + seq![leave], columns);
    assert(scan_code(b, g, order, s, iter) =~= head + test + seq![leave] + columns);
}

/// The code of a plan is balanced.
proof fn lemma_plan(
    locals: Seq<WasmType>,
    b: WasmImportsBackend,
    g: Graph,
    order: Seq<NameId>,
    total: nat,
    offset: u32,
    p: Plan,
)
    requires
        laid_out(locals, order, total),
        offset + scans(p) <= total,
    ensures
        balanced(locals, plan_code(b, g, order, offset, p).0),
        plan_code(b, g, order, offset, p).1 <= offset + scans(p),
    decreases p, 0nat,
{
    let none = Seq::<WasmType>::empty();
    let one = seq![WasmType::ExternRef];
    let number = seq![WasmType::I32];
    match p {
        Plan::Iterate { source, body } => {
            let iter = local_at(order.len() as int).wrapping_add(offset);
            assert(iter == 2 + order.len() + offset);
            lemma_plan(locals, b, g, order, total, offset.wrapping_add(1), *body);
            let head = scan_code(b, g, order, source, iter);
            let inner = plan_code(b, g, order, offset.wrapping_add(1), *body).0;
            let tail = seq![Instr::Br(0), Instr::End, Instr::End];
            assert forall|d: nat| #[trigger]
                checked(locals, Some((none, d)), head + inner + tail) == Some((none, d)) by {
                lemma_scan(locals, b, g, order, total, source, iter, d);
                lemma_concat(locals, Some((none, d)), head, inner);
                assert(checked(locals, Some((none, d + 2)), inner) == Some((none, d + 2)));
                lemma_concat(locals, Some((none, d)), head + inner, tail);
                lemma_single(locals, Some((none, d + 2)), Instr::Br(0));
                lemma_concat(locals, Some((none, d + 2)), seq![Instr::Br(0)], seq![Instr::End]);
                lemma_single(locals, Some((none, d + 2)), Instr::End);
                lemma_concat(
                    locals,
                    Some((none, d + 2)),
                    seq![Instr::Br(0)] + seq![Instr::End],
                    seq![Instr::End],
                );
                lemma_single(locals, Some((none, d + 1)), Instr::End);
                assert(tail =~= seq![Instr::Br(0)] + seq![Instr::End] + seq![Instr::End]);
            }
        },
        Plan::Filter { cond, body } => {
            lemma_plan(locals, b, g, order, total, offset, *body);
            lemma_cond(locals, order, total, cond);
            let head = cond_code(order, cond);
            let inner = plan_code(b, g, order, offset, *body).0;
            let code = head + seq![Instr::If] + inner + seq![Instr::End];
            assert forall|d: nat| #[trigger] checked(locals, Some((none, d)), code) == Some((none, d)) by {
                lemma_on_empty(locals, head, number, d);
                lemma_concat(locals, Some((none, d)), head, seq![Instr::If]);
                lemma_single(locals, Some((number, d)), Instr::If);
                lemma_concat(locals, Some((none, d)), head + seq![Instr::If], inner);
                assert(checked(locals, Some((none, d + 1)), inner) == Some((none, d + 1)));
                lemma_concat(locals, Some((none, d)), head + seq![Instr::If] + inner, seq![Instr::End]);
                lemma_single(locals, Some((none, d + 1)), Instr::End);
            }
        },
        Plan::Let { var, expr, body } => {
            lemma_plan(locals, b, g, order, total, offset, *body);
            lemma_expr(locals, g, order, total, expr);
            lemma_local(locals, order, total, var);
            let kept = match local_of(order, var) {
                Some(local) => Instr::LocalSet(local),
                None => Instr::Drop,
            };
            let inner = plan_code(b, g, order, offset, *body).0;
            lemma_plain(locals, kept, one, none);
            lemma_turns(locals, expr_code(g, order, expr), seq![kept], none, one, none);
            lemma_balanced(locals, expr_code(g, order, expr) + seq![kept]);
            lemma_both_balanced(locals, expr_code(g, order, expr) + seq![kept], inner);
        },
        Plan::Insert { relation, args } => {
            let begin = b.insert_begin(g.name(relation));
            let push = b.insert_push();
            let items = operands_code(order, args, args.len(), push);
            let end = b.insert_end();
            lemma_signatures();
            lemma_plain(locals, begin[0], none, number);
            lemma_plain(locals, begin[1], number, none);
            lemma_two(locals, begin[0], begin[1], none, number, none);
            assert(begin =~= seq![begin[0], begin[1]]);
            lemma_plain(locals, Instr::Call(IMP_INSERT_PUSH), one, none);
            lemma_taken(locals, order, total, args, args.len(), push);
            lemma_plain(locals, Instr::Call(IMP_INSERT_END), none, none);
            lemma_turns(locals, begin, items, none, none, none);
            lemma_turns(locals, begin + items, end, none, none, none);
            lemma_balanced(locals, begin + items + end);
        },
        Plan::Sequence(ps) => {
            lemma_plans(locals, b, g, order, total, offset, ps, ps.len());
        },
        _ => {},
    }
}

/// The code of plans is balanced.
proof fn lemma_plans(
    locals: Seq<WasmType>,
    b: WasmImportsBackend,
    g: Graph,
    order: Seq<NameId>,
    total: nat,
    offset: u32,
    ps: Seq<Plan>,
    n: nat,
)
    requires
        laid_out(locals, order, total),
        n <= ps.len(),
        offset + all_scans(ps, n) <= total,
    ensures
        balanced(locals, plans_code(b, g, order, offset, ps, n).0),
        plans_code(b, g, order, offset, ps, n).1 <= offset + all_scans(ps, n),
    decreases ps, n,
{
    if n > 0 {
        lemma_plans(locals, b, g, order, total, offset, ps, (n - 1) as nat);
        let (before, o) = plans_code(b, g, order, offset, ps, (n - 1) as nat);
        lemma_plan(locals, b, g, order, total, o, ps[n - 1]);
        lemma_both_balanced(locals, before, plan_code(b, g, order, o, ps[n - 1]).0);
    }
}

/// The scans of the first plans and of those after them.
proof fn lemma_scans_split(ps: Seq<Plan>, i: nat, n: nat)
    requires
        i <= n <= ps.len(),
    ensures
        all_scans(ps, n) == all_scans(ps, i) + all_scans(
            ps.subrange(i as int, n as int),
            (n - i) as nat,
        ),
    decreases n,
{
    let part = ps.subrange(i as int, n as int);
    if i < n {
        lemma_scans_split(ps, i, (n - 1) as nat);
        let fewer = ps.subrange(i as int, n - 1);
        lemma_scans_prefix(fewer, part, (n - 1 - i) as nat);
        assert(part[n - 1 - i] == ps[n - 1]);
    }
}

/// Only the first plans count.
proof fn lemma_scans_prefix(ps: Seq<Plan>, qs: Seq<Plan>, n: nat)
    requires
        n <= ps.len(),
        n <= qs.len(),
        forall|i: int| 0 <= i < n ==> ps[i] == qs[i],
    ensures
        all_scans(ps, n) == all_scans(qs, n),
    decreases n,
{
    if n > 0 {
        lemma_scans_prefix(ps, qs, (n - 1) as nat);
    }
}

/// The code of scheduled plans is balanced.
#[verifier::rlimit(60)]
#[verifier::spinoff_prover]
proof fn lemma_schedule(
    locals: Seq<WasmType>,
    b: WasmImportsBackend,
    sc: Scheduled,
    order: Seq<NameId>,
    total: nat,
    offset: u32,
    i: nat,
    k: nat,
)
    requires
        laid_out(locals, order, total),
        loops_fit(sc.loops, sc.plans.len()),
        total == all_scans(sc.plans, sc.plans.len()),
        i <= sc.plans.len(),
        offset <= all_scans(sc.plans, i),
    ensures
        balanced(locals, schedule_code(b, sc, order, offset, i, k)),
    decreases sc.plans.len() - i, sc.loops.len() - k,
{
    let none = Seq::<WasmType>::empty();
    let number = seq![WasmType::I32];
    if i >= sc.plans.len() {
        assert(schedule_code(b, sc, order, offset, i, k) =~= Seq::<Instr>::empty());
    } else if k < sc.loops.len() && sc.loops[k as int].0 == i {
        let end = sc.loops[k as int].1;
        let part = sc.plans.subrange(i as int, end as int);
        let (body, next) = plans_code(b, sc.g, order, offset, part, part.len());
        lemma_scans_split(sc.plans, i, end);
        lemma_scans_split(sc.plans, end, sc.plans.len());
        lemma_plans(locals, b, sc.g, order, total, offset, part, part.len());
        lemma_schedule(locals, b, sc, order, total, next, end, k + 1);
        let rest = schedule_code(b, sc, order, next, end, k + 1);
        let merge = b.merge_deltas();
        lemma_signatures();
        lemma_plain(locals, Instr::Call(IMP_MERGE_DELTAS), none, number);
        assert(merge =~= seq![Instr::Call(IMP_MERGE_DELTAS)]);
        lemma_plain(locals, Instr::Drop, number, none);
        lemma_turns(locals, merge, seq![Instr::Drop], none, number, none);
        let first = merge + seq![Instr::Drop];
        let code = first + seq![Instr::Loop] + body + merge + seq![Instr::BrIf(0)] + seq![Instr::End];
        assert forall|d: nat| #[trigger] checked(locals, Some((none, d)), code) == Some((none, d)) by {
            let at = Some((none, d));
            lemma_on_empty(locals, first, none, d);
            lemma_concat(locals, at, first, seq![Instr::Loop]);
            lemma_single(locals, at, Instr::Loop);
            lemma_concat(locals, at, first + seq![Instr::Loop], body);
            assert(checked(locals, Some((none, d + 1)), body) == Some((none, d + 1)));
            lemma_concat(locals, at, first + seq![Instr::Loop] + body, merge);
            lemma_on_empty(locals, merge, number, d + 1);
            lemma_concat(locals, at, first + seq![Instr::Loop] + body + merge, seq![Instr::BrIf(0)]);
            lemma_single(locals, Some((number, d + 1)), Instr::BrIf(0));
            lemma_concat(
                locals,
                at,
                first + seq![Instr::Loop] + body + merge + seq![Instr::BrIf(0)],
                seq![Instr::End],
            );
            lemma_single(locals, Some((none, d + 1)), Instr::End);
        }
        lemma_both_balanced(locals, code, rest);
        assert(schedule_code(b, sc, order, offset, i, k) =~= code + rest);
    } else {
        let (one, next) = plan_code(b, sc.g, order, offset, sc.plans[i as int]);
        lemma_scans_split(sc.plans, i + 1, sc.plans.len());
        lemma_plan(locals, b, sc.g, order, total, offset, sc.plans[i as int]);
        lemma_schedule(locals, b, sc, order, total, next, i + 1, k);
        lemma_both_balanced(locals, one, schedule_code(b, sc, order, next, i + 1, k));
    }
}

/// Runs one after the other.
proof fn lemma_local_types(x: Seq<(u32, WasmType)>, y: Seq<(u32, WasmType)>)
    ensures
        local_types(x + y) == local_types(x) + local_types(y),
    decreases y.len(),
{
    if y.len() == 0 {
        assert(x + y =~= x);
        assert(local_types(x) + local_types(y) =~= local_types(x));
    } else {
        assert((x + y).drop_last() =~= x + y.drop_last());
        lemma_local_types(x, y.drop_last());
        assert(local_types(x + y) =~= local_types(x) + local_types(y));
    }
}

/// Runs of one local each.
proof fn lemma_runs(n: nat, t: WasmType)
    ensures
        local_types(runs(n, t)) == Seq::new(n, |i: int| t),
    decreases n,
{
    if n == 0 {
        assert(local_types(runs(n, t)) =~= Seq::new(n, |i: int| t));
    } else {
        lemma_runs((n - 1) as nat, t);
        assert(runs(n, t).drop_last() =~= runs((n - 1) as nat, t));
        assert(local_types(runs(n, t)) =~= Seq::new(n, |i: int| t));
    }
}

/// The function that runs plans is valid: its code takes values of the types that are there,
/// uses locals and host functions that exist, and closes every block that it opens.
pub proof fn generated_code_is_valid(b: WasmImportsBackend, sc: Scheduled)
    requires
        loops_fit(sc.loops, sc.plans.len()),
        local_types(run_locals(sc.plans)).len() <= u32::MAX,
    ensures
        body_is_valid(local_types(run_locals(sc.plans)), run_code(b, sc)),
{
    let none = Seq::<WasmType>::empty();
    let order = all_collected(Seq::empty(), sc.plans, sc.plans.len());
    let total = all_scans(sc.plans, sc.plans.len());
    let locals = local_types(run_locals(sc.plans));
    let two = seq![(1u32, WasmType::ExternRef), (1u32, WasmType::I32)];
    let vars = runs(order.len(), WasmType::ExternRef);
    let iters = runs(total, WasmType::I32);
    lemma_local_types(two + vars, iters);
    lemma_local_types(two, vars);
    lemma_runs(order.len(), WasmType::ExternRef);
    lemma_runs(total, WasmType::I32);
    assert(local_types(two) =~= seq![WasmType::ExternRef, WasmType::I32]) by {
        assert(two.drop_last() =~= seq![(1u32, WasmType::ExternRef)]);
        assert(two.drop_last().drop_last() =~= Seq::<(u32, WasmType)>::empty());
        reveal_with_fuel(local_types, 3);
    }
    assert(laid_out(locals, order, total));
    lemma_schedule(locals, b, sc, order, total, 0, 0, 0);
    let code = schedule_code(b, sc, order, 0, 0, 0);
    lemma_concat(locals, Some((none, 1)), code, seq![Instr::End]);
    assert(checked(locals, Some((none, 1)), code) == Some((none, 1nat)));
    lemma_single(locals, Some((none, 1)), Instr::End);
}

} // verus!
