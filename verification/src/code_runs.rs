//! Running generated code inserts the rows that its plans derive.
use vstd::prelude::*;

use crate::code_meaning::{
    close, comes_to, computable, computed, folded, four, one, relation_number, step, steps, three,
    truth, two, Arithmetic, Calls, HostModel, HostState, Label, Machine, Slot,
};
use crate::codegen::{
    all_collected, all_scans, call_code, collected, columns_code, compare_import, cond_code,
    expr_code, fold_code, host_functions, local_at, local_of, module_types, operand_code,
    operands_code, plan_code, plans_code, run_code, scans, schedule_code, shape_of, source_vars,
    start_code, with_local, with_locals, Backend, Shape, WasmImportsBackend,
};
use crate::codegen::{
    IMP_SCAN_START, IMP_SCAN_NEXT, IMP_GET_COL, IMP_INSERT_BEGIN, IMP_INSERT_PUSH, IMP_INSERT_END,
    IMP_SCAN_DELTA_START, IMP_MERGE_DELTAS, IMP_SCAN_INDEX_START, IMP_CONST_NUMBER,
    IMP_CONST_FLOAT, IMP_CONST_STRING, IMP_CONST_NAME, IMP_CONST_TIME, IMP_CONST_DURATION,
    IMP_VAL_ADD, IMP_VAL_SUB, IMP_VAL_MUL, IMP_VAL_DIV, IMP_VAL_SQRT, IMP_VAL_EQ, IMP_VAL_NEQ,
    IMP_VAL_LT, IMP_VAL_LE, IMP_VAL_GT, IMP_VAL_GE, IMP_STR_CONCAT, IMP_STR_REPLACE,
    IMP_VAL_TO_STRING, IMP_COMPOUND_BEGIN, IMP_COMPOUND_PUSH, IMP_COMPOUND_END, IMP_COMPOUND_GET,
    IMP_COMPOUND_LEN, IMP_PAIR_FIRST, IMP_PAIR_SECOND,
};
use crate::group_laws::lemma_in_sequence;
use crate::ir::{Graph, NameId};
use crate::physical::{source_relation, CompareOp, Constant, Operand, Plan, Source, Term, Test};
use crate::plan_meaning::{
    after_plans, bind, derives, listed, only, operand, operand_values, reaches, related, row_vars,
    term_value, test_holds, Env, World,
};
use crate::planner::fold_vars;
use crate::schedule::{loops_fit, Scheduled};
use crate::value::Val;
use crate::wasm::Instr;

verus! {

/// The function of the host at an index has a name and takes so many arguments.
spec fn takes(index: u32, name: Seq<char>, n: nat) -> bool {
    let import = host_functions()[index as int];
    import.name@ == name && module_types()[import.ty as int].0.len() == n
}

/// The functions of the host.
#[verifier::rlimit(60)]
#[verifier::spinoff_prover]
proof fn lemma_imports()
    ensures
        takes(IMP_SCAN_START, "scan_start"@, 1),
        takes(IMP_SCAN_NEXT, "scan_next"@, 1),
        takes(IMP_GET_COL, "get_col"@, 2),
        takes(IMP_INSERT_BEGIN, "insert_begin"@, 1),
        takes(IMP_INSERT_PUSH, "insert_push"@, 1),
        takes(IMP_INSERT_END, "insert_end"@, 0),
        takes(IMP_SCAN_DELTA_START, "scan_delta_start"@, 1),
        takes(IMP_MERGE_DELTAS, "merge_deltas"@, 0),
        takes(IMP_SCAN_INDEX_START, "scan_index_start"@, 3),
        takes(IMP_CONST_NUMBER, "const_number"@, 1),
        takes(IMP_CONST_FLOAT, "const_float"@, 1),
        takes(IMP_CONST_STRING, "const_string"@, 1),
        takes(IMP_CONST_NAME, "const_name"@, 1),
        takes(IMP_CONST_TIME, "const_time"@, 1),
        takes(IMP_CONST_DURATION, "const_duration"@, 1),
        takes(IMP_VAL_ADD, "val_add"@, 2),
        takes(IMP_VAL_SUB, "val_sub"@, 2),
        takes(IMP_VAL_MUL, "val_mul"@, 2),
        takes(IMP_VAL_DIV, "val_div"@, 2),
        takes(IMP_VAL_SQRT, "val_sqrt"@, 1),
        takes(IMP_VAL_EQ, "val_eq"@, 2),
        takes(IMP_VAL_NEQ, "val_neq"@, 2),
        takes(IMP_VAL_LT, "val_lt"@, 2),
        takes(IMP_VAL_LE, "val_le"@, 2),
        takes(IMP_VAL_GT, "val_gt"@, 2),
        takes(IMP_VAL_GE, "val_ge"@, 2),
        takes(IMP_STR_CONCAT, "str_concat"@, 2),
        takes(IMP_STR_REPLACE, "str_replace"@, 4),
        takes(IMP_VAL_TO_STRING, "val_to_string"@, 1),
        takes(IMP_COMPOUND_BEGIN, "compound_begin"@, 1),
        takes(IMP_COMPOUND_PUSH, "compound_push"@, 1),
        takes(IMP_COMPOUND_END, "compound_end"@, 0),
        takes(IMP_COMPOUND_GET, "compound_get"@, 2),
        takes(IMP_COMPOUND_LEN, "compound_len"@, 1),
        takes(IMP_PAIR_FIRST, "pair_first"@, 1),
        takes(IMP_PAIR_SECOND, "pair_second"@, 1),
{
}


/// Where code runs: the code of the whole function, the host, the world that it shows, the
/// program's names, and the order of the variables in the locals.
pub struct Site {
    pub code: Seq<Instr>,
    pub host: HostModel,
    pub w: World,
    pub g: Graph,
    pub order: Seq<NameId>,
}

impl Site {
    /// The host does what its functions are named after, and shows the world.
    pub open spec fn wf(self) -> bool {
        &&& self.host.scans_rows()
        &&& self.host.inserts_rows()
        &&& self.host.has_constants(self.w)
        &&& self.host.compares_values(self.w)
        &&& self.host.has_rows(self.w, self.g)
        &&& self.host.computes(self.w)
        &&& self.order.no_duplicates()
        &&& self.order.len() + 2 <= u32::MAX
    }

    /// Whether the machine comes from one state to another.
    pub open spec fn runs(self, m: Machine, r: Machine) -> bool {
        comes_to(self.code, self.host.calls, m, r)
    }

    /// The local of a variable.
    pub open spec fn local(self, v: NameId) -> u32 {
        local_of(self.order, v)->Some_0
    }
}

/// A piece of code stands at a place of the whole.
pub open spec fn at(code: Seq<Instr>, lo: int, piece: Seq<Instr>) -> bool {
    0 <= lo && lo + piece.len() <= code.len() && code.subrange(lo, lo + piece.len()) == piece
}

proof fn lemma_at(code: Seq<Instr>, lo: int, piece: Seq<Instr>, i: int)
    requires
        at(code, lo, piece),
        0 <= i < piece.len(),
    ensures
        code[lo + i] == piece[i],
{
    assert(code.subrange(lo, lo + piece.len())[i] == code[lo + i]);
}

proof fn lemma_split(code: Seq<Instr>, lo: int, a: Seq<Instr>, b: Seq<Instr>)
    requires
        at(code, lo, a + b),
    ensures
        at(code, lo, a),
        at(code, lo + a.len(), b),
{
    let both = a + b;
    assert(code.subrange(lo, lo + a.len()) =~= a) by {
        assert forall|i: int| 0 <= i < a.len() implies code[lo + i] == a[i] by {
            lemma_at(code, lo, both, i);
        }
    }
    assert(code.subrange(lo + a.len(), lo + a.len() + b.len()) =~= b) by {
        assert forall|i: int| 0 <= i < b.len() implies code[lo + a.len() + i] == b[i] by {
            lemma_at(code, lo, both, a.len() + i);
            assert(both[a.len() + i] == b[i]);
        }
    }
}

proof fn lemma_more_steps(code: Seq<Instr>, calls: Calls, m: Machine, a: nat, b: nat)
    ensures
        steps(code, calls, steps(code, calls, m, a), b) == steps(code, calls, m, a + b),
    decreases b,
{
    if b > 0 {
        lemma_more_steps(code, calls, m, a, (b - 1) as nat);
    }
}

proof fn lemma_then(s: Site, a: Machine, b: Machine, c: Machine)
    requires
        s.runs(a, b),
        s.runs(b, c),
    ensures
        s.runs(a, c),
{
    let n = choose|n: nat| #[trigger] steps(s.code, s.host.calls, a, n) == b;
    let k = choose|k: nat| #[trigger] steps(s.code, s.host.calls, b, k) == c;
    lemma_more_steps(s.code, s.host.calls, a, n, k);
    assert(steps(s.code, s.host.calls, a, n + k) == c);
}

proof fn lemma_stay(s: Site, m: Machine)
    ensures
        s.runs(m, m),
{
    assert(steps(s.code, s.host.calls, m, 0) == m);
}

/// One instruction.
proof fn lemma_step(s: Site, m: Machine)
    ensures
        s.runs(m, step(s.code, s.host.calls, m)),
{
    assert(steps(s.code, s.host.calls, m, 0) == m);
    assert(steps(s.code, s.host.calls, m, 1) == step(s.code, s.host.calls, m));
}

/// The machine further on, with another stack.
spec fn moved(m: Machine, n: int, stack: Seq<Slot>) -> Machine {
    Machine { pc: m.pc + n, stack, ..m }
}

/// A call of a function of the host.
proof fn lemma_call(
    s: Site,
    m: Machine,
    index: u32,
    name: Seq<char>,
    below: Seq<Slot>,
    args: Seq<Slot>,
    left: Seq<Slot>,
    host: HostState,
)
    requires
        s.code[m.pc] == Instr::Call(index),
        takes(index, name, args.len()),
        m.stack == below + args,
        (s.host.calls)(name, args, m.host) == (left, host),
    ensures
        s.runs(m, Machine { pc: m.pc + 1, stack: below + left, host, ..m }),
{
    lemma_step(s, m);
    let taken = m.stack.len() - args.len();
    assert(m.stack.skip(taken) =~= args);
    assert(m.stack.take(taken) =~= below);
}

/// Every variable of the set has a local, and it holds what the variable does.
pub open spec fn held(s: Site, bound: Set<NameId>, env: Env, locals: Map<u32, Slot>) -> bool {
    forall|v: NameId| #[trigger]
        bound.contains(v) ==> s.order.contains(v) && locals[s.local(v)] == Slot::Ref(env[v])
}

/// The operand is a variable of the set, or a constant whose text can be counted.
pub open spec fn readable(bound: Set<NameId>, o: Operand) -> bool {
    match o {
        Operand::Var(v) => bound.contains(v),
        Operand::Const(Constant::String(t)) => t.0 < i32::MAX,
        Operand::Const(Constant::Name(n)) => n.0 < i32::MAX,
        Operand::Const(_) => true,
    }
}

pub open spec fn all_readable(bound: Set<NameId>, ops: Seq<Operand>) -> bool {
    forall|i: int| 0 <= i < ops.len() ==> readable(bound, #[trigger] ops[i])
}

proof fn lemma_local(s: Site, v: NameId)
    requires
        s.order.contains(v),
        s.order.no_duplicates(),
        s.order.len() + 2 <= u32::MAX,
    ensures
        local_of(s.order, v) is Some,
        s.local(v) == s.order.index_of(v) + 2,
        2 <= s.local(v) < s.order.len() + 2,
        s.order[s.local(v) - 2] == v,
{
    let i = s.order.index_of(v);
    assert(0 <= i < s.order.len() && s.order[i] == v);
}

/// The code of an operand leaves its value.
#[verifier::rlimit(30)]
proof fn lemma_operand(s: Site, o: Operand, bound: Set<NameId>, env: Env, m: Machine)
    requires
        s.wf(),
        at(s.code, m.pc, operand_code(s.order, o)),
        readable(bound, o),
        held(s, bound, env, m.locals),
    ensures
        s.runs(
            m,
            moved(
                m,
                operand_code(s.order, o).len() as int,
                m.stack.push(Slot::Ref(operand(s.w, env, o))),
            ),
        ),
{
    let piece = operand_code(s.order, o);
    lemma_imports();
    match o {
        Operand::Var(v) => {
            lemma_local(s, v);
            lemma_at(s.code, m.pc, piece, 0);
            lemma_step(s, m);
        },
        Operand::Const(c) => {
            lemma_at(s.code, m.pc, piece, 0);
            lemma_at(s.code, m.pc, piece, 1);
            lemma_step(s, m);
            let next = step(s.code, s.host.calls, m);
            let value = Slot::Ref((s.w.constant)(c));
            let (index, name, arg) = match c {
                Constant::Number(n) => (IMP_CONST_NUMBER, "const_number"@, Slot::Long(n)),
                Constant::Float(b) => {
                    assert((b as i64) as u64 == b) by (bit_vector);
                    (IMP_CONST_FLOAT, "const_float"@, Slot::Long(b as i64))
                },
                Constant::String(t) => (IMP_CONST_STRING, "const_string"@, Slot::Num(t.0 + 1)),
                Constant::Name(n) => (IMP_CONST_NAME, "const_name"@, Slot::Num(n.0 + 1)),
                Constant::Time(t) => (IMP_CONST_TIME, "const_time"@, Slot::Long(t)),
                Constant::Duration(d) => (IMP_CONST_DURATION, "const_duration"@, Slot::Long(d)),
            };
            assert(next.stack =~= m.stack + one(arg));
            lemma_call(s, next, index, name, m.stack, one(arg), one(value), m.host);
            assert(m.stack + one(value) =~= m.stack.push(value));
            lemma_then(s, m, next, moved(m, 2, m.stack.push(value)));
        },
    }
}

/// The locals once the first `n` columns of a row are put into those of variables.
pub open spec fn with_columns(s: Site, vars: Seq<NameId>, row: Seq<Val>, locals: Map<u32, Slot>, n: nat) -> Map<
    u32,
    Slot,
>
    decreases n,
{
    if n == 0 {
        locals
    } else {
        with_columns(s, vars, row, locals, (n - 1) as nat).insert(s.local(vars[n - 1]), Slot::Ref(row[n - 1]))
    }
}

/// Only the locals of variables change.
proof fn lemma_other_locals(s: Site, vars: Seq<NameId>, row: Seq<Val>, locals: Map<u32, Slot>, n: nat)
    requires
        s.wf(),
        n <= vars.len(),
        forall|k: int| 0 <= k < vars.len() ==> s.order.contains(#[trigger] vars[k]),
    ensures
        forall|i: u32| i < 2 || i >= s.order.len() + 2 ==> #[trigger] with_columns(s, vars, row, locals, n)[i] == locals[i],
        forall|v: NameId|
            s.order.contains(v) && (forall|k: int| 0 <= k < n ==> vars[k] != v) ==> #[trigger] with_columns(
                s,
                vars,
                row,
                locals,
                n,
            )[s.local(v)] == locals[s.local(v)],
    decreases n,
{
    if n > 0 {
        lemma_other_locals(s, vars, row, locals, (n - 1) as nat);
        lemma_local(s, vars[n - 1]);
        assert forall|i: u32| i < 2 || i >= s.order.len() + 2 implies #[trigger] with_columns(s, vars, row, locals, n)[i]
            == locals[i] by {
            assert(with_columns(s, vars, row, locals, (n - 1) as nat)[i] == locals[i]);
        }
        assert forall|v: NameId|
            s.order.contains(v) && (forall|k: int| 0 <= k < n ==> vars[k] != v) implies #[trigger] with_columns(
            s,
            vars,
            row,
            locals,
            n,
        )[s.local(v)] == locals[s.local(v)] by {
            lemma_local(s, v);
            assert(vars[n - 1] != v);
            let before = with_columns(s, vars, row, locals, (n - 1) as nat);
            assert(before[s.local(v)] == locals[s.local(v)]);
        }
    }
}

/// The code of columns puts the values of the row into the locals of variables, each column into
/// that of the variable at its place.
#[verifier::rlimit(40)]
proof fn lemma_columns(s: Site, vars: Seq<NameId>, n: nat, row: Seq<Val>, p: int, m: Machine)
    requires
        s.wf(),
        n <= vars.len(),
        vars.len() <= i32::MAX,
        forall|k: int| 0 <= k < vars.len() ==> s.order.contains(#[trigger] vars[k]),
        at(s.code, m.pc, columns_code(WasmImportsBackend, s.order, vars, n)),
        m.locals[1] == Slot::Num(p),
        0 < p <= m.host.rows.len(),
        m.host.rows[p - 1] == row,
        row.len() == vars.len(),
    ensures
        s.runs(
            m,
            Machine {
                pc: m.pc + columns_code(WasmImportsBackend, s.order, vars, n).len(),
                locals: with_columns(s, vars, row, m.locals, n),
                ..m
            },
        ),
    decreases n,
{
    let b = WasmImportsBackend;
    if n == 0 {
        lemma_stay(s, m);
    } else {
        let before = columns_code(b, s.order, vars, (n - 1) as nat);
        let v = vars[n - 1];
        lemma_local(s, v);
        let local = s.local(v);
        let get = b.get_col(1, (n - 1) as u32);
        let set = seq![Instr::LocalSet(local)];
        assert(columns_code(b, s.order, vars, n) == before + get + set);
        lemma_split(s.code, m.pc, before + get, set);
        lemma_split(s.code, m.pc, before, get);
        lemma_columns(s, vars, (n - 1) as nat, row, p, m);
        lemma_other_locals(s, vars, row, m.locals, (n - 1) as nat);
        let a = Machine {
            pc: m.pc + before.len(),
            locals: with_columns(s, vars, row, m.locals, (n - 1) as nat),
            ..m
        };
        assert(a.locals[1] == Slot::Num(p));
        lemma_at(s.code, a.pc, get, 0);
        lemma_at(s.code, a.pc, get, 1);
        lemma_at(s.code, a.pc, get, 2);
        lemma_at(s.code, a.pc + 3, set, 0);
        lemma_imports();
        let x = moved(a, 1, a.stack.push(Slot::Num(p)));
        lemma_step(s, a);
        let y = moved(a, 2, a.stack.push(Slot::Num(p)).push(Slot::Num(n - 1)));
        lemma_step(s, x);
        lemma_then(s, a, x, y);
        let args = two(Slot::Num(p), Slot::Num(n - 1));
        assert(y.stack =~= a.stack + args);
        let value = Slot::Ref(row[n - 1]);
        lemma_call(s, y, IMP_GET_COL, "get_col"@, a.stack, args, one(value), a.host);
        let z = moved(a, 3, a.stack.push(value));
        assert(a.stack + one(value) =~= a.stack.push(value));
        lemma_then(s, a, y, z);
        lemma_step(s, z);
        let e = Machine {
            pc: m.pc + columns_code(b, s.order, vars, n).len(),
            locals: with_columns(s, vars, row, m.locals, n),
            ..m
        };
        assert(z.stack.drop_last() =~= m.stack);
        assert(step(s.code, s.host.calls, z) == e);
        lemma_then(s, a, z, e);
        lemma_then(s, m, a, e);
    }
}

/// The locals of columns hold what the variables do once the row is bound to them.
proof fn lemma_columns_held(
    s: Site,
    bound: Set<NameId>,
    env: Env,
    vars: Seq<NameId>,
    row: Seq<Val>,
    locals: Map<u32, Slot>,
    n: nat,
)
    requires
        s.wf(),
        n <= vars.len(),
        forall|k: int| 0 <= k < vars.len() ==> s.order.contains(#[trigger] vars[k]),
        held(s, bound, env, locals),
    ensures
        held(
            s,
            bound.union(vars.take(n as int).to_set()),
            bind(env, vars, row, n),
            with_columns(s, vars, row, locals, n),
        ),
    decreases n,
{
    let all = bound.union(vars.take(n as int).to_set());
    if n == 0 {
        assert(all =~= bound);
    } else {
        lemma_columns_held(s, bound, env, vars, row, locals, (n - 1) as nat);
        let some = bound.union(vars.take(n - 1).to_set());
        lemma_local(s, vars[n - 1]);
        let now = with_columns(s, vars, row, locals, n);
        assert forall|v: NameId| #[trigger] all.contains(v) implies s.order.contains(v) && now[s.local(v)]
            == Slot::Ref(bind(env, vars, row, n)[v]) by {
            if v != vars[n - 1] {
                assert(some.contains(v)) by {
                    if !bound.contains(v) {
                        let k = vars.take(n as int).index_of(v);
                        assert(vars.take(n as int)[k] == v);
                        assert(vars.take(n - 1)[k] == v);
                    }
                }
                lemma_local(s, v);
            }
        }
    }
}

/// After the code of the columns of a scan, the local of the variable at a place holds the value
/// of the row in the column of that place, unless a later place has the same variable.
pub proof fn a_column_goes_to_its_variable(
    s: Site,
    vars: Seq<NameId>,
    row: Seq<Val>,
    p: int,
    m: Machine,
    k: int,
) -> (r: Machine)
    requires
        s.wf(),
        vars.len() <= i32::MAX,
        forall|j: int| 0 <= j < vars.len() ==> s.order.contains(#[trigger] vars[j]),
        at(s.code, m.pc, columns_code(WasmImportsBackend, s.order, vars, vars.len())),
        m.locals[1] == Slot::Num(p),
        0 < p <= m.host.rows.len(),
        m.host.rows[p - 1] == row,
        row.len() == vars.len(),
        0 <= k < vars.len(),
        forall|j: int| k < j < vars.len() ==> vars[j] != vars[k],
    ensures
        s.runs(m, r),
        r.pc == m.pc + columns_code(WasmImportsBackend, s.order, vars, vars.len()).len(),
        r.stack == m.stack,
        r.labels == m.labels,
        r.host == m.host,
        r.locals[s.local(vars[k])] == Slot::Ref(row[k]),
{
    lemma_columns(s, vars, vars.len(), row, p, m);
    lemma_last_column(s, vars, row, m.locals, vars.len(), k);
    Machine {
        pc: m.pc + columns_code(WasmImportsBackend, s.order, vars, vars.len()).len(),
        locals: with_columns(s, vars, row, m.locals, vars.len()),
        ..m
    }
}

proof fn lemma_last_column(s: Site, vars: Seq<NameId>, row: Seq<Val>, locals: Map<u32, Slot>, n: nat, k: int)
    requires
        s.wf(),
        0 <= k < n <= vars.len(),
        forall|j: int| 0 <= j < vars.len() ==> s.order.contains(#[trigger] vars[j]),
        forall|j: int| k < j < n ==> vars[j] != vars[k],
    ensures
        with_columns(s, vars, row, locals, n)[s.local(vars[k])] == Slot::Ref(row[k]),
    decreases n,
{
    lemma_local(s, vars[k]);
    lemma_local(s, vars[n - 1]);
    if k < n - 1 {
        assert(vars[n - 1] != vars[k]);
        lemma_last_column(s, vars, row, locals, (n - 1) as nat, k);
    }
}

/// The code has no block in it, and ends none.
spec fn straight(piece: Seq<Instr>) -> bool {
    forall|i: int|
        0 <= i < piece.len() ==> !(#[trigger] piece[i] is Block) && !(piece[i] is Loop) && !(piece[i] is If)
            && !(piece[i] is End)
}

proof fn lemma_straight_both(a: Seq<Instr>, b: Seq<Instr>)
    requires
        straight(a),
        straight(b),
    ensures
        straight(a + b),
{
    let both = a + b;
    assert forall|i: int| 0 <= i < both.len() implies !(#[trigger] both[i] is Block) && !(both[i] is Loop)
        && !(both[i] is If) && !(both[i] is End) by {
        if i < a.len() {
            assert(both[i] == a[i]);
        } else {
            assert(both[i] == b[i - a.len()]);
        }
    }
}

proof fn lemma_straight_operands(order: Seq<NameId>, ops: Seq<Operand>, n: nat, after: Seq<Instr>)
    requires
        n <= ops.len(),
        straight(after),
    ensures
        straight(operands_code(order, ops, n, after)),
    decreases n,
{
    if n > 0 {
        lemma_straight_operands(order, ops, (n - 1) as nat, after);
        lemma_straight_both(operands_code(order, ops, (n - 1) as nat, after), operand_code(order, ops[n - 1]));
        lemma_straight_both(
            operands_code(order, ops, (n - 1) as nat, after) + operand_code(order, ops[n - 1]),
            after,
        );
    }
}

proof fn lemma_straight_fold(order: Seq<NameId>, ops: Seq<Operand>, n: nat, index: u32)
    requires
        n <= ops.len(),
    ensures
        straight(fold_code(order, ops, n, index)),
    decreases n,
{
    if n > 1 {
        lemma_straight_fold(order, ops, (n - 1) as nat, index);
        lemma_straight_both(fold_code(order, ops, (n - 1) as nat, index), operand_code(order, ops[n - 1]));
        lemma_straight_both(
            fold_code(order, ops, (n - 1) as nat, index) + operand_code(order, ops[n - 1]),
            seq![Instr::Call(index)],
        );
    }
}

proof fn lemma_straight_expr(g: Graph, order: Seq<NameId>, t: Term)
    ensures
        straight(expr_code(g, order, t)),
{
    if let Term::Call { function, args } = t {
        match shape_of(g.name(function)) {
            Shape::Fold(index) => {
                lemma_straight_fold(order, args, args.len(), index);
            },
            Shape::Unary(index) => {},
            Shape::Exactly(n, index) => {
                lemma_straight_operands(order, args, args.len(), Seq::empty());
            },
            Shape::Compound(kind) => {
                let push = seq![Instr::Call(IMP_COMPOUND_PUSH)];
                let open = seq![Instr::I32Const(kind), Instr::Call(IMP_COMPOUND_BEGIN)];
                let all = operands_code(order, args, args.len(), push);
                lemma_straight_operands(order, args, args.len(), push);
                lemma_straight_both(open, all);
                lemma_straight_both(open + all, seq![Instr::Call(IMP_COMPOUND_END)]);
            },
            Shape::Unknown => {
                let all = operands_code(order, args, args.len(), Seq::empty());
                let drops = crate::codegen::repeated(Instr::Drop, args.len());
                lemma_straight_operands(order, args, args.len(), Seq::empty());
                lemma_straight_both(all, drops);
                lemma_straight_both(all + drops, seq![Instr::RefNull]);
            },
        }
    }
}

proof fn lemma_straight_cond(order: Seq<NameId>, c: Test)
    ensures
        straight(cond_code(order, c)),
{
    if let Test::Compare { op, left, right } = c {
        lemma_straight_both(operand_code(order, left), operand_code(order, right));
        lemma_straight_both(
            operand_code(order, left) + operand_code(order, right),
            seq![Instr::Call(compare_import(op))],
        );
    }
}

proof fn lemma_straight_columns(order: Seq<NameId>, vars: Seq<NameId>, n: nat)
    requires
        n <= vars.len(),
    ensures
        straight(columns_code(WasmImportsBackend, order, vars, n)),
    decreases n,
{
    if n > 0 {
        let b = WasmImportsBackend;
        lemma_straight_columns(order, vars, (n - 1) as nat);
        if let Some(local) = local_of(order, vars[n - 1]) {
            let before = columns_code(b, order, vars, (n - 1) as nat);
            lemma_straight_both(before, b.get_col(1, (n - 1) as u32));
            lemma_straight_both(before + b.get_col(1, (n - 1) as u32), seq![Instr::LocalSet(local)]);
        }
    }
}

proof fn lemma_straight_start(g: Graph, order: Seq<NameId>, source: Source)
    ensures
        straight(start_code(WasmImportsBackend, g, order, source)),
{
    let b = WasmImportsBackend;
    if let Source::IndexLookup { relation, col_idx, key, .. } = source {
        lemma_straight_both(operand_code(order, key), b.scan_index_start(g.name(relation), col_idx as u32));
    }
}

/// An end that is looked for is not within straight code.
proof fn lemma_skip(code: Seq<Instr>, lo: int, piece: Seq<Instr>, d: nat)
    requires
        at(code, lo, piece),
        straight(piece),
    ensures
        close(code, lo, d) == close(code, lo + piece.len(), d),
    decreases piece.len(),
{
    if piece.len() > 0 {
        lemma_at(code, lo, piece, 0);
        assert(!(piece[0] is Block));
        let rest = piece.skip(1);
        assert(piece =~= seq![piece[0]] + rest);
        lemma_split(code, lo, seq![piece[0]], rest);
        assert forall|i: int| 0 <= i < rest.len() implies !(#[trigger] rest[i] is Block) && !(rest[i] is Loop)
            && !(rest[i] is If) && !(rest[i] is End) by {
            assert(rest[i] == piece[i + 1]);
        }
        lemma_skip(code, lo + 1, rest, d);
    }
}

/// An end that is looked for is not within the code of a plan.
#[verifier::rlimit(40)]
proof fn lemma_skip_plan(code: Seq<Instr>, g: Graph, order: Seq<NameId>, offset: u32, p: Plan, lo: int, d: nat)
    requires
        at(code, lo, plan_code(WasmImportsBackend, g, order, offset, p).0),
    ensures
        close(code, lo, d) == close(code, lo + plan_code(WasmImportsBackend, g, order, offset, p).0.len(), d),
    decreases p, 2nat, 0nat,
{
    let b = WasmImportsBackend;
    let piece = plan_code(b, g, order, offset, p).0;
    match p {
        Plan::Iterate { source, body } => {
            let iter = local_at(order.len() as int).wrapping_add(offset);
            let inner = plan_code(b, g, order, offset.wrapping_add(1), *body).0;
            let start = start_code(b, g, order, source);
            let opening = seq![Instr::LocalSet(iter), Instr::Block, Instr::Loop];
            let next = b.scan_next(iter);
            let leave = seq![Instr::LocalTee(1), Instr::I32Eqz, Instr::BrIf(1)];
            let columns = columns_code(b, order, source_vars(source), source_vars(source).len());
            let ends = seq![Instr::Br(0), Instr::End, Instr::End];
            let head = start + opening + next + leave + columns;
            assert(piece == head + inner + ends);
            lemma_split(code, lo, head + inner, ends);
            lemma_split(code, lo, head, inner);
            lemma_split(code, lo, start + opening + next + leave, columns);
            lemma_split(code, lo, start + opening + next, leave);
            lemma_split(code, lo, start + opening, next);
            lemma_split(code, lo, start, opening);
            lemma_straight_start(g, order, source);
            lemma_skip(code, lo, start, d);
            let at1 = lo + start.len();
            lemma_at(code, at1, opening, 0);
            lemma_at(code, at1, opening, 1);
            lemma_at(code, at1, opening, 2);
            lemma_skip(code, at1 + 3, next, d + 2);
            lemma_skip(code, at1 + 5, leave, d + 2);
            lemma_straight_columns(order, source_vars(source), source_vars(source).len());
            lemma_skip(code, at1 + 8, columns, d + 2);
            let at2 = at1 + 8 + columns.len();
            lemma_skip_plan(code, g, order, offset.wrapping_add(1), *body, at2, d + 2);
            let at3 = at2 + inner.len();
            lemma_at(code, at3, ends, 0);
            lemma_at(code, at3, ends, 1);
            lemma_at(code, at3, ends, 2);
            assert(close(code, at1, d) == close(code, at1 + 1, d));
            assert(close(code, at1 + 1, d) == close(code, at1 + 2, d + 1));
            assert(close(code, at1 + 2, d + 1) == close(code, at1 + 3, d + 2));
            assert(close(code, at3, d + 2) == close(code, at3 + 1, d + 2));
            assert(close(code, at3 + 1, d + 2) == close(code, at3 + 2, d + 1));
            assert(close(code, at3 + 2, d + 1) == close(code, at3 + 3, d));
        },
        Plan::Filter { cond, body } => {
            let test = cond_code(order, cond);
            let inner = plan_code(b, g, order, offset, *body).0;
            lemma_split(code, lo, test + seq![Instr::If] + inner, seq![Instr::End]);
            lemma_split(code, lo, test + seq![Instr::If], inner);
            lemma_split(code, lo, test, seq![Instr::If]);
            lemma_straight_cond(order, cond);
            lemma_skip(code, lo, test, d);
            lemma_at(code, lo + test.len(), seq![Instr::If], 0);
            lemma_skip_plan(code, g, order, offset, *body, lo + test.len() + 1, d + 1);
            lemma_at(code, lo + test.len() + 1 + inner.len(), seq![Instr::End], 0);
            assert(close(code, lo + test.len(), d) == close(code, lo + test.len() + 1, d + 1));
        },
        Plan::Let { var, expr, body } => {
            let value = expr_code(g, order, expr);
            let kept = match local_of(order, var) {
                Some(local) => Instr::LocalSet(local),
                None => Instr::Drop,
            };
            let inner = plan_code(b, g, order, offset, *body).0;
            lemma_split(code, lo, value + seq![kept], inner);
            lemma_straight_expr(g, order, expr);
            lemma_straight_both(value, seq![kept]);
            lemma_skip(code, lo, value + seq![kept], d);
            lemma_skip_plan(code, g, order, offset, *body, lo + value.len() + 1, d);
        },
        Plan::Insert { relation, args } => {
            let open = b.insert_begin(g.name(relation));
            let all = operands_code(order, args, args.len(), b.insert_push());
            lemma_straight_operands(order, args, args.len(), b.insert_push());
            lemma_straight_both(open, all);
            lemma_straight_both(open + all, b.insert_end());
            lemma_skip(code, lo, piece, d);
        },
        Plan::Sequence(ps) => {
            lemma_skip_plans(code, g, order, offset, ps, ps.len(), lo, d);
        },
        _ => {},
    }
}

proof fn lemma_skip_plans(
    code: Seq<Instr>,
    g: Graph,
    order: Seq<NameId>,
    offset: u32,
    ps: Seq<Plan>,
    n: nat,
    lo: int,
    d: nat,
)
    requires
        n <= ps.len(),
        at(code, lo, plans_code(WasmImportsBackend, g, order, offset, ps, n).0),
    ensures
        close(code, lo, d) == close(
            code,
            lo + plans_code(WasmImportsBackend, g, order, offset, ps, n).0.len(),
            d,
        ),
    decreases ps, 1nat, n,
{
    if n > 0 {
        let b = WasmImportsBackend;
        let (before, o) = plans_code(b, g, order, offset, ps, (n - 1) as nat);
        let last = plan_code(b, g, order, o, ps[n - 1]).0;
        lemma_split(code, lo, before, last);
        lemma_skip_plans(code, g, order, offset, ps, (n - 1) as nat, lo, d);
        lemma_skip_plan(code, g, order, o, ps[n - 1], lo + before.len(), d);
    }
}

/// The values of the first operands.
proof fn lemma_first_values(w: World, env: Env, ops: Seq<Operand>, n: nat)
    requires
        0 < n <= ops.len(),
    ensures
        operand_values(w, env, ops).take(n as int) == operand_values(w, env, ops).take(n - 1).push(
            operand(w, env, ops[n - 1]),
        ),
{
    assert(operand_values(w, env, ops).take(n as int) =~= operand_values(w, env, ops).take(n - 1).push(
        operand(w, env, ops[n - 1]),
    ));
}

/// The code of the values of a new row.
proof fn lemma_pushes(s: Site, ops: Seq<Operand>, n: nat, bound: Set<NameId>, env: Env, m: Machine)
    requires
        s.wf(),
        n <= ops.len(),
        all_readable(bound, ops),
        held(s, bound, env, m.locals),
        at(s.code, m.pc, operands_code(s.order, ops, n, WasmImportsBackend.insert_push())),
    ensures
        s.runs(
            m,
            Machine {
                pc: m.pc + operands_code(s.order, ops, n, WasmImportsBackend.insert_push()).len(),
                host: HostState {
                    row: m.host.row + operand_values(s.w, env, ops).take(n as int),
                    ..m.host
                },
                ..m
            },
        ),
    decreases n,
{
    let push = WasmImportsBackend.insert_push();
    let vs = operand_values(s.w, env, ops);
    if n == 0 {
        lemma_stay(s, m);
        assert(m.host.row + vs.take(0) =~= m.host.row);
    } else {
        let before = operands_code(s.order, ops, (n - 1) as nat, push);
        let one_code = operand_code(s.order, ops[n - 1]);
        lemma_split(s.code, m.pc, before + one_code, push);
        lemma_split(s.code, m.pc, before, one_code);
        lemma_pushes(s, ops, (n - 1) as nat, bound, env, m);
        let a = Machine {
            pc: m.pc + before.len(),
            host: HostState { row: m.host.row + vs.take(n - 1), ..m.host },
            ..m
        };
        let v = operand(s.w, env, ops[n - 1]);
        assert(readable(bound, ops[n - 1]));
        lemma_operand(s, ops[n - 1], bound, env, a);
        let x = moved(a, one_code.len() as int, a.stack.push(Slot::Ref(v)));
        lemma_at(s.code, x.pc, push, 0);
        lemma_imports();
        assert(x.stack =~= a.stack + one(Slot::Ref(v)));
        let host = HostState { row: a.host.row.push(v), ..a.host };
        lemma_call(s, x, IMP_INSERT_PUSH, "insert_push"@, a.stack, one(Slot::Ref(v)), Seq::empty(), host);
        lemma_first_values(s.w, env, ops, n);
        assert(host.row =~= m.host.row + vs.take(n as int));
        assert(a.stack + Seq::<Slot>::empty() =~= m.stack);
        let e = Machine {
            pc: m.pc + operands_code(s.order, ops, n, push).len(),
            host: HostState { row: m.host.row + vs.take(n as int), ..m.host },
            ..m
        };
        lemma_then(s, a, x, e);
        lemma_then(s, m, a, e);
    }
}

/// The code of the parts of a compound value.
proof fn lemma_parts(s: Site, ops: Seq<Operand>, n: nat, bound: Set<NameId>, env: Env, m: Machine)
    requires
        s.wf(),
        n <= ops.len(),
        all_readable(bound, ops),
        held(s, bound, env, m.locals),
        at(s.code, m.pc, operands_code(s.order, ops, n, seq![Instr::Call(IMP_COMPOUND_PUSH)])),
    ensures
        s.runs(
            m,
            Machine {
                pc: m.pc + operands_code(s.order, ops, n, seq![Instr::Call(IMP_COMPOUND_PUSH)]).len(),
                host: HostState {
                    parts: m.host.parts + operand_values(s.w, env, ops).take(n as int),
                    ..m.host
                },
                ..m
            },
        ),
    decreases n,
{
    let push = seq![Instr::Call(IMP_COMPOUND_PUSH)];
    let vs = operand_values(s.w, env, ops);
    if n == 0 {
        lemma_stay(s, m);
        assert(m.host.parts + vs.take(0) =~= m.host.parts);
    } else {
        let before = operands_code(s.order, ops, (n - 1) as nat, push);
        let one_code = operand_code(s.order, ops[n - 1]);
        lemma_split(s.code, m.pc, before + one_code, push);
        lemma_split(s.code, m.pc, before, one_code);
        lemma_parts(s, ops, (n - 1) as nat, bound, env, m);
        let a = Machine {
            pc: m.pc + before.len(),
            host: HostState { parts: m.host.parts + vs.take(n - 1), ..m.host },
            ..m
        };
        let v = operand(s.w, env, ops[n - 1]);
        assert(readable(bound, ops[n - 1]));
        lemma_operand(s, ops[n - 1], bound, env, a);
        let x = moved(a, one_code.len() as int, a.stack.push(Slot::Ref(v)));
        lemma_at(s.code, x.pc, push, 0);
        lemma_imports();
        assert(x.stack =~= a.stack + one(Slot::Ref(v)));
        let host = HostState { parts: a.host.parts.push(v), ..a.host };
        lemma_call(s, x, IMP_COMPOUND_PUSH, "compound_push"@, a.stack, one(Slot::Ref(v)), Seq::empty(), host);
        lemma_first_values(s.w, env, ops, n);
        assert(host.parts =~= m.host.parts + vs.take(n as int));
        assert(a.stack + Seq::<Slot>::empty() =~= m.stack);
        let e = Machine {
            pc: m.pc + operands_code(s.order, ops, n, push).len(),
            host: HostState { parts: m.host.parts + vs.take(n as int), ..m.host },
            ..m
        };
        lemma_then(s, a, x, e);
        lemma_then(s, m, a, e);
    }
}

/// References to values.
spec fn refs(vs: Seq<Val>) -> Seq<Slot> {
    Seq::new(vs.len(), |i: int| Slot::Ref(vs[i]))
}

/// The code of operands leaves their values.
proof fn lemma_operands(s: Site, ops: Seq<Operand>, n: nat, bound: Set<NameId>, env: Env, m: Machine)
    requires
        s.wf(),
        n <= ops.len(),
        all_readable(bound, ops),
        held(s, bound, env, m.locals),
        at(s.code, m.pc, operands_code(s.order, ops, n, Seq::empty())),
    ensures
        s.runs(
            m,
            moved(
                m,
                operands_code(s.order, ops, n, Seq::empty()).len() as int,
                m.stack + refs(operand_values(s.w, env, ops).take(n as int)),
            ),
        ),
    decreases n,
{
    let vs = operand_values(s.w, env, ops);
    if n == 0 {
        lemma_stay(s, m);
        assert(m.stack + refs(vs.take(0)) =~= m.stack);
    } else {
        let before = operands_code(s.order, ops, (n - 1) as nat, Seq::empty());
        let one_code = operand_code(s.order, ops[n - 1]);
        assert(before + one_code + Seq::<Instr>::empty() =~= before + one_code);
        lemma_split(s.code, m.pc, before, one_code);
        lemma_operands(s, ops, (n - 1) as nat, bound, env, m);
        let a = moved(m, before.len() as int, m.stack + refs(vs.take(n - 1)));
        assert(readable(bound, ops[n - 1]));
        lemma_operand(s, ops[n - 1], bound, env, a);
        let e = moved(
            m,
            operands_code(s.order, ops, n, Seq::empty()).len() as int,
            m.stack + refs(vs.take(n as int)),
        );
        assert(a.stack.push(Slot::Ref(operand(s.w, env, ops[n - 1]))) =~= e.stack);
        lemma_then(s, m, a, e);
    }
}

/// What a function of two values of the host computes.
spec fn binary(s: Site, name: Seq<char>, f: spec_fn(Val, Val) -> Val) -> bool {
    forall|x: Val, y: Val, h: HostState| #[trigger]
        (s.host.calls)(name, two(Slot::Ref(x), Slot::Ref(y)), h) == (one(Slot::Ref(f(x, y))), h)
}

/// The code of a function of two values that is applied from the left.
proof fn lemma_fold(
    s: Site,
    ops: Seq<Operand>,
    n: nat,
    index: u32,
    name: Seq<char>,
    f: spec_fn(Val, Val) -> Val,
    bound: Set<NameId>,
    env: Env,
    m: Machine,
)
    requires
        s.wf(),
        n <= ops.len(),
        all_readable(bound, ops),
        held(s, bound, env, m.locals),
        takes(index, name, 2),
        binary(s, name, f),
        at(s.code, m.pc, fold_code(s.order, ops, n, index)),
    ensures
        s.runs(
            m,
            moved(
                m,
                fold_code(s.order, ops, n, index).len() as int,
                m.stack.push(Slot::Ref(folded(f, operand_values(s.w, env, ops).take(n as int)))),
            ),
        ),
    decreases n,
{
    let vs = operand_values(s.w, env, ops);
    let piece = fold_code(s.order, ops, n, index);
    if n == 0 {
        lemma_at(s.code, m.pc, piece, 0);
        lemma_step(s, m);
    } else if n == 1 {
        assert(readable(bound, ops[0]));
        lemma_operand(s, ops[0], bound, env, m);
    } else {
        let before = fold_code(s.order, ops, (n - 1) as nat, index);
        let one_code = operand_code(s.order, ops[n - 1]);
        let call = seq![Instr::Call(index)];
        lemma_split(s.code, m.pc, before + one_code, call);
        lemma_split(s.code, m.pc, before, one_code);
        lemma_fold(s, ops, (n - 1) as nat, index, name, f, bound, env, m);
        let so_far = folded(f, vs.take(n - 1));
        let a = moved(m, before.len() as int, m.stack.push(Slot::Ref(so_far)));
        let v = operand(s.w, env, ops[n - 1]);
        assert(readable(bound, ops[n - 1]));
        lemma_operand(s, ops[n - 1], bound, env, a);
        let x = moved(a, one_code.len() as int, a.stack.push(Slot::Ref(v)));
        lemma_at(s.code, x.pc, call, 0);
        let args = two(Slot::Ref(so_far), Slot::Ref(v));
        assert(x.stack =~= m.stack + args);
        let left = one(Slot::Ref(f(so_far, v)));
        lemma_call(s, x, index, name, m.stack, args, left, m.host);
        assert(vs.take(n as int).drop_last() =~= vs.take(n - 1));
        assert(vs.take(n as int).last() == v);
        assert(m.stack + left =~= m.stack.push(Slot::Ref(f(so_far, v))));
        let e = moved(m, piece.len() as int, m.stack.push(Slot::Ref(f(so_far, v))));
        lemma_then(s, a, x, e);
        lemma_then(s, m, a, e);
    }
}

/// What a function of one value of the host computes.
spec fn unary(s: Site, name: Seq<char>, f: spec_fn(Val) -> Val) -> bool {
    forall|x: Val, h: HostState| #[trigger]
        (s.host.calls)(name, one(Slot::Ref(x)), h) == (one(Slot::Ref(f(x))), h)
}

/// The code of a function of the first argument.
proof fn lemma_unary(
    s: Site,
    args: Seq<Operand>,
    index: u32,
    name: Seq<char>,
    f: spec_fn(Val) -> Val,
    bound: Set<NameId>,
    env: Env,
    m: Machine,
)
    requires
        s.wf(),
        args.len() > 0,
        all_readable(bound, args),
        held(s, bound, env, m.locals),
        takes(index, name, 1),
        unary(s, name, f),
        at(s.code, m.pc, call_code(s.order, Shape::Unary(index), args)),
    ensures
        s.runs(
            m,
            moved(
                m,
                call_code(s.order, Shape::Unary(index), args).len() as int,
                m.stack.push(Slot::Ref(f(operand_values(s.w, env, args)[0]))),
            ),
        ),
{
    let one_code = operand_code(s.order, args[0]);
    let call = seq![Instr::Call(index)];
    assert(one_code.push(Instr::Call(index)) =~= one_code + call);
    lemma_split(s.code, m.pc, one_code, call);
    assert(readable(bound, args[0]));
    lemma_operand(s, args[0], bound, env, m);
    let v = operand(s.w, env, args[0]);
    let x = moved(m, one_code.len() as int, m.stack.push(Slot::Ref(v)));
    lemma_at(s.code, x.pc, call, 0);
    assert(x.stack =~= m.stack + one(Slot::Ref(v)));
    lemma_call(s, x, index, name, m.stack, one(Slot::Ref(v)), one(Slot::Ref(f(v))), m.host);
    assert(m.stack + one(Slot::Ref(f(v))) =~= m.stack.push(Slot::Ref(f(v))));
    lemma_then(s, m, x, moved(m, (one_code.len() + 1) as int, m.stack.push(Slot::Ref(f(v)))));
}

/// The code of a compound value.
proof fn lemma_compound(s: Site, args: Seq<Operand>, kind: i32, bound: Set<NameId>, env: Env, m: Machine) -> (host: HostState)
    requires
        s.wf(),
        all_readable(bound, args),
        held(s, bound, env, m.locals),
        at(s.code, m.pc, call_code(s.order, Shape::Compound(kind), args)),
    ensures
        s.runs(
            m,
            Machine {
                host,
                ..moved(
                    m,
                    call_code(s.order, Shape::Compound(kind), args).len() as int,
                    m.stack.push(
                        Slot::Ref(
                            (s.host.arithmetic.compound)(kind as int, operand_values(s.w, env, args)),
                        ),
                    ),
                )
            },
        ),
        host == (HostState { kind: host.kind, parts: host.parts, ..m.host }),
{
    lemma_imports();
    let open = seq![Instr::I32Const(kind), Instr::Call(IMP_COMPOUND_BEGIN)];
    let push = seq![Instr::Call(IMP_COMPOUND_PUSH)];
    let all = operands_code(s.order, args, args.len(), push);
    let end = seq![Instr::Call(IMP_COMPOUND_END)];
    lemma_split(s.code, m.pc, open + all, end);
    lemma_split(s.code, m.pc, open, all);
    lemma_at(s.code, m.pc, open, 0);
    lemma_at(s.code, m.pc, open, 1);
    lemma_step(s, m);
    let k = Slot::Num(kind as int);
    let x = moved(m, 1, m.stack.push(k));
    let begun = HostState { kind: kind as int, parts: Seq::empty(), ..m.host };
    assert(x.stack =~= m.stack + one(k));
    lemma_call(s, x, IMP_COMPOUND_BEGIN, "compound_begin"@, m.stack, one(k), Seq::empty(), begun);
    assert(m.stack + Seq::<Slot>::empty() =~= m.stack);
    let y = Machine { host: begun, ..moved(m, 2, m.stack) };
    lemma_then(s, m, x, y);
    lemma_parts(s, args, args.len(), bound, env, y);
    let vs = operand_values(s.w, env, args);
    assert(begun.parts + vs.take(args.len() as int) =~= vs);
    let host = HostState { parts: vs, ..begun };
    let z = Machine { host, ..moved(m, (2 + all.len()) as int, m.stack) };
    lemma_then(s, m, y, z);
    lemma_at(s.code, z.pc, end, 0);
    let value = Slot::Ref((s.host.arithmetic.compound)(kind as int, vs));
    assert(z.stack =~= m.stack + Seq::<Slot>::empty());
    lemma_call(s, z, IMP_COMPOUND_END, "compound_end"@, m.stack, Seq::empty(), one(value), host);
    assert(m.stack + one(value) =~= m.stack.push(value));
    lemma_then(s, m, z, Machine { host, ..moved(m, (3 + all.len()) as int, m.stack.push(value)) });
    host
}

/// The code of replacing in a text.
proof fn lemma_replace(s: Site, args: Seq<Operand>, bound: Set<NameId>, env: Env, m: Machine)
    requires
        s.wf(),
        args.len() == 4,
        all_readable(bound, args),
        held(s, bound, env, m.locals),
        at(s.code, m.pc, call_code(s.order, Shape::Exactly(4, IMP_STR_REPLACE), args)),
    ensures
        ({
            let vs = operand_values(s.w, env, args);
            s.runs(
                m,
                moved(
                    m,
                    call_code(s.order, Shape::Exactly(4, IMP_STR_REPLACE), args).len() as int,
                    m.stack.push(Slot::Ref((s.host.arithmetic.replaced)(vs[0], vs[1], vs[2], vs[3]))),
                ),
            )
        }),
{
    lemma_imports();
    let all = operands_code(s.order, args, 4, Seq::empty());
    let call = seq![Instr::Call(IMP_STR_REPLACE)];
    assert(all.push(Instr::Call(IMP_STR_REPLACE)) =~= all + call);
    lemma_split(s.code, m.pc, all, call);
    lemma_operands(s, args, 4, bound, env, m);
    let vs = operand_values(s.w, env, args);
    let given = four(Slot::Ref(vs[0]), Slot::Ref(vs[1]), Slot::Ref(vs[2]), Slot::Ref(vs[3]));
    assert(refs(vs.take(4)) =~= given);
    let x = moved(m, all.len() as int, m.stack + given);
    lemma_at(s.code, x.pc, call, 0);
    let value = Slot::Ref((s.host.arithmetic.replaced)(vs[0], vs[1], vs[2], vs[3]));
    lemma_call(s, x, IMP_STR_REPLACE, "str_replace"@, m.stack, given, one(value), m.host);
    assert(m.stack + one(value) =~= m.stack.push(value));
    lemma_then(s, m, x, moved(m, (all.len() + 1) as int, m.stack.push(value)));
}

/// The code of taking a part.
proof fn lemma_part(s: Site, args: Seq<Operand>, bound: Set<NameId>, env: Env, m: Machine)
    requires
        s.wf(),
        args.len() == 2,
        all_readable(bound, args),
        held(s, bound, env, m.locals),
        at(s.code, m.pc, call_code(s.order, Shape::Exactly(2, IMP_COMPOUND_GET), args)),
    ensures
        ({
            let vs = operand_values(s.w, env, args);
            s.runs(
                m,
                moved(
                    m,
                    call_code(s.order, Shape::Exactly(2, IMP_COMPOUND_GET), args).len() as int,
                    m.stack.push(Slot::Ref((s.host.arithmetic.part)(vs[0], vs[1]))),
                ),
            )
        }),
{
    lemma_imports();
    let all = operands_code(s.order, args, 2, Seq::empty());
    let call = seq![Instr::Call(IMP_COMPOUND_GET)];
    assert(all.push(Instr::Call(IMP_COMPOUND_GET)) =~= all + call);
    lemma_split(s.code, m.pc, all, call);
    lemma_operands(s, args, 2, bound, env, m);
    let vs = operand_values(s.w, env, args);
    let given = two(Slot::Ref(vs[0]), Slot::Ref(vs[1]));
    assert(refs(vs.take(2)) =~= given);
    let x = moved(m, all.len() as int, m.stack + given);
    lemma_at(s.code, x.pc, call, 0);
    let value = Slot::Ref((s.host.arithmetic.part)(vs[0], vs[1]));
    lemma_call(s, x, IMP_COMPOUND_GET, "compound_get"@, m.stack, given, one(value), m.host);
    assert(m.stack + one(value) =~= m.stack.push(value));
    lemma_then(s, m, x, moved(m, (all.len() + 1) as int, m.stack.push(value)));
}

/// The expression reads readable operands, and the host computes its function.
pub open spec fn evaluable(g: Graph, bound: Set<NameId>, t: Term) -> bool {
    match t {
        Term::Value(o) => readable(bound, o),
        Term::Call { function, args } => all_readable(bound, args) && computable(g.name(function), args.len()),
    }
}

/// The code of an expression leaves its value.
#[verifier::rlimit(60)]
#[verifier::spinoff_prover]
proof fn lemma_expr(s: Site, t: Term, bound: Set<NameId>, env: Env, m: Machine) -> (host: HostState)
    requires
        s.wf(),
        evaluable(s.g, bound, t),
        held(s, bound, env, m.locals),
        at(s.code, m.pc, expr_code(s.g, s.order, t)),
    ensures
        s.runs(
            m,
            Machine {
                host,
                ..moved(
                    m,
                    expr_code(s.g, s.order, t).len() as int,
                    m.stack.push(Slot::Ref(term_value(s.w, s.g.names, env, t))),
                )
            },
        ),
        host == (HostState { kind: host.kind, parts: host.parts, ..m.host }),
{
    match t {
        Term::Value(o) => {
            lemma_operand(s, o, bound, env, m);
            m.host
        },
        Term::Call { function, args } => {
            let f = s.g.name(function);
            let a = s.host.arithmetic;
            let vs = operand_values(s.w, env, args);
            lemma_imports();
            lemma_shapes(a, vs);
            assert((s.w.apply)(f, vs) == computed(a, f, vs));
            assert(vs.take(args.len() as int) =~= vs);
            if f == "fn:plus"@ || f == "fn:float:plus"@ {
                assert(binary(s, "val_add"@, a.plus));
                lemma_fold(s, args, args.len(), IMP_VAL_ADD, "val_add"@, a.plus, bound, env, m);
                m.host
            } else if f == "fn:minus"@ || f == "fn:float:minus"@ {
                assert(binary(s, "val_sub"@, a.minus));
                lemma_fold(s, args, args.len(), IMP_VAL_SUB, "val_sub"@, a.minus, bound, env, m);
                m.host
            } else if f == "fn:mult"@ || f == "fn:float:mult"@ {
                assert(binary(s, "val_mul"@, a.times));
                lemma_fold(s, args, args.len(), IMP_VAL_MUL, "val_mul"@, a.times, bound, env, m);
                m.host
            } else if f == "fn:div"@ || f == "fn:float:div"@ {
                assert(binary(s, "val_div"@, a.over));
                lemma_fold(s, args, args.len(), IMP_VAL_DIV, "val_div"@, a.over, bound, env, m);
                m.host
            } else if f == "fn:string:concat"@ {
                assert(binary(s, "str_concat"@, a.joined));
                lemma_fold(s, args, args.len(), IMP_STR_CONCAT, "str_concat"@, a.joined, bound, env, m);
                m.host
            } else if f == "fn:sqrt"@ {
                assert(unary(s, "val_sqrt"@, a.root));
                lemma_unary(s, args, IMP_VAL_SQRT, "val_sqrt"@, a.root, bound, env, m);
                m.host
            } else if f == "fn:number:to_string"@ || f == "fn:float64:to_string"@ || f == "fn:name:to_string"@ {
                assert(unary(s, "val_to_string"@, a.text));
                lemma_unary(s, args, IMP_VAL_TO_STRING, "val_to_string"@, a.text, bound, env, m);
                m.host
            } else if f == "fn:len"@ || f == "fn:list:len"@ || f == "fn:struct:len"@ || f == "fn:map:len"@ {
                assert(unary(s, "compound_len"@, a.count));
                lemma_unary(s, args, IMP_COMPOUND_LEN, "compound_len"@, a.count, bound, env, m);
                m.host
            } else if f == "fn:pair:first"@ {
                assert(unary(s, "pair_first"@, a.first));
                lemma_unary(s, args, IMP_PAIR_FIRST, "pair_first"@, a.first, bound, env, m);
                m.host
            } else if f == "fn:pair:second"@ {
                assert(unary(s, "pair_second"@, a.second));
                lemma_unary(s, args, IMP_PAIR_SECOND, "pair_second"@, a.second, bound, env, m);
                m.host
            } else if f == "fn:list"@ {
                lemma_compound(s, args, 0, bound, env, m)
            } else if f == "fn:pair"@ {
                lemma_compound(s, args, 1, bound, env, m)
            } else if f == "fn:map"@ {
                lemma_compound(s, args, 2, bound, env, m)
            } else if f == "fn:struct"@ {
                lemma_compound(s, args, 3, bound, env, m)
            } else if f == "fn:string:replace"@ {
                lemma_replace(s, args, bound, env, m);
                m.host
            } else {
                lemma_part(s, args, bound, env, m);
                m.host
            }
        },
    }
}

/// The code of a comparison leaves whether it holds.
#[verifier::rlimit(30)]
proof fn lemma_cond(
    s: Site,
    op: CompareOp,
    left: Operand,
    right: Operand,
    bound: Set<NameId>,
    env: Env,
    m: Machine,
)
    requires
        s.wf(),
        readable(bound, left),
        readable(bound, right),
        held(s, bound, env, m.locals),
        at(s.code, m.pc, cond_code(s.order, Test::Compare { op, left, right })),
    ensures
        s.runs(
            m,
            moved(
                m,
                cond_code(s.order, Test::Compare { op, left, right }).len() as int,
                m.stack.push(
                    truth(test_holds(s.w, s.g.names, env, Test::Compare { op, left, right })),
                ),
            ),
        ),
{
    let x = operand(s.w, env, left);
    let y = operand(s.w, env, right);
    let a = operand_code(s.order, left);
    let b = operand_code(s.order, right);
    let call = seq![Instr::Call(compare_import(op))];
    lemma_imports();
    lemma_split(s.code, m.pc, a + b, call);
    lemma_split(s.code, m.pc, a, b);
    lemma_operand(s, left, bound, env, m);
    let m1 = moved(m, a.len() as int, m.stack.push(Slot::Ref(x)));
    lemma_operand(s, right, bound, env, m1);
    let m2 = moved(m, (a.len() + b.len()) as int, m1.stack.push(Slot::Ref(y)));
    lemma_then(s, m, m1, m2);
    lemma_at(s.code, m2.pc, call, 0);
    let given = two(Slot::Ref(x), Slot::Ref(y));
    assert(m2.stack =~= m.stack + given);
    let said = truth(related(s.w, op, x, y));
    let name = match op {
        CompareOp::Eq => "val_eq"@,
        CompareOp::Neq => "val_neq"@,
        CompareOp::Lt => "val_lt"@,
        CompareOp::Le => "val_le"@,
        CompareOp::Gt => "val_gt"@,
        CompareOp::Ge => "val_ge"@,
    };
    lemma_call(s, m2, compare_import(op), name, m.stack, given, one(said), m.host);
    assert(m.stack + one(said) =~= m.stack.push(said));
    lemma_then(s, m, m2, moved(m, (a.len() + b.len() + 1) as int, m.stack.push(said)));
}

/// The rows of the source have as many columns as it has variables.
pub open spec fn fits_source(h: HostModel, g: Graph, bound: Set<NameId>, source: Source) -> bool {
    let n = row_vars(source).len();
    &&& g.has_name(source_relation(source))
    &&& n <= i32::MAX
    &&& match source {
        Source::Scan { relation, .. } => forall|row: Seq<Val>| #[trigger]
            (h.rows)(relation_number(g.name(relation))).contains(row) ==> row.len() == n,
        Source::ScanDelta { relation, .. } => forall|row: Seq<Val>| #[trigger]
            (h.new)(relation_number(g.name(relation))).contains(row) ==> row.len() == n,
        Source::IndexLookup { relation, col_idx, key, .. } => col_idx <= i32::MAX && readable(bound, key) && (
        forall|row: Seq<Val>| #[trigger]
            (h.rows)(relation_number(g.name(relation))).contains(row) ==> row.len() == n),
    }
}

/// The plan scans, compares, computes and inserts. It reads variables that are in the set or that it
/// binds before, binds none that is bound already, and every variable that it binds has a local.
pub open spec fn runnable(h: HostModel, g: Graph, order: Seq<NameId>, bound: Set<NameId>, p: Plan) -> bool
    decreases p, 0nat,
{
    match p {
        Plan::Nop => true,
        Plan::Sequence(ps) => all_runnable(h, g, order, bound, ps, ps.len()),
        Plan::Iterate { source, body } => {
            &&& fits_source(h, g, bound, source)
            &&& forall|k: int|
                0 <= k < row_vars(source).len() ==> order.contains(#[trigger] row_vars(source)[k])
                    && !bound.contains(row_vars(source)[k])
            &&& runnable(h, g, order, bound.union(row_vars(source).to_set()), *body)
        },
        Plan::Filter { cond, body } => {
            &&& cond matches Test::Compare { op, left, right } && readable(bound, left) && readable(bound, right)
            &&& runnable(h, g, order, bound, *body)
        },
        Plan::Let { var, expr, body } => {
            &&& order.contains(var)
            &&& !bound.contains(var)
            &&& evaluable(g, bound, expr)
            &&& runnable(h, g, order, bound.insert(var), *body)
        },
        Plan::Insert { relation, args } => all_readable(bound, args),
        _ => false,
    }
}

/// The first `n` plans scan, compare, compute and insert.
pub open spec fn all_runnable(
    h: HostModel,
    g: Graph,
    order: Seq<NameId>,
    bound: Set<NameId>,
    ps: Seq<Plan>,
    n: nat,
) -> bool
    decreases ps, n,
{
    if n == 0 || n > ps.len() {
        true
    } else {
        all_runnable(h, g, order, bound, ps, (n - 1) as nat) && runnable(h, g, order, bound, ps[n - 1])
    }
}

/// A row of the relation that the host knows by a number.
pub open spec fn wanted(g: Graph, x: (int, Seq<Val>)) -> spec_fn(NameId, Seq<Val>) -> bool {
    |rel: NameId, row: Seq<Val>| relation_number(g.name(rel)) == x.0 && row == x.1
}

/// What a plan derives, by the numbers of relations.
spec fn emits(s: Site, p: Plan, env: Env) -> Set<(int, Seq<Val>)> {
    Set::new(|x: (int, Seq<Val>)| reaches(s.w, s.g.names, p, env, wanted(s.g, x)))
}

/// Whether something is derived of one of the rows.
spec fn some_row(s: Site, vars: Seq<NameId>, body: Plan, env: Env, rs: Seq<Seq<Val>>, x: (int, Seq<Val>)) -> bool {
    exists|i: int|
        0 <= i < rs.len() && reaches(
            s.w,
            s.g.names,
            body,
            bind(env, vars, #[trigger] rs[i], rs[i].len()),
            wanted(s.g, x),
        )
}

/// What is derived of the rows.
spec fn emits_rows(s: Site, vars: Seq<NameId>, body: Plan, env: Env, rs: Seq<Seq<Val>>) -> Set<(int, Seq<Val>)> {
    Set::new(|x: (int, Seq<Val>)| some_row(s, vars, body, env, rs, x))
}

/// The first local of a scan.
spec fn scan_locals(s: Site) -> nat {
    s.order.len() + 2
}

/// The locals of variables that are bound, and those of scans below a limit, are kept.
spec fn kept(s: Site, bound: Set<NameId>, limit: int, a: Map<u32, Slot>, b: Map<u32, Slot>) -> bool {
    &&& forall|v: NameId| #[trigger] bound.contains(v) ==> b[s.local(v)] == a[s.local(v)]
    &&& forall|i: u32| scan_locals(s) <= i < limit ==> #[trigger] b[i] == a[i]
}

/// The scans that there were are where they were, and relations hold what they did.
spec fn undisturbed(a: HostState, b: HostState) -> bool {
    &&& b.epoch == a.epoch
    &&& a.scans.len() <= b.scans.len()
    &&& forall|i: int| 0 <= i < a.scans.len() ==> #[trigger] b.scans[i] == a.scans[i]
}

/// The rows that a source gives.
spec fn table(s: Site, env: Env, source: Source) -> Seq<Seq<Val>> {
    match source {
        Source::Scan { relation, .. } => (s.host.rows)(relation_number(s.g.name(relation))),
        Source::ScanDelta { relation, .. } => (s.host.new)(relation_number(s.g.name(relation))),
        Source::IndexLookup { relation, col_idx, key, .. } => (s.host.found)(
            relation_number(s.g.name(relation)),
            col_idx as int,
            operand(s.w, env, key),
        ),
    }
}

/// The rows that a source gives are those that the plan reads.
proof fn lemma_table(s: Site, bound: Set<NameId>, env: Env, source: Source, row: Seq<Val>)
    requires
        s.wf(),
        fits_source(s.host, s.g, bound, source),
    ensures
        listed(s.w, env, source, row) <==> table(s, env, source).contains(row),
        table(s, env, source).contains(row) ==> row.len() == row_vars(source).len(),
{
    match source {
        Source::Scan { relation, .. } => {
            assert((s.w.rows)(relation, row) <==> (s.host.rows)(relation_number(s.g.name(relation))).contains(row));
        },
        Source::ScanDelta { relation, .. } => {
            assert((s.w.delta)(relation, row) <==> (s.host.new)(relation_number(s.g.name(relation))).contains(row));
        },
        Source::IndexLookup { relation, col_idx, key, .. } => {
            assert((s.w.rows)(relation, row) <==> (s.host.rows)(relation_number(s.g.name(relation))).contains(row));
        },
    }
}

/// The code that starts a scan leaves the scan.
#[verifier::rlimit(30)]
proof fn lemma_start(s: Site, source: Source, bound: Set<NameId>, env: Env, m: Machine) -> (r: Machine)
    requires
        s.wf(),
        m.host.epoch == s.host.epoch,
        fits_source(s.host, s.g, bound, source),
        held(s, bound, env, m.locals),
        at(s.code, m.pc, start_code(WasmImportsBackend, s.g, s.order, source)),
    ensures
        s.runs(m, r),
        r.pc == m.pc + start_code(WasmImportsBackend, s.g, s.order, source).len(),
        r.labels == m.labels,
        r.stack == m.stack.push(Slot::Num(m.host.scans.len() as int)),
        r.host == (HostState { scans: m.host.scans.push(table(s, env, source)), ..m.host }),
        forall|i: u32| i != 0 ==> #[trigger] r.locals[i] == m.locals[i],
{
    let b = WasmImportsBackend;
    let piece = start_code(b, s.g, s.order, source);
    let id = Slot::Num(m.host.scans.len() as int);
    let host = HostState { scans: m.host.scans.push(table(s, env, source)), ..m.host };
    lemma_imports();
    assert(m.stack + one(id) =~= m.stack.push(id));
    match source {
        Source::Scan { relation, .. } => {
            let n = Slot::Num(relation_number(s.g.name(relation)));
            lemma_at(s.code, m.pc, piece, 0);
            lemma_at(s.code, m.pc, piece, 1);
            lemma_step(s, m);
            let x = moved(m, 1, m.stack.push(n));
            assert(x.stack =~= m.stack + one(n));
            lemma_call(s, x, IMP_SCAN_START, "scan_start"@, m.stack, one(n), one(id), host);
            let r = Machine { host, ..moved(m, 2, m.stack.push(id)) };
            lemma_then(s, m, x, r);
            r
        },
        Source::ScanDelta { relation, .. } => {
            let n = Slot::Num(relation_number(s.g.name(relation)));
            lemma_at(s.code, m.pc, piece, 0);
            lemma_at(s.code, m.pc, piece, 1);
            lemma_step(s, m);
            let x = moved(m, 1, m.stack.push(n));
            assert(x.stack =~= m.stack + one(n));
            lemma_call(s, x, IMP_SCAN_DELTA_START, "scan_delta_start"@, m.stack, one(n), one(id), host);
            let r = Machine { host, ..moved(m, 2, m.stack.push(id)) };
            lemma_then(s, m, x, r);
            r
        },
        Source::IndexLookup { relation, col_idx, key, .. } => {
            let n = Slot::Num(relation_number(s.g.name(relation)));
            let c = Slot::Num(col_idx as int);
            let key_code = operand_code(s.order, key);
            let rest = b.scan_index_start(s.g.name(relation), col_idx as u32);
            let k = Slot::Ref(operand(s.w, env, key));
            lemma_split(s.code, m.pc, key_code, rest);
            lemma_operand(s, key, bound, env, m);
            let m1 = moved(m, key_code.len() as int, m.stack.push(k));
            lemma_at(s.code, m1.pc, rest, 0);
            lemma_at(s.code, m1.pc, rest, 1);
            lemma_at(s.code, m1.pc, rest, 2);
            lemma_at(s.code, m1.pc, rest, 3);
            lemma_at(s.code, m1.pc, rest, 4);
            let locals = m.locals.insert(0, k);
            let m2 = Machine { pc: m1.pc + 1, locals, ..m };
            lemma_step(s, m1);
            assert(m1.stack.drop_last() =~= m.stack);
            lemma_then(s, m, m1, m2);
            let m3 = moved(m2, 1, m.stack.push(n));
            lemma_step(s, m2);
            lemma_then(s, m, m2, m3);
            let m4 = moved(m2, 2, m.stack.push(n).push(c));
            lemma_step(s, m3);
            lemma_then(s, m, m3, m4);
            let m5 = moved(m2, 3, m.stack.push(n).push(c).push(k));
            lemma_step(s, m4);
            lemma_then(s, m, m4, m5);
            assert(m5.stack =~= m.stack + three(n, c, k));
            lemma_call(s, m5, IMP_SCAN_INDEX_START, "scan_index_start"@, m.stack, three(n, c, k), one(id), host);
            let r = Machine { host, ..moved(m2, 4, m.stack.push(id)) };
            lemma_then(s, m, m5, r);
            r
        },
    }
}

/// The local of a scan.
spec fn scan_local(s: Site, offset: u32) -> u32 {
    local_at(s.order.len() as int).wrapping_add(offset)
}

/// The code of a loop over rows stands from `lo` on.
spec fn loop_at(s: Site, source: Source, body: Plan, offset: u32, lo: int) -> bool {
    let b = WasmImportsBackend;
    let columns = columns_code(b, s.order, row_vars(source), row_vars(source).len());
    let inner = plan_code(b, s.g, s.order, offset.wrapping_add(1), body).0;
    &&& at(s.code, lo, b.scan_next(scan_local(s, offset)))
    &&& at(s.code, lo + 2, seq![Instr::LocalTee(1), Instr::I32Eqz, Instr::BrIf(1)])
    &&& at(s.code, lo + 5, columns)
    &&& at(s.code, lo + 5 + columns.len(), inner)
    &&& at(s.code, lo + 5 + columns.len() + inner.len(), seq![Instr::Br(0), Instr::End, Instr::End])
}

/// How long the code of a loop is.
spec fn loop_len(s: Site, source: Source, body: Plan, offset: u32) -> nat {
    let b = WasmImportsBackend;
    columns_code(b, s.order, row_vars(source), row_vars(source).len()).len() + plan_code(
        b,
        s.g,
        s.order,
        offset.wrapping_add(1),
        body,
    ).0.len() + 8
}

/// A loop asks for the next row: there is none, and the loop is left.
#[verifier::rlimit(40)]
proof fn lemma_loop_end(
    s: Site,
    source: Source,
    body: Plan,
    offset: u32,
    lo: int,
    outer: Seq<Label>,
    m: Machine,
    id: int,
) -> (r: Machine)
    requires
        s.wf(),
        loop_at(s, source, body, offset, lo),
        m.pc == lo,
        m.labels == outer.push(Label::Out(m.stack.len())).push(Label::Again(lo, m.stack.len())),
        m.locals[scan_local(s, offset)] == Slot::Num(id),
        0 <= id < m.host.scans.len(),
        m.host.scans[id].len() == 0,
    ensures
        s.runs(m, r),
        r == (Machine {
            pc: lo + loop_len(s, source, body, offset),
            labels: outer,
            locals: m.locals.insert(1, Slot::Num(0)),
            ..m
        }),
{
    let b = WasmImportsBackend;
    let iter = scan_local(s, offset);
    let next = b.scan_next(iter);
    let leave = seq![Instr::LocalTee(1), Instr::I32Eqz, Instr::BrIf(1)];
    let columns = columns_code(b, s.order, row_vars(source), row_vars(source).len());
    let inner = plan_code(b, s.g, s.order, offset.wrapping_add(1), body).0;
    let ends = seq![Instr::Br(0), Instr::End, Instr::End];
    lemma_imports();
    lemma_at(s.code, lo, next, 0);
    lemma_at(s.code, lo, next, 1);
    lemma_at(s.code, lo + 2, leave, 0);
    lemma_at(s.code, lo + 2, leave, 1);
    lemma_at(s.code, lo + 2, leave, 2);
    let i = Slot::Num(id);
    let m1 = moved(m, 1, m.stack.push(i));
    lemma_step(s, m);
    assert(m1.stack =~= m.stack + one(i));
    lemma_call(s, m1, IMP_SCAN_NEXT, "scan_next"@, m.stack, one(i), one(Slot::Num(0)), m.host);
    assert(m.stack + one(Slot::Num(0)) =~= m.stack.push(Slot::Num(0)));
    let m2 = moved(m, 2, m.stack.push(Slot::Num(0)));
    lemma_then(s, m, m1, m2);
    let locals = m.locals.insert(1, Slot::Num(0));
    let m3 = Machine { locals, ..moved(m, 3, m.stack.push(Slot::Num(0))) };
    lemma_step(s, m2);
    lemma_then(s, m, m2, m3);
    let m4 = Machine { locals, ..moved(m, 4, m.stack.push(Slot::Num(1))) };
    lemma_step(s, m3);
    assert(m3.stack.drop_last().push(Slot::Num(1)) =~= m4.stack);
    lemma_then(s, m, m3, m4);
    lemma_step(s, m4);
    let vars = row_vars(source);
    lemma_straight_columns(s.order, vars, vars.len());
    lemma_skip(s.code, lo + 5, columns, 1);
    let at2 = lo + 5 + columns.len();
    lemma_skip_plan(s.code, s.g, s.order, offset.wrapping_add(1), body, at2, 1);
    let at3 = at2 + inner.len();
    lemma_at(s.code, at3, ends, 0);
    lemma_at(s.code, at3, ends, 1);
    lemma_at(s.code, at3, ends, 2);
    assert(close(s.code, at3, 1) == close(s.code, at3 + 1, 1));
    assert(close(s.code, at3 + 1, 1) == close(s.code, at3 + 2, 0));
    assert(close(s.code, at3 + 2, 0) == at3 + 2);
    let r = Machine { pc: lo + loop_len(s, source, body, offset), labels: outer, locals, ..m };
    assert(m4.stack.drop_last() =~= m.stack);
    assert(m.stack.take(m.stack.len() as int) =~= m.stack);
    let n = m.labels.len();
    assert(m.labels[n - 2] == Label::Out(m.stack.len()));
    assert(m.labels.take(n - 2) =~= outer);
    assert(step(s.code, s.host.calls, m4) == r);
    lemma_then(s, m, m4, r);
    r
}

/// A loop asks for the next row: it is bound to the variables.
#[verifier::rlimit(40)]
proof fn lemma_loop_row(
    s: Site,
    source: Source,
    body: Plan,
    offset: u32,
    lo: int,
    m: Machine,
    id: int,
) -> (r: Machine)
    requires
        s.wf(),
        loop_at(s, source, body, offset, lo),
        m.pc == lo,
        m.locals[scan_local(s, offset)] == Slot::Num(id),
        0 <= id < m.host.scans.len(),
        m.host.scans[id].len() > 0,
        m.host.scans[id].first().len() == row_vars(source).len(),
        row_vars(source).len() <= i32::MAX,
        forall|k: int| 0 <= k < row_vars(source).len() ==> s.order.contains(#[trigger] row_vars(source)[k]),
    ensures
        s.runs(m, r),
        r.pc == lo + 5 + columns_code(WasmImportsBackend, s.order, row_vars(source), row_vars(source).len()).len(),
        r.labels == m.labels,
        r.stack == m.stack,
        r.locals == with_columns(
            s,
            row_vars(source),
            m.host.scans[id].first(),
            m.locals.insert(1, Slot::Num((m.host.rows.len() + 1) as int)),
            row_vars(source).len(),
        ),
        r.host.scans == m.host.scans.update(id, m.host.scans[id].drop_first()),
        r.host.inserted == m.host.inserted,
        r.host.epoch == m.host.epoch,
{
    let b = WasmImportsBackend;
    let iter = scan_local(s, offset);
    let next = b.scan_next(iter);
    let leave = seq![Instr::LocalTee(1), Instr::I32Eqz, Instr::BrIf(1)];
    let vars = row_vars(source);
    let columns = columns_code(b, s.order, vars, vars.len());
    lemma_imports();
    lemma_at(s.code, lo, next, 0);
    lemma_at(s.code, lo, next, 1);
    lemma_at(s.code, lo + 2, leave, 0);
    lemma_at(s.code, lo + 2, leave, 1);
    lemma_at(s.code, lo + 2, leave, 2);
    let i = Slot::Num(id);
    let row = m.host.scans[id].first();
    let p = (m.host.rows.len() + 1) as int;
    let host = HostState {
        scans: m.host.scans.update(id, m.host.scans[id].drop_first()),
        rows: m.host.rows.push(row),
        ..m.host
    };
    let m1 = moved(m, 1, m.stack.push(i));
    lemma_step(s, m);
    assert(m1.stack =~= m.stack + one(i));
    lemma_call(s, m1, IMP_SCAN_NEXT, "scan_next"@, m.stack, one(i), one(Slot::Num(p)), host);
    assert(m.stack + one(Slot::Num(p)) =~= m.stack.push(Slot::Num(p)));
    let m2 = Machine { host, ..moved(m, 2, m.stack.push(Slot::Num(p))) };
    lemma_then(s, m, m1, m2);
    let locals = m.locals.insert(1, Slot::Num(p));
    let m3 = Machine { locals, host, ..moved(m, 3, m.stack.push(Slot::Num(p))) };
    lemma_step(s, m2);
    lemma_then(s, m, m2, m3);
    let m4 = Machine { locals, host, ..moved(m, 4, m.stack.push(Slot::Num(0))) };
    lemma_step(s, m3);
    assert(m3.stack.drop_last().push(Slot::Num(0)) =~= m4.stack);
    lemma_then(s, m, m3, m4);
    let m5 = Machine { locals, host, ..moved(m, 5, m.stack) };
    lemma_step(s, m4);
    assert(m4.stack.drop_last() =~= m.stack);
    lemma_then(s, m, m4, m5);
    lemma_columns(s, vars, vars.len(), row, p, m5);
    let r = Machine {
        pc: lo + 5 + columns.len(),
        locals: with_columns(s, vars, row, locals, vars.len()),
        ..m5
    };
    lemma_then(s, m, m5, r);
    r
}

/// How many scans there are after a plan.
proof fn lemma_offset(g: Graph, order: Seq<NameId>, offset: u32, p: Plan)
    requires
        offset + scans(p) <= u32::MAX,
    ensures
        plan_code(WasmImportsBackend, g, order, offset, p).1 == offset + scans(p) || !counted(p),
    decreases p, 2nat, 0nat,
{
    match p {
        Plan::Iterate { source, body } => {
            lemma_offset(g, order, offset.wrapping_add(1), *body);
        },
        Plan::Let { body, .. } => {
            lemma_offset(g, order, offset, *body);
        },
        Plan::Filter { body, .. } => {
            lemma_offset(g, order, offset, *body);
        },
        Plan::Sequence(ps) => {
            lemma_offsets(g, order, offset, ps, ps.len());
        },
        _ => {},
    }
}

/// The plan has no groups and no joins by hashes.
spec fn counted(p: Plan) -> bool
    decreases p, 0nat,
{
    match p {
        Plan::Iterate { body, .. } => counted(*body),
        Plan::Let { body, .. } => counted(*body),
        Plan::Filter { body, .. } => counted(*body),
        Plan::Sequence(ps) => all_counted(ps, ps.len()),
        Plan::GroupBy { .. } => false,
        Plan::HashJoin { .. } => false,
        _ => true,
    }
}

spec fn all_counted(ps: Seq<Plan>, n: nat) -> bool
    decreases ps, n,
{
    if n == 0 || n > ps.len() {
        true
    } else {
        all_counted(ps, (n - 1) as nat) && counted(ps[n - 1])
    }
}

proof fn lemma_offsets(g: Graph, order: Seq<NameId>, offset: u32, ps: Seq<Plan>, n: nat)
    requires
        n <= ps.len(),
        offset + all_scans(ps, n) <= u32::MAX,
    ensures
        plans_code(WasmImportsBackend, g, order, offset, ps, n).1 == offset + all_scans(ps, n) || !all_counted(ps, n),
    decreases ps, 1nat, n,
{
    if n > 0 {
        lemma_offsets(g, order, offset, ps, (n - 1) as nat);
        if all_counted(ps, (n - 1) as nat) {
            let o = plans_code(WasmImportsBackend, g, order, offset, ps, (n - 1) as nat).1;
            lemma_offset(g, order, o, ps[n - 1]);
        }
    }
}

/// Plans that run have no groups and no joins by hashes.
proof fn lemma_counted(h: HostModel, g: Graph, order: Seq<NameId>, bound: Set<NameId>, p: Plan)
    requires
        runnable(h, g, order, bound, p),
    ensures
        counted(p),
    decreases p, 2nat, 0nat,
{
    match p {
        Plan::Iterate { source, body } => {
            lemma_counted(h, g, order, bound.union(row_vars(source).to_set()), *body);
        },
        Plan::Let { var, body, .. } => {
            lemma_counted(h, g, order, bound.insert(var), *body);
        },
        Plan::Filter { body, .. } => {
            lemma_counted(h, g, order, bound, *body);
        },
        Plan::Sequence(ps) => {
            lemma_all_counted(h, g, order, bound, ps, ps.len());
        },
        _ => {},
    }
}

proof fn lemma_all_counted(h: HostModel, g: Graph, order: Seq<NameId>, bound: Set<NameId>, ps: Seq<Plan>, n: nat)
    requires
        n <= ps.len(),
        all_runnable(h, g, order, bound, ps, n),
    ensures
        all_counted(ps, n),
    decreases ps, 1nat, n,
{
    if n > 0 {
        lemma_all_counted(h, g, order, bound, ps, (n - 1) as nat);
        lemma_counted(h, g, order, bound, ps[n - 1]);
    }
}

/// The two differ at most in the rows that are being collected.
spec fn collect_alone(w: World, v: World) -> bool {
    v == (World { collected: v.collected, ..w })
}

proof fn lemma_after_collects(w: World, names: Seq<Seq<char>>, ps: Seq<Plan>, n: nat, env: Env)
    ensures
        collect_alone(w, after_plans(w, names, ps, n, env)),
    decreases n,
{
    if n > 0 && n <= ps.len() {
        lemma_after_collects(w, names, ps, (n - 1) as nat, env);
    }
}

/// What a plan without groups derives does not depend on the rows that are being collected.
#[verifier::rlimit(30)]
proof fn lemma_collected(
    w: World,
    v: World,
    names: Seq<Seq<char>>,
    p: Plan,
    env: Env,
    want: spec_fn(NameId, Seq<Val>) -> bool,
)
    requires
        counted(p),
        collect_alone(w, v),
    ensures
        reaches(v, names, p, env, want) == reaches(w, names, p, env, want),
    decreases p, 2nat, 0nat,
{
    match p {
        Plan::Sequence(ps) => {
            assert forall|k: int| 0 <= k < ps.len() implies reaches(
                after_plans(v, names, ps, k as nat, env),
                names,
                #[trigger] ps[k],
                env,
                want,
            ) == reaches(after_plans(w, names, ps, k as nat, env), names, ps[k], env, want) by {
                lemma_after_collects(v, names, ps, k as nat, env);
                lemma_after_collects(w, names, ps, k as nat, env);
                lemma_counted_at(ps, ps.len(), k);
                lemma_collected(
                    after_plans(w, names, ps, k as nat, env),
                    after_plans(v, names, ps, k as nat, env),
                    names,
                    ps[k],
                    env,
                    want,
                );
            }
            if reaches(w, names, p, env, want) {
                let k = choose|k: int|
                    0 <= k < ps.len() && reaches(
                        after_plans(w, names, ps, k as nat, env),
                        names,
                        #[trigger] ps[k],
                        env,
                        want,
                    );
                assert(reaches(after_plans(v, names, ps, k as nat, env), names, ps[k], env, want));
            }
        },
        Plan::Iterate { source, body } => {
            assert forall|r: Seq<Val>|
                #![trigger listed(w, env, source, r)]
                #![trigger listed(v, env, source, r)]
                listed(v, env, source, r) == listed(w, env, source, r) && reaches(
                    v,
                    names,
                    *body,
                    bind(env, row_vars(source), r, r.len()),
                    want,
                ) == reaches(w, names, *body, bind(env, row_vars(source), r, r.len()), want) by {
                lemma_collected(w, v, names, *body, bind(env, row_vars(source), r, r.len()), want);
            }
        },
        Plan::Filter { cond, body } => {
            lemma_collected(w, v, names, *body, env, want);
            match cond {
                Test::Negation { args, .. } => {
                    assert(operand_values(v, env, args) =~= operand_values(w, env, args));
                },
                Test::Call { args, .. } => {
                    assert(operand_values(v, env, args) =~= operand_values(w, env, args));
                },
                _ => {},
            }
        },
        Plan::Insert { relation, args } => {
            assert(operand_values(v, env, args) =~= operand_values(w, env, args));
        },
        Plan::Let { var, expr, body } => {
            if let Term::Call { args, .. } = expr {
                assert(operand_values(v, env, args) =~= operand_values(w, env, args));
            }
            lemma_collected(w, v, names, *body, env.insert(var, term_value(w, names, env, expr)), want);
        },
        _ => {},
    }
}

proof fn lemma_counted_at(ps: Seq<Plan>, n: nat, k: int)
    requires
        0 <= k < n <= ps.len(),
        all_counted(ps, n),
    ensures
        counted(ps[k]),
    decreases n,
{
    if k < n - 1 {
        lemma_counted_at(ps, (n - 1) as nat, k);
    }
}

/// What is derived of rows is what is derived of the first or of the others.
proof fn lemma_rows_split(
    s: Site,
    vars: Seq<NameId>,
    body: Plan,
    env: Env,
    rs: Seq<Seq<Val>>,
    x: (int, Seq<Val>),
)
    requires
        rs.len() > 0,
    ensures
        some_row(s, vars, body, env, rs, x) <==> reaches(
            s.w,
            s.g.names,
            body,
            bind(env, vars, rs.first(), rs.first().len()),
            wanted(s.g, x),
        ) || some_row(s, vars, body, env, rs.drop_first(), x),
{
    let rest = rs.drop_first();
    if some_row(s, vars, body, env, rs, x) {
        let i = choose|i: int|
            0 <= i < rs.len() && reaches(
                s.w,
                s.g.names,
                body,
                bind(env, vars, #[trigger] rs[i], rs[i].len()),
                wanted(s.g, x),
            );
        if i > 0 {
            assert(rest[i - 1] == rs[i]);
        }
    }
    if some_row(s, vars, body, env, rest, x) {
        let i = choose|i: int|
            0 <= i < rest.len() && reaches(
                s.w,
                s.g.names,
                body,
                bind(env, vars, #[trigger] rest[i], rest[i].len()),
                wanted(s.g, x),
            );
        assert(rs[i + 1] == rest[i]);
    }
    assert(rs[0] == rs.first());
}

/// A loop over rows inserts what the plan derives of each.
#[verifier::rlimit(60)]
#[verifier::spinoff_prover]
proof fn lemma_loop(
    s: Site,
    p: Plan,
    source: Source,
    body: Plan,
    bound: Set<NameId>,
    env: Env,
    offset: u32,
    lo: int,
    outer: Seq<Label>,
    m: Machine,
    id: int,
    rs: Seq<Seq<Val>>,
) -> (r: Machine)
    requires
        s.wf(),
        m.host.epoch == s.host.epoch,
        p == (Plan::Iterate { source, body: Box::new(body) }),
        runnable(s.host, s.g, s.order, bound, p),
        scan_locals(s) + offset + scans(p) <= u32::MAX,
        loop_at(s, source, body, offset, lo),
        held(s, bound, env, m.locals),
        m.pc == lo,
        m.labels == outer.push(Label::Out(m.stack.len())).push(Label::Again(lo, m.stack.len())),
        m.locals[scan_local(s, offset)] == Slot::Num(id),
        0 <= id < m.host.scans.len(),
        m.host.scans[id] == rs,
        forall|i: int| 0 <= i < rs.len() ==> (#[trigger] rs[i]).len() == row_vars(source).len(),
    ensures
        s.runs(m, r),
        r.pc == lo + loop_len(s, source, body, offset),
        r.labels == outer,
        r.stack == m.stack,
        kept(s, bound, scan_locals(s) + offset, m.locals, r.locals),
        r.host.epoch == m.host.epoch,
        m.host.scans.len() <= r.host.scans.len(),
        forall|j: int| 0 <= j < m.host.scans.len() && j != id ==> #[trigger] r.host.scans[j] == m.host.scans[j],
        r.host.inserted == m.host.inserted.union(emits_rows(s, row_vars(source), body, env, rs)),
    decreases p, 1nat, rs.len(),
{
    let vars = row_vars(source);
    let iter = scan_local(s, offset);
    assert(iter == scan_locals(s) + offset);
    if rs.len() == 0 {
        let r = lemma_loop_end(s, source, body, offset, lo, outer, m, id);
        assert(r.host.inserted =~= m.host.inserted.union(emits_rows(s, vars, body, env, rs)));
        assert forall|v: NameId| #[trigger] bound.contains(v) implies r.locals[s.local(v)] == m.locals[s.local(v)] by {
            lemma_local(s, v);
        }
        r
    } else {
        let row = rs.first();
        assert(rs[0].len() == vars.len());
        let a = lemma_loop_row(s, source, body, offset, lo, m, id);
        let first = m.locals.insert(1, Slot::Num((m.host.rows.len() + 1) as int));
        let more = bound.union(vars.to_set());
        let e = bind(env, vars, row, vars.len());
        assert(held(s, bound, env, first)) by {
            assert forall|v: NameId| #[trigger] bound.contains(v) implies s.order.contains(v) && first[s.local(v)]
                == Slot::Ref(env[v]) by {
                lemma_local(s, v);
            }
        }
        lemma_columns_held(s, bound, env, vars, row, first, vars.len());
        assert(vars.take(vars.len() as int) =~= vars);
        lemma_other_locals(s, vars, row, first, vars.len());
        let columns = columns_code(WasmImportsBackend, s.order, vars, vars.len());
        let inner = plan_code(WasmImportsBackend, s.g, s.order, offset.wrapping_add(1), body).0;
        let b = lemma_plan(s, body, more, e, (offset + 1) as u32, a);
        let ends = seq![Instr::Br(0), Instr::End, Instr::End];
        lemma_at(s.code, b.pc, ends, 0);
        lemma_step(s, b);
        let c = Machine { pc: lo, ..b };
        let n = b.labels.len();
        assert(b.labels[n - 1] == Label::Again(lo, m.stack.len()));
        assert(b.labels.take(n as int) =~= b.labels);
        assert(b.stack.take(m.stack.len() as int) =~= b.stack);
        assert(step(s.code, s.host.calls, b) == c);
        lemma_then(s, a, b, c);
        lemma_then(s, m, a, c);
        let rest = rs.drop_first();
        assert(c.locals[iter] == Slot::Num(id)) by {
            assert(b.locals[iter] == a.locals[iter]);
            assert(a.locals[iter] == first[iter]);
        }
        assert forall|v: NameId| #[trigger] bound.contains(v) implies c.locals[s.local(v)] == m.locals[s.local(v)] by {
            lemma_local(s, v);
            assert(more.contains(v));
            assert(b.locals[s.local(v)] == a.locals[s.local(v)]);
            assert forall|k: int| 0 <= k < vars.len() implies vars[k] != v by {
                assert(!bound.contains(row_vars(source)[k]));
            }
            assert(a.locals[s.local(v)] == first[s.local(v)]);
        }
        assert(held(s, bound, env, c.locals));
        assert(b.host.scans[id] == a.host.scans[id]);
        assert(c.host.scans[id] == rest);
        assert forall|i: int| 0 <= i < rest.len() implies (#[trigger] rest[i]).len() == vars.len() by {
            assert(rest[i] == rs[i + 1]);
        }
        let r = lemma_loop(s, p, source, body, bound, env, offset, lo, outer, c, id, rest);
        lemma_then(s, m, c, r);
        assert forall|j: int| 0 <= j < m.host.scans.len() && j != id implies #[trigger] r.host.scans[j]
            == m.host.scans[j] by {
            assert(a.host.scans[j] == m.host.scans[j]);
            assert(b.host.scans[j] == a.host.scans[j]);
        }
        assert forall|i: u32| scan_locals(s) <= i < scan_locals(s) + offset implies #[trigger] r.locals[i]
            == m.locals[i] by {
            assert(r.locals[i] == c.locals[i]);
            assert(b.locals[i] == a.locals[i]);
            assert(a.locals[i] == first[i]);
        }
        let all = m.host.inserted.union(emits_rows(s, vars, body, env, rs));
        assert forall|x: (int, Seq<Val>)| #[trigger] r.host.inserted.contains(x) == all.contains(x) by {
            lemma_rows_split(s, vars, body, env, rs, x);
            assert(b.host.inserted.contains(x) == (a.host.inserted.contains(x) || reaches(
                s.w,
                s.g.names,
                body,
                e,
                wanted(s.g, x),
            )));
        }
        assert(r.host.inserted =~= all);
        r
    }
}

/// The code of a plan inserts what the plan derives.
#[verifier::rlimit(80)]
#[verifier::spinoff_prover]
proof fn lemma_plan(s: Site, p: Plan, bound: Set<NameId>, env: Env, offset: u32, m: Machine) -> (r: Machine)
    requires
        s.wf(),
        m.host.epoch == s.host.epoch,
        runnable(s.host, s.g, s.order, bound, p),
        scan_locals(s) + offset + scans(p) <= u32::MAX,
        held(s, bound, env, m.locals),
        at(s.code, m.pc, plan_code(WasmImportsBackend, s.g, s.order, offset, p).0),
    ensures
        s.runs(m, r),
        r.pc == m.pc + plan_code(WasmImportsBackend, s.g, s.order, offset, p).0.len(),
        r.labels == m.labels,
        r.stack == m.stack,
        kept(s, bound, scan_locals(s) + offset, m.locals, r.locals),
        undisturbed(m.host, r.host),
        r.host.inserted == m.host.inserted.union(emits(s, p, env)),
    decreases p, 2nat, 0nat,
{
    let b = WasmImportsBackend;
    let piece = plan_code(b, s.g, s.order, offset, p).0;
    match p {
        Plan::Iterate { source, body } => lemma_iterate(s, p, source, *body, bound, env, offset, m),
        Plan::Filter { cond, body } => lemma_filter(s, p, cond, *body, bound, env, offset, m),
        Plan::Let { var, expr, body } => lemma_let(s, p, var, expr, *body, bound, env, offset, m),
        Plan::Insert { relation, args } => lemma_insert(s, p, relation, args, bound, env, offset, m),
        Plan::Sequence(ps) => {
            let r = lemma_plans(s, ps, ps.len(), bound, env, offset, m);
            lemma_counted(s.host, s.g, s.order, bound, p);
            let all = m.host.inserted.union(emits(s, p, env));
            assert forall|x: (int, Seq<Val>)| #[trigger] r.host.inserted.contains(x) == all.contains(x) by {
                lemma_sequence(s, ps, env, x);
            }
            assert(r.host.inserted =~= all);
            r
        },
        _ => {
            lemma_stay(s, m);
            assert(m.host.inserted =~= m.host.inserted.union(emits(s, p, env)));
            m
        },
    }
}

/// Something is derived by one of the first `n` plans.
spec fn by_some(s: Site, ps: Seq<Plan>, n: nat, env: Env, x: (int, Seq<Val>)) -> bool {
    exists|k: int| 0 <= k < n && reaches(s.w, s.g.names, #[trigger] ps[k], env, wanted(s.g, x))
}

proof fn lemma_sequence(s: Site, ps: Seq<Plan>, env: Env, x: (int, Seq<Val>))
    requires
        all_counted(ps, ps.len()),
    ensures
        reaches(s.w, s.g.names, Plan::Sequence(ps), env, wanted(s.g, x)) <==> by_some(s, ps, ps.len(), env, x),
{
    let names = s.g.names;
    let want = wanted(s.g, x);
    assert forall|k: int| 0 <= k < ps.len() implies reaches(
        after_plans(s.w, names, ps, k as nat, env),
        names,
        #[trigger] ps[k],
        env,
        want,
    ) == reaches(s.w, names, ps[k], env, want) by {
        lemma_after_collects(s.w, names, ps, k as nat, env);
        lemma_counted_at(ps, ps.len(), k);
        lemma_collected(s.w, after_plans(s.w, names, ps, k as nat, env), names, ps[k], env, want);
    }
    if by_some(s, ps, ps.len(), env, x) {
        let k = choose|k: int| 0 <= k < ps.len() && reaches(s.w, names, #[trigger] ps[k], env, want);
        assert(reaches(after_plans(s.w, names, ps, k as nat, env), names, ps[k], env, want));
        lemma_in_sequence(s.w, names, ps, k, env, want);
    }
    if reaches(s.w, names, Plan::Sequence(ps), env, want) {
        let k = choose|k: int|
            0 <= k < ps.len() && reaches(
                after_plans(s.w, names, ps, k as nat, env),
                names,
                #[trigger] ps[k],
                env,
                want,
            );
        assert(reaches(s.w, names, ps[k], env, want));
    }
}

/// The code of plans inserts what they derive.
#[verifier::rlimit(40)]
proof fn lemma_plans(s: Site, ps: Seq<Plan>, n: nat, bound: Set<NameId>, env: Env, offset: u32, m: Machine) -> (r: Machine)
    requires
        s.wf(),
        m.host.epoch == s.host.epoch,
        n <= ps.len(),
        all_runnable(s.host, s.g, s.order, bound, ps, n),
        scan_locals(s) + offset + all_scans(ps, n) <= u32::MAX,
        held(s, bound, env, m.locals),
        at(s.code, m.pc, plans_code(WasmImportsBackend, s.g, s.order, offset, ps, n).0),
    ensures
        s.runs(m, r),
        r.pc == m.pc + plans_code(WasmImportsBackend, s.g, s.order, offset, ps, n).0.len(),
        r.labels == m.labels,
        r.stack == m.stack,
        kept(s, bound, scan_locals(s) + offset, m.locals, r.locals),
        undisturbed(m.host, r.host),
        forall|x: (int, Seq<Val>)| #[trigger]
            r.host.inserted.contains(x) <==> m.host.inserted.contains(x) || by_some(s, ps, n, env, x),
    decreases ps, 1nat, n,
{
    if n == 0 {
        lemma_stay(s, m);
        m
    } else {
        let b = WasmImportsBackend;
        let (before, o) = plans_code(b, s.g, s.order, offset, ps, (n - 1) as nat);
        let last = plan_code(b, s.g, s.order, o, ps[n - 1]).0;
        lemma_split(s.code, m.pc, before, last);
        let a = lemma_plans(s, ps, (n - 1) as nat, bound, env, offset, m);
        lemma_all_counted(s.host, s.g, s.order, bound, ps, (n - 1) as nat);
        lemma_offsets(s.g, s.order, offset, ps, (n - 1) as nat);
        assert(held(s, bound, env, a.locals));
        let r = lemma_plan(s, ps[n - 1], bound, env, o, a);
        lemma_then(s, m, a, r);
        assert forall|i: u32| scan_locals(s) <= i < scan_locals(s) + offset implies #[trigger] r.locals[i]
            == m.locals[i] by {
            assert(r.locals[i] == a.locals[i]);
        }
        assert forall|j: int| 0 <= j < m.host.scans.len() implies #[trigger] r.host.scans[j] == m.host.scans[j] by {
            assert(a.host.scans[j] == m.host.scans[j]);
        }
        assert forall|x: (int, Seq<Val>)| #[trigger]
            r.host.inserted.contains(x) <==> m.host.inserted.contains(x) || by_some(s, ps, n, env, x) by {
            if by_some(s, ps, n, env, x) {
                let k = choose|k: int|
                    0 <= k < n && reaches(s.w, s.g.names, #[trigger] ps[k], env, wanted(s.g, x));
                if k < n - 1 {
                    assert(by_some(s, ps, (n - 1) as nat, env, x));
                    assert(a.host.inserted.contains(x));
                } else {
                    assert(emits(s, ps[n - 1], env).contains(x));
                }
            }
            if by_some(s, ps, (n - 1) as nat, env, x) {
                let k = choose|k: int|
                    0 <= k < n - 1 && reaches(s.w, s.g.names, #[trigger] ps[k], env, wanted(s.g, x));
                assert(by_some(s, ps, n, env, x));
            }
            if emits(s, ps[n - 1], env).contains(x) {
                assert(by_some(s, ps, n, env, x));
            }
            assert(r.host.inserted.contains(x) == (a.host.inserted.contains(x) || emits(s, ps[n - 1], env).contains(x)));
        }
        r
    }
}

/// The code of a scan.
#[verifier::rlimit(60)]
#[verifier::spinoff_prover]
proof fn lemma_iterate(
    s: Site,
    p: Plan,
    source: Source,
    body: Plan,
    bound: Set<NameId>,
    env: Env,
    offset: u32,
    m: Machine,
) -> (r: Machine)
    requires
        s.wf(),
        m.host.epoch == s.host.epoch,
        p == (Plan::Iterate { source, body: Box::new(body) }),
        runnable(s.host, s.g, s.order, bound, p),
        scan_locals(s) + offset + scans(p) <= u32::MAX,
        held(s, bound, env, m.locals),
        at(s.code, m.pc, plan_code(WasmImportsBackend, s.g, s.order, offset, p).0),
    ensures
        s.runs(m, r),
        r.pc == m.pc + plan_code(WasmImportsBackend, s.g, s.order, offset, p).0.len(),
        r.labels == m.labels,
        r.stack == m.stack,
        kept(s, bound, scan_locals(s) + offset, m.locals, r.locals),
        undisturbed(m.host, r.host),
        r.host.inserted == m.host.inserted.union(emits(s, p, env)),
    decreases p, 1nat, table(s, env, source).len() + 1,
{
    let b = WasmImportsBackend;
    let piece = plan_code(b, s.g, s.order, offset, p).0;
    let vars = row_vars(source);
    assert(source_vars(source) == vars);
    let iter = scan_local(s, offset);
    assert(iter == scan_locals(s) + offset);
    let inner = plan_code(b, s.g, s.order, offset.wrapping_add(1), body).0;
    let start = start_code(b, s.g, s.order, source);
    let opening = seq![Instr::LocalSet(iter), Instr::Block, Instr::Loop];
    let next = b.scan_next(iter);
    let leave = seq![Instr::LocalTee(1), Instr::I32Eqz, Instr::BrIf(1)];
    let columns = columns_code(b, s.order, vars, vars.len());
    let ends = seq![Instr::Br(0), Instr::End, Instr::End];
    let head = start + opening + next + leave + columns;
    assert(piece == head + inner + ends);
    lemma_split(s.code, m.pc, head + inner, ends);
    lemma_split(s.code, m.pc, head, inner);
    lemma_split(s.code, m.pc, start + opening + next + leave, columns);
    lemma_split(s.code, m.pc, start + opening + next, leave);
    lemma_split(s.code, m.pc, start + opening, next);
    lemma_split(s.code, m.pc, start, opening);
    let at1 = m.pc + start.len();
    let lo = at1 + 3;
    assert(loop_at(s, source, body, offset, lo));
    let id = m.host.scans.len() as int;
    let rs = table(s, env, source);
    let a = lemma_start(s, source, bound, env, m);
    lemma_at(s.code, at1, opening, 0);
    lemma_at(s.code, at1, opening, 1);
    lemma_at(s.code, at1, opening, 2);
    let locals = a.locals.insert(iter, Slot::Num(id));
    let c1 = Machine { pc: at1 + 1, stack: m.stack, locals, ..a };
    lemma_step(s, a);
    assert(a.stack.drop_last() =~= m.stack);
    lemma_then(s, m, a, c1);
    let h = m.stack.len();
    let c2 = Machine { pc: at1 + 2, labels: m.labels.push(Label::Out(h)), ..c1 };
    lemma_step(s, c1);
    lemma_then(s, m, c1, c2);
    let c3 = Machine { pc: lo, labels: m.labels.push(Label::Out(h)).push(Label::Again(lo, h)), ..c1 };
    lemma_step(s, c2);
    lemma_then(s, m, c2, c3);
    assert forall|v: NameId| #[trigger] bound.contains(v) implies c3.locals[s.local(v)] == m.locals[s.local(v)] by {
        lemma_local(s, v);
        assert(a.locals[s.local(v)] == m.locals[s.local(v)]);
    }
    assert(held(s, bound, env, c3.locals));
    assert forall|i: int| 0 <= i < rs.len() implies (#[trigger] rs[i]).len() == vars.len() by {
        assert(rs.contains(rs[i]));
        lemma_table(s, bound, env, source, rs[i]);
    }
    let r = lemma_loop(s, p, source, body, bound, env, offset, lo, m.labels, c3, id, rs);
    lemma_then(s, m, c3, r);
    assert forall|i: u32| scan_locals(s) <= i < scan_locals(s) + offset implies #[trigger] r.locals[i]
        == m.locals[i] by {
        assert(r.locals[i] == c3.locals[i]);
        assert(a.locals[i] == m.locals[i]);
    }
    assert forall|j: int| 0 <= j < m.host.scans.len() implies #[trigger] r.host.scans[j] == m.host.scans[j] by {
        assert(c3.host.scans[j] == m.host.scans[j]);
    }
    let all = m.host.inserted.union(emits(s, p, env));
    assert forall|x: (int, Seq<Val>)| #[trigger] r.host.inserted.contains(x) == all.contains(x) by {
        let want = wanted(s.g, x);
        if some_row(s, vars, body, env, rs, x) {
            let i = choose|i: int|
                0 <= i < rs.len() && reaches(
                    s.w,
                    s.g.names,
                    body,
                    bind(env, vars, #[trigger] rs[i], rs[i].len()),
                    want,
                );
            assert(rs.contains(rs[i]));
            lemma_table(s, bound, env, source, rs[i]);
            assert(listed(s.w, env, source, rs[i]));
            assert(reaches(s.w, s.g.names, p, env, want));
        }
        if reaches(s.w, s.g.names, p, env, want) {
            let row = choose|row: Seq<Val>| #[trigger]
                listed(s.w, env, source, row) && reaches(
                    s.w,
                    s.g.names,
                    body,
                    bind(env, vars, row, row.len()),
                    want,
                );
            lemma_table(s, bound, env, source, row);
            let i = rs.index_of(row);
            assert(rs[i] == row);
            assert(some_row(s, vars, body, env, rs, x));
        }
    }
    assert(r.host.inserted =~= all);
    r
}

/// The code of a condition.
#[verifier::rlimit(40)]
proof fn lemma_filter(
    s: Site,
    p: Plan,
    cond: Test,
    body: Plan,
    bound: Set<NameId>,
    env: Env,
    offset: u32,
    m: Machine,
) -> (r: Machine)
    requires
        s.wf(),
        m.host.epoch == s.host.epoch,
        p == (Plan::Filter { cond, body: Box::new(body) }),
        runnable(s.host, s.g, s.order, bound, p),
        scan_locals(s) + offset + scans(p) <= u32::MAX,
        held(s, bound, env, m.locals),
        at(s.code, m.pc, plan_code(WasmImportsBackend, s.g, s.order, offset, p).0),
    ensures
        s.runs(m, r),
        r.pc == m.pc + plan_code(WasmImportsBackend, s.g, s.order, offset, p).0.len(),
        r.labels == m.labels,
        r.stack == m.stack,
        kept(s, bound, scan_locals(s) + offset, m.locals, r.locals),
        undisturbed(m.host, r.host),
        r.host.inserted == m.host.inserted.union(emits(s, p, env)),
    decreases p, 1nat, 0nat,
{
    let b = WasmImportsBackend;
    let test = cond_code(s.order, cond);
    let inner = plan_code(b, s.g, s.order, offset, body).0;
    let open = seq![Instr::If];
    let end = seq![Instr::End];
    lemma_split(s.code, m.pc, test + open + inner, end);
    lemma_split(s.code, m.pc, test + open, inner);
    lemma_split(s.code, m.pc, test, open);
    let at1 = m.pc + test.len();
    lemma_at(s.code, at1, open, 0);
    lemma_at(s.code, at1 + 1 + inner.len(), end, 0);
    let holds = test_holds(s.w, s.g.names, env, cond);
    match cond {
        Test::Compare { op, left, right } => {
            lemma_cond(s, op, left, right, bound, env, m);
        },
        _ => {},
    }
    let a = moved(m, test.len() as int, m.stack.push(truth(holds)));
    lemma_step(s, a);
    assert(a.stack.drop_last() =~= m.stack);
    if holds {
        let c = Machine { pc: at1 + 1, labels: m.labels.push(Label::Out(m.stack.len())), ..m };
        lemma_then(s, m, a, c);
        let d = lemma_plan(s, body, bound, env, offset, c);
        lemma_then(s, m, c, d);
        let r = Machine { pc: d.pc + 1, labels: m.labels, ..d };
        lemma_step(s, d);
        assert(d.labels.drop_last() =~= m.labels);
        lemma_then(s, m, d, r);
        assert(emits(s, p, env) =~= emits(s, body, env));
        r
    } else {
        let r = Machine { pc: at1 + 1 + inner.len() + 1, ..m };
        lemma_skip_plan(s.code, s.g, s.order, offset, body, at1 + 1, 0);
        lemma_then(s, m, a, r);
        assert(m.host.inserted =~= m.host.inserted.union(emits(s, p, env)));
        r
    }
}

/// The code of a definition.
#[verifier::rlimit(40)]
proof fn lemma_let(
    s: Site,
    p: Plan,
    var: NameId,
    expr: Term,
    body: Plan,
    bound: Set<NameId>,
    env: Env,
    offset: u32,
    m: Machine,
) -> (r: Machine)
    requires
        s.wf(),
        m.host.epoch == s.host.epoch,
        p == (Plan::Let { var, expr, body: Box::new(body) }),
        runnable(s.host, s.g, s.order, bound, p),
        scan_locals(s) + offset + scans(p) <= u32::MAX,
        held(s, bound, env, m.locals),
        at(s.code, m.pc, plan_code(WasmImportsBackend, s.g, s.order, offset, p).0),
    ensures
        s.runs(m, r),
        r.pc == m.pc + plan_code(WasmImportsBackend, s.g, s.order, offset, p).0.len(),
        r.labels == m.labels,
        r.stack == m.stack,
        kept(s, bound, scan_locals(s) + offset, m.locals, r.locals),
        undisturbed(m.host, r.host),
        r.host.inserted == m.host.inserted.union(emits(s, p, env)),
    decreases p, 1nat, 0nat,
{
    let b = WasmImportsBackend;
    lemma_local(s, var);
    let local = s.local(var);
    let value_code = expr_code(s.g, s.order, expr);
    let set = seq![Instr::LocalSet(local)];
    let inner = plan_code(b, s.g, s.order, offset, body).0;
    lemma_split(s.code, m.pc, value_code + set, inner);
    lemma_split(s.code, m.pc, value_code, set);
    let host = lemma_expr(s, expr, bound, env, m);
    let value = term_value(s.w, s.g.names, env, expr);
    let a = Machine { host, ..moved(m, value_code.len() as int, m.stack.push(Slot::Ref(value))) };
    lemma_at(s.code, a.pc, set, 0);
    lemma_step(s, a);
    let c = Machine { pc: a.pc + 1, locals: m.locals.insert(local, Slot::Ref(value)), host, ..m };
    assert(a.stack.drop_last() =~= m.stack);
    lemma_then(s, m, a, c);
    let more = bound.insert(var);
    let e = env.insert(var, value);
    assert forall|v: NameId| #[trigger] more.contains(v) implies s.order.contains(v) && c.locals[s.local(v)]
        == Slot::Ref(e[v]) by {
        if v != var {
            assert(bound.contains(v));
            lemma_local(s, v);
        }
    }
    let r = lemma_plan(s, body, more, e, offset, c);
    lemma_then(s, m, c, r);
    assert forall|v: NameId| #[trigger] bound.contains(v) implies r.locals[s.local(v)] == m.locals[s.local(v)] by {
        assert(more.contains(v));
        assert(r.locals[s.local(v)] == c.locals[s.local(v)]);
        assert(s.order.contains(v));
        lemma_local(s, v);
    }
    assert forall|i: u32| scan_locals(s) <= i < scan_locals(s) + offset implies #[trigger] r.locals[i]
        == m.locals[i] by {
        assert(r.locals[i] == c.locals[i]);
    }
    assert forall|j: int| 0 <= j < m.host.scans.len() implies #[trigger] r.host.scans[j] == m.host.scans[j] by {
        assert(c.host.scans[j] == m.host.scans[j]);
    }
    assert(emits(s, p, env) =~= emits(s, body, e));
    r
}

/// The code of a new row.
#[verifier::rlimit(40)]
proof fn lemma_insert(
    s: Site,
    p: Plan,
    relation: NameId,
    args: Seq<Operand>,
    bound: Set<NameId>,
    env: Env,
    offset: u32,
    m: Machine,
) -> (r: Machine)
    requires
        s.wf(),
        p == (Plan::Insert { relation, args }),
        all_readable(bound, args),
        held(s, bound, env, m.locals),
        at(s.code, m.pc, plan_code(WasmImportsBackend, s.g, s.order, offset, p).0),
    ensures
        s.runs(m, r),
        r.pc == m.pc + plan_code(WasmImportsBackend, s.g, s.order, offset, p).0.len(),
        r.labels == m.labels,
        r.stack == m.stack,
        kept(s, bound, scan_locals(s) + offset, m.locals, r.locals),
        undisturbed(m.host, r.host),
        r.host.inserted == m.host.inserted.union(emits(s, p, env)),
{
    let b = WasmImportsBackend;
    let open = b.insert_begin(s.g.name(relation));
    let all = operands_code(s.order, args, args.len(), b.insert_push());
    let end = b.insert_end();
    lemma_imports();
    lemma_split(s.code, m.pc, open + all, end);
    lemma_split(s.code, m.pc, open, all);
    lemma_at(s.code, m.pc, open, 0);
    lemma_at(s.code, m.pc, open, 1);
    let number = relation_number(s.g.name(relation));
    let n = Slot::Num(number);
    lemma_step(s, m);
    let a = moved(m, 1, m.stack.push(n));
    assert(a.stack =~= m.stack + one(n));
    let begun = HostState { rel: number, row: Seq::empty(), ..m.host };
    lemma_call(s, a, IMP_INSERT_BEGIN, "insert_begin"@, m.stack, one(n), Seq::empty(), begun);
    assert(m.stack + Seq::<Slot>::empty() =~= m.stack);
    let c = Machine { host: begun, ..moved(m, 2, m.stack) };
    lemma_then(s, m, a, c);
    lemma_pushes(s, args, args.len(), bound, env, c);
    let vs = operand_values(s.w, env, args);
    assert(begun.row + vs.take(args.len() as int) =~= vs);
    let made = HostState { row: vs, ..begun };
    let d = Machine { host: made, ..moved(m, (2 + all.len()) as int, m.stack) };
    lemma_then(s, m, c, d);
    lemma_at(s.code, d.pc, end, 0);
    let host = HostState { inserted: made.inserted.insert((number, vs)), ..made };
    assert(d.stack =~= m.stack + Seq::<Slot>::empty());
    lemma_call(s, d, IMP_INSERT_END, "insert_end"@, m.stack, Seq::empty(), Seq::empty(), host);
    let r = Machine { host, ..moved(m, (3 + all.len()) as int, m.stack) };
    lemma_then(s, m, d, r);
    assert(r.host.inserted =~= m.host.inserted.union(emits(s, p, env)));
    r
}

/// A row that is wanted is derived exactly if some row that is wanted is.
#[verifier::rlimit(30)]
proof fn lemma_some(
    w: World,
    names: Seq<Seq<char>>,
    p: Plan,
    env: Env,
    want: spec_fn(NameId, Seq<Val>) -> bool,
)
    requires
        counted(p),
    ensures
        reaches(w, names, p, env, want) <==> exists|rel: NameId, row: Seq<Val>|
            want(rel, row) && #[trigger] derives(w, names, p, env, rel, row),
    decreases p, 2nat, 0nat,
{
    match p {
        Plan::Nop => {},
        Plan::Insert { relation, args } => {
            let vs = operand_values(w, env, args);
            if want(relation, vs) {
                assert(derives(w, names, p, env, relation, vs));
            }
        },
        Plan::Filter { cond, body } => {
            lemma_some(w, names, *body, env, want);
            if reaches(w, names, p, env, want) {
                let (rel, row) = choose|rel: NameId, row: Seq<Val>|
                    want(rel, row) && #[trigger] derives(w, names, *body, env, rel, row);
                assert(derives(w, names, p, env, rel, row));
            }
            if exists|rel: NameId, row: Seq<Val>| want(rel, row) && #[trigger] derives(w, names, p, env, rel, row) {
                let (rel, row) = choose|rel: NameId, row: Seq<Val>|
                    want(rel, row) && #[trigger] derives(w, names, p, env, rel, row);
                assert(derives(w, names, *body, env, rel, row));
            }
        },
        Plan::Let { var, expr, body } => {
            let e = env.insert(var, term_value(w, names, env, expr));
            lemma_some(w, names, *body, e, want);
            if reaches(w, names, p, env, want) {
                let (rel, row) = choose|rel: NameId, row: Seq<Val>|
                    want(rel, row) && #[trigger] derives(w, names, *body, e, rel, row);
                assert(derives(w, names, p, env, rel, row));
            }
            if exists|rel: NameId, row: Seq<Val>| want(rel, row) && #[trigger] derives(w, names, p, env, rel, row) {
                let (rel, row) = choose|rel: NameId, row: Seq<Val>|
                    want(rel, row) && #[trigger] derives(w, names, p, env, rel, row);
                assert(derives(w, names, *body, e, rel, row));
            }
        },
        Plan::Iterate { source, body } => {
            let vars = row_vars(source);
            if reaches(w, names, p, env, want) {
                let r = choose|r: Seq<Val>| #[trigger]
                    listed(w, env, source, r) && reaches(w, names, *body, bind(env, vars, r, r.len()), want);
                lemma_some(w, names, *body, bind(env, vars, r, r.len()), want);
                let (rel, row) = choose|rel: NameId, row: Seq<Val>|
                    want(rel, row) && #[trigger] derives(
                        w,
                        names,
                        *body,
                        bind(env, vars, r, r.len()),
                        rel,
                        row,
                    );
                assert(derives(w, names, p, env, rel, row));
            }
            if exists|rel: NameId, row: Seq<Val>| want(rel, row) && #[trigger] derives(w, names, p, env, rel, row) {
                let (rel, row) = choose|rel: NameId, row: Seq<Val>|
                    want(rel, row) && #[trigger] derives(w, names, p, env, rel, row);
                let r = choose|r: Seq<Val>| #[trigger]
                    listed(w, env, source, r) && reaches(
                        w,
                        names,
                        *body,
                        bind(env, vars, r, r.len()),
                        only(rel, row),
                    );
                assert(derives(w, names, *body, bind(env, vars, r, r.len()), rel, row));
                lemma_some(w, names, *body, bind(env, vars, r, r.len()), want);
            }
        },
        Plan::Sequence(ps) => {
            if reaches(w, names, p, env, want) {
                let k = choose|k: int|
                    0 <= k < ps.len() && reaches(
                        after_plans(w, names, ps, k as nat, env),
                        names,
                        #[trigger] ps[k],
                        env,
                        want,
                    );
                let v = after_plans(w, names, ps, k as nat, env);
                lemma_counted_at(ps, ps.len(), k);
                lemma_some(v, names, ps[k], env, want);
                let (rel, row) = choose|rel: NameId, row: Seq<Val>|
                    want(rel, row) && #[trigger] derives(v, names, ps[k], env, rel, row);
                assert(reaches(v, names, ps[k], env, only(rel, row)));
                assert(derives(w, names, p, env, rel, row));
            }
            if exists|rel: NameId, row: Seq<Val>| want(rel, row) && #[trigger] derives(w, names, p, env, rel, row) {
                let (rel, row) = choose|rel: NameId, row: Seq<Val>|
                    want(rel, row) && #[trigger] derives(w, names, p, env, rel, row);
                let k = choose|k: int|
                    0 <= k < ps.len() && reaches(
                        after_plans(w, names, ps, k as nat, env),
                        names,
                        #[trigger] ps[k],
                        env,
                        only(rel, row),
                    );
                let v = after_plans(w, names, ps, k as nat, env);
                lemma_counted_at(ps, ps.len(), k);
                assert(derives(v, names, ps[k], env, rel, row));
                lemma_some(v, names, ps[k], env, want);
            }
        },
        _ => {},
    }
}

/// Whether a plan derives a row of a relation that the host knows by a number.
pub open spec fn derives_numbered(s: Site, p: Plan, number: int, row: Seq<Val>) -> bool {
    exists|rel: NameId|
        relation_number(s.g.name(rel)) == number && #[trigger] derives(
            s.w,
            s.g.names,
            p,
            Map::empty(),
            rel,
            row,
        )
}

/// Running the code of a plan inserts exactly the rows that the plan derives. This is of plans that
/// scan, look up, compare, compute and insert.
pub proof fn code_inserts_what_its_plan_derives(s: Site, p: Plan, offset: u32, m: Machine) -> (r: Machine)
    requires
        s.wf(),
        m.host.epoch == s.host.epoch,
        runnable(s.host, s.g, s.order, Set::empty(), p),
        s.order.len() + 2 + offset + scans(p) <= u32::MAX,
        at(s.code, m.pc, plan_code(WasmImportsBackend, s.g, s.order, offset, p).0),
    ensures
        s.runs(m, r),
        r.pc == m.pc + plan_code(WasmImportsBackend, s.g, s.order, offset, p).0.len(),
        r.labels == m.labels,
        r.stack == m.stack,
        forall|number: int, row: Seq<Val>| #[trigger]
            r.host.inserted.contains((number, row)) <==> m.host.inserted.contains((number, row))
                || derives_numbered(s, p, number, row),
{
    let none = Set::<NameId>::empty();
    let env: Env = Map::empty();
    assert(held(s, none, env, m.locals));
    let r = lemma_plan(s, p, none, env, offset, m);
    lemma_counted(s.host, s.g, s.order, none, p);
    assert forall|number: int, row: Seq<Val>| #[trigger]
        r.host.inserted.contains((number, row)) <==> m.host.inserted.contains((number, row))
            || derives_numbered(s, p, number, row) by {
        let want = wanted(s.g, (number, row));
        lemma_some(s.w, s.g.names, p, env, want);
        assert(emits(s, p, env).contains((number, row)) == reaches(s.w, s.g.names, p, env, want));
        if reaches(s.w, s.g.names, p, env, want) {
            let (rel, x) = choose|rel: NameId, x: Seq<Val>|
                want(rel, x) && #[trigger] derives(s.w, s.g.names, p, env, rel, x);
            assert(derives(s.w, s.g.names, p, env, rel, row));
        }
        if derives_numbered(s, p, number, row) {
            let rel = choose|rel: NameId|
                relation_number(s.g.name(rel)) == number && #[trigger] derives(
                    s.w,
                    s.g.names,
                    p,
                    env,
                    rel,
                    row,
                );
            assert(want(rel, row));
        }
    }
    r
}

/// Plans between merges, one world for each mark of what relations hold, and what a merge does: the
/// next mark, the rows that still count as inserted, and whether any row is new.
pub struct Course {
    pub sites: spec_fn(int) -> Site,
    pub merge: spec_fn(int, Set<(int, Seq<Val>)>) -> (int, Set<(int, Seq<Val>)>, bool),
}

/// What relations hold, and the rows that were inserted.
pub struct Progress {
    pub epoch: int,
    pub inserted: Set<(int, Seq<Val>)>,
}

impl Course {
    /// The code, the functions and the names are the same throughout.
    pub open spec fn wf(self, code: Seq<Instr>, calls: Calls, g: Graph, order: Seq<NameId>) -> bool {
        &&& forall|e: int|
            {
                &&& (#[trigger] (self.sites)(e)).wf()
                &&& (self.sites)(e).host.epoch == e
                &&& (self.sites)(e).host.calls == calls
                &&& (self.sites)(e).code == code
                &&& (self.sites)(e).g == g
                &&& (self.sites)(e).order == order
            }
        &&& forall|h: HostState| #[trigger]
            calls("merge_deltas"@, Seq::<Slot>::empty(), h) == (
                one(truth((self.merge)(h.epoch, h.inserted).2)),
                HostState {
                    epoch: (self.merge)(h.epoch, h.inserted).0,
                    inserted: (self.merge)(h.epoch, h.inserted).1,
                    ..h
                },
            )
    }

    /// The plans can be run in every world.
    pub open spec fn can_run(self, ps: Seq<Plan>) -> bool {
        forall|e: int, k: int|
            0 <= k < ps.len() ==> runnable(
                (#[trigger] (self.sites)(e)).host,
                (self.sites)(e).g,
                (self.sites)(e).order,
                Set::empty(),
                #[trigger] ps[k],
            )
    }

    /// Once plans are run, what they derive is inserted.
    pub open spec fn done(self, ps: Seq<Plan>, st: Progress) -> Progress {
        Progress {
            epoch: st.epoch,
            inserted: st.inserted.union(
                Set::new(|x: (int, Seq<Val>)| derived_by_some((self.sites)(st.epoch), ps, x)),
            ),
        }
    }

    /// Once rows are merged.
    pub open spec fn merged(self, st: Progress) -> Progress {
        let (epoch, inserted, _) = (self.merge)(st.epoch, st.inserted);
        Progress { epoch, inserted }
    }

    /// Whether a merge finds new rows.
    pub open spec fn any_new(self, st: Progress) -> bool {
        (self.merge)(st.epoch, st.inserted).2
    }

    /// Once a loop over plans is repeated `n` times: each time the plans are run and rows merged.
    pub open spec fn turns(self, ps: Seq<Plan>, st: Progress, n: nat) -> Progress
        decreases n,
    {
        if n == 0 {
            st
        } else {
            self.merged(self.done(ps, self.turns(ps, st, (n - 1) as nat)))
        }
    }

    /// Whether a loop that is begun in a state is left after `n` turns: there were new rows after
    /// every turn but the last.
    pub open spec fn left_after(self, ps: Seq<Plan>, st: Progress, n: nat) -> bool {
        &&& n > 0
        &&& forall|j: nat|
            j < n ==> (#[trigger] self.any_new(self.done(ps, self.turns(ps, st, j))) <==> j + 1 < n)
    }

    /// Whether the plans from `i` on, with the loops from `k` on, lead to a state: a plan is run once;
    /// before a loop rows are merged, and it is repeated as long as there are new rows.
    pub open spec fn leads(self, sc: Scheduled, counts: Seq<nat>, i: nat, k: nat, st: Progress, end: Progress) -> bool
        decreases sc.plans.len() - i, sc.loops.len() - k,
        when loops_fit(sc.loops, sc.plans.len())
    {
        if i >= sc.plans.len() {
            end == st
        } else if k < sc.loops.len() && sc.loops[k as int].0 == i {
            let hi = sc.loops[k as int].1;
            let part = sc.plans.subrange(i as int, hi as int);
            let n = counts[k as int];
            self.left_after(part, self.merged(st), n) && self.leads(
                sc,
                counts,
                hi,
                k + 1,
                self.turns(part, self.merged(st), n),
                end,
            )
        } else {
            self.leads(sc, counts, i + 1, k, self.done(seq![sc.plans[i as int]], st), end)
        }
    }
}

/// Whether one of the plans derives a row.
pub open spec fn derived_by_some(s: Site, ps: Seq<Plan>, x: (int, Seq<Val>)) -> bool {
    exists|k: int| 0 <= k < ps.len() && derives_numbered(s, #[trigger] ps[k], x.0, x.1)
}

/// The state of a host is that of a course.
spec fn agrees(h: HostState, st: Progress) -> bool {
    h.epoch == st.epoch && h.inserted == st.inserted
}

/// A plan derives a row that is wanted if it derives one with the number.
proof fn lemma_numbered(s: Site, p: Plan, x: (int, Seq<Val>))
    requires
        counted(p),
    ensures
        reaches(s.w, s.g.names, p, Map::empty(), wanted(s.g, x)) <==> derives_numbered(s, p, x.0, x.1),
{
    let env: Env = Map::empty();
    let want = wanted(s.g, x);
    lemma_some(s.w, s.g.names, p, env, want);
    if reaches(s.w, s.g.names, p, env, want) {
        let (rel, row) = choose|rel: NameId, row: Seq<Val>|
            want(rel, row) && #[trigger] derives(s.w, s.g.names, p, env, rel, row);
        assert(derives(s.w, s.g.names, p, env, rel, x.1));
    }
    if derives_numbered(s, p, x.0, x.1) {
        let rel = choose|rel: NameId|
            relation_number(s.g.name(rel)) == x.0 && #[trigger] derives(
                s.w,
                s.g.names,
                p,
                env,
                rel,
                x.1,
            );
        assert(want(rel, x.1));
    }
}

/// Plans that can be run one by one can be run together.
proof fn lemma_all_runnable(s: Site, ps: Seq<Plan>, n: nat)
    requires
        n <= ps.len(),
        forall|k: int| 0 <= k < ps.len() ==> runnable(s.host, s.g, s.order, Set::empty(), #[trigger] ps[k]),
    ensures
        all_runnable(s.host, s.g, s.order, Set::empty(), ps, n),
    decreases n,
{
    if n > 0 {
        lemma_all_runnable(s, ps, (n - 1) as nat);
        assert(runnable(s.host, s.g, s.order, Set::empty(), ps[n - 1]));
    }
}

/// Running the code of plans between merges.
proof fn lemma_done(c: Course, s: Site, ps: Seq<Plan>, offset: u32, m: Machine, st: Progress) -> (r: Machine)
    requires
        c.wf(s.code, s.host.calls, s.g, s.order),
        s == (c.sites)(st.epoch),
        c.can_run(ps),
        scan_locals(s) + offset + all_scans(ps, ps.len()) <= u32::MAX,
        agrees(m.host, st),
        at(s.code, m.pc, plans_code(WasmImportsBackend, s.g, s.order, offset, ps, ps.len()).0),
    ensures
        s.runs(m, r),
        r.pc == m.pc + plans_code(WasmImportsBackend, s.g, s.order, offset, ps, ps.len()).0.len(),
        r.labels == m.labels,
        r.stack == m.stack,
        agrees(r.host, c.done(ps, st)),
{
    let none = Set::<NameId>::empty();
    let env: Env = Map::empty();
    assert forall|k: int| 0 <= k < ps.len() implies runnable(s.host, s.g, s.order, none, #[trigger] ps[k]) by {
        assert(runnable((c.sites)(st.epoch).host, s.g, s.order, none, ps[k]));
    }
    lemma_all_runnable(s, ps, ps.len());
    lemma_all_counted(s.host, s.g, s.order, none, ps, ps.len());
    assert(held(s, none, env, m.locals));
    let r = lemma_plans(s, ps, ps.len(), none, env, offset, m);
    let want = c.done(ps, st).inserted;
    assert forall|x: (int, Seq<Val>)| #[trigger] r.host.inserted.contains(x) == want.contains(x) by {
        assert forall|k: int| 0 <= k < ps.len() implies reaches(
            s.w,
            s.g.names,
            #[trigger] ps[k],
            env,
            wanted(s.g, x),
        ) == derives_numbered(s, ps[k], x.0, x.1) by {
            lemma_counted_at(ps, ps.len(), k);
            lemma_numbered(s, ps[k], x);
        }
        if by_some(s, ps, ps.len(), env, x) {
            let k = choose|k: int|
                0 <= k < ps.len() && reaches(s.w, s.g.names, #[trigger] ps[k], env, wanted(s.g, x));
            assert(derives_numbered(s, ps[k], x.0, x.1));
        }
        if derived_by_some(s, ps, x) {
            let k = choose|k: int| 0 <= k < ps.len() && derives_numbered(s, #[trigger] ps[k], x.0, x.1);
            assert(reaches(s.w, s.g.names, ps[k], env, wanted(s.g, x)));
        }
    }
    assert(r.host.inserted =~= want);
    r
}

/// A call that merges rows.
proof fn lemma_merge(c: Course, s: Site, m: Machine, st: Progress) -> (r: Machine)
    requires
        c.wf(s.code, s.host.calls, s.g, s.order),
        agrees(m.host, st),
        s.code[m.pc] == Instr::Call(IMP_MERGE_DELTAS),
    ensures
        s.runs(m, r),
        r.pc == m.pc + 1,
        r.labels == m.labels,
        r.locals == m.locals,
        r.stack == m.stack.push(truth(c.any_new(st))),
        agrees(r.host, c.merged(st)),
{
    lemma_imports();
    let said = truth(c.any_new(st));
    let (epoch, inserted, _) = (c.merge)(st.epoch, st.inserted);
    let host = HostState { epoch, inserted, ..m.host };
    assert(m.stack =~= m.stack + Seq::<Slot>::empty());
    lemma_call(s, m, IMP_MERGE_DELTAS, "merge_deltas"@, m.stack, Seq::empty(), one(said), host);
    assert(m.stack + one(said) =~= m.stack.push(said));
    Machine { host, ..moved(m, 1, m.stack.push(said)) }
}

/// One course has the same machine throughout.
proof fn lemma_one_machine(c: Course, s: Site, e: int)
    requires
        c.wf(s.code, s.host.calls, s.g, s.order),
    ensures
        (c.sites)(e).wf(),
        (c.sites)(e).code == s.code,
        (c.sites)(e).host.calls == s.host.calls,
        (c.sites)(e).g == s.g,
        (c.sites)(e).order == s.order,
        (c.sites)(e).host.epoch == e,
{
}

/// The turns of a loop that are left.
#[verifier::rlimit(40)]
proof fn lemma_turns(
    c: Course,
    s: Site,
    ps: Seq<Plan>,
    offset: u32,
    lo: int,
    outer: Seq<Label>,
    m: Machine,
    st: Progress,
    j: nat,
    n: nat,
) -> (r: Machine)
    requires
        c.wf(s.code, s.host.calls, s.g, s.order),
        c.can_run(ps),
        scan_locals(s) + offset + all_scans(ps, ps.len()) <= u32::MAX,
        at(s.code, lo, plans_code(WasmImportsBackend, s.g, s.order, offset, ps, ps.len()).0),
        at(
            s.code,
            lo + plans_code(WasmImportsBackend, s.g, s.order, offset, ps, ps.len()).0.len(),
            seq![Instr::Call(IMP_MERGE_DELTAS), Instr::BrIf(0), Instr::End],
        ),
        m.pc == lo,
        m.labels == outer.push(Label::Again(lo, m.stack.len())),
        j < n,
        c.left_after(ps, st, n),
        agrees(m.host, c.turns(ps, st, j)),
    ensures
        s.runs(m, r),
        r.pc == lo + plans_code(WasmImportsBackend, s.g, s.order, offset, ps, ps.len()).0.len() + 3,
        r.labels == outer,
        r.stack == m.stack,
        agrees(r.host, c.turns(ps, st, n)),
    decreases n - j,
{
    let body = plans_code(WasmImportsBackend, s.g, s.order, offset, ps, ps.len()).0;
    let ends = seq![Instr::Call(IMP_MERGE_DELTAS), Instr::BrIf(0), Instr::End];
    let now = c.turns(ps, st, j);
    let here = (c.sites)(now.epoch);
    lemma_one_machine(c, s, now.epoch);
    let a = lemma_done(c, here, ps, offset, m, now);
    assert(s.runs(m, a));
    lemma_at(s.code, lo + body.len(), ends, 0);
    lemma_at(s.code, lo + body.len(), ends, 1);
    lemma_at(s.code, lo + body.len(), ends, 2);
    let ran = c.done(ps, now);
    let b = lemma_merge(c, s, a, ran);
    lemma_then(s, m, a, b);
    lemma_step(s, b);
    assert(b.stack.drop_last() =~= m.stack);
    assert(c.turns(ps, st, j + 1) == c.merged(ran));
    assert(c.any_new(c.done(ps, c.turns(ps, st, j))) <==> j + 1 < n);
    if j + 1 < n {
        let d = Machine { pc: lo, stack: m.stack, ..b };
        let k = b.labels.len();
        assert(b.labels[k - 1] == Label::Again(lo, m.stack.len()));
        assert(b.labels.take(k as int) =~= b.labels);
        assert(m.stack.take(m.stack.len() as int) =~= m.stack);
        assert(step(s.code, s.host.calls, b) == d);
        lemma_then(s, m, b, d);
        let r = lemma_turns(c, s, ps, offset, lo, outer, d, st, j + 1, n);
        lemma_then(s, m, d, r);
        r
    } else {
        let d = Machine { pc: b.pc + 1, stack: m.stack, ..b };
        assert(step(s.code, s.host.calls, b) == d);
        lemma_then(s, m, b, d);
        lemma_step(s, d);
        let r = Machine { pc: d.pc + 1, labels: outer, ..d };
        assert(d.labels.drop_last() =~= outer);
        assert(step(s.code, s.host.calls, d) == r);
        lemma_then(s, m, d, r);
        r
    }
}

/// How many scans the plans from `i` on have.
spec fn scans_from(ps: Seq<Plan>, i: nat) -> nat
    decreases ps.len() - i,
{
    if i >= ps.len() {
        0
    } else {
        scans(ps[i as int]) + scans_from(ps, i + 1)
    }
}

proof fn lemma_scans_part(ps: Seq<Plan>, i: nat, hi: nat)
    requires
        i <= hi <= ps.len(),
    ensures
        all_scans(ps.subrange(i as int, hi as int), (hi - i) as nat) + scans_from(ps, hi) == scans_from(ps, i),
    decreases hi - i,
{
    let part = ps.subrange(i as int, hi as int);
    if i < hi {
        lemma_scans_part(ps, i, (hi - 1) as nat);
        let less = ps.subrange(i as int, hi - 1);
        lemma_same_scans(less, part, (hi - 1 - i) as nat);
        assert(part[hi - i - 1] == ps[hi - 1]);
    }
}

proof fn lemma_same_scans(a: Seq<Plan>, b: Seq<Plan>, n: nat)
    requires
        n <= a.len(),
        n <= b.len(),
        forall|i: int| 0 <= i < n ==> a[i] == b[i],
    ensures
        all_scans(a, n) == all_scans(b, n),
    decreases n,
{
    if n > 0 {
        lemma_same_scans(a, b, (n - 1) as nat);
    }
}

/// Running the code of the plans of a program, from a plan and a loop on.
#[verifier::rlimit(60)]
#[verifier::spinoff_prover]
proof fn lemma_schedule_runs(
    c: Course,
    s: Site,
    sc: Scheduled,
    counts: Seq<nat>,
    offset: u32,
    i: nat,
    k: nat,
    m: Machine,
    st: Progress,
    end: Progress,
) -> (r: Machine)
    requires
        c.wf(s.code, s.host.calls, s.g, s.order),
        sc.g == s.g,
        c.can_run(sc.plans),
        loops_fit(sc.loops, sc.plans.len()),
        i <= sc.plans.len(),
        scan_locals(s) + offset + scans_from(sc.plans, i) <= u32::MAX,
        agrees(m.host, st),
        c.leads(sc, counts, i, k, st, end),
        at(s.code, m.pc, schedule_code(WasmImportsBackend, sc, s.order, offset, i, k)),
    ensures
        s.runs(m, r),
        r.pc == m.pc + schedule_code(WasmImportsBackend, sc, s.order, offset, i, k).len(),
        r.labels == m.labels,
        r.stack == m.stack,
        agrees(r.host, end),
    decreases sc.plans.len() - i, sc.loops.len() - k,
{
    let w = WasmImportsBackend;
    let none = Set::<NameId>::empty();
    if i >= sc.plans.len() {
        lemma_stay(s, m);
        m
    } else if k < sc.loops.len() && sc.loops[k as int].0 == i {
        let hi = sc.loops[k as int].1;
        let part = sc.plans.subrange(i as int, hi as int);
        let n = counts[k as int];
        let (body, next) = plans_code(w, s.g, s.order, offset, part, part.len());
        let opening = w.merge_deltas() + seq![Instr::Drop, Instr::Loop];
        let closing = w.merge_deltas() + seq![Instr::BrIf(0), Instr::End];
        let rest = schedule_code(w, sc, s.order, next, hi, k + 1);
        assert(schedule_code(w, sc, s.order, offset, i, k) =~= opening + body + closing + rest);
        lemma_split(s.code, m.pc, opening + body + closing, rest);
        lemma_split(s.code, m.pc, opening + body, closing);
        lemma_split(s.code, m.pc, opening, body);
        assert(closing =~= seq![Instr::Call(IMP_MERGE_DELTAS), Instr::BrIf(0), Instr::End]);
        lemma_at(s.code, m.pc, opening, 0);
        lemma_at(s.code, m.pc, opening, 1);
        lemma_at(s.code, m.pc, opening, 2);
        let a = lemma_merge(c, s, m, st);
        let first = c.merged(st);
        let b = Machine { pc: m.pc + 2, stack: m.stack, ..a };
        lemma_step(s, a);
        assert(a.stack.drop_last() =~= m.stack);
        lemma_then(s, m, a, b);
        let lo = m.pc + 3;
        let d = Machine { pc: lo, labels: m.labels.push(Label::Again(lo, m.stack.len())), ..b };
        lemma_step(s, b);
        lemma_then(s, m, b, d);
        assert forall|e: int, j: int| 0 <= j < part.len() implies runnable(
            (#[trigger] (c.sites)(e)).host,
            (c.sites)(e).g,
            (c.sites)(e).order,
            none,
            #[trigger] part[j],
        ) by {
            assert(part[j] == sc.plans[i + j]);
        }
        lemma_scans_part(sc.plans, i, hi);
        let x = lemma_turns(c, s, part, offset, lo, m.labels, d, first, 0, n);
        lemma_then(s, m, d, x);
        lemma_one_machine(c, s, st.epoch);
        let here = (c.sites)(st.epoch);
        assert forall|j: int| 0 <= j < part.len() implies runnable(here.host, s.g, s.order, none, #[trigger] part[j]) by {
            assert(runnable((c.sites)(st.epoch).host, here.g, here.order, none, part[j]));
        }
        lemma_all_runnable(here, part, part.len());
        lemma_all_counted(here.host, s.g, s.order, none, part, part.len());
        lemma_offsets(s.g, s.order, offset, part, part.len());
        let r = lemma_schedule_runs(
            c,
            s,
            sc,
            counts,
            next,
            hi,
            k + 1,
            x,
            c.turns(part, first, n),
            end,
        );
        lemma_then(s, m, x, r);
        r
    } else {
        let p = sc.plans[i as int];
        let ps = seq![p];
        let (one_code, next) = plan_code(w, s.g, s.order, offset, p);
        let rest = schedule_code(w, sc, s.order, next, i + 1, k);
        lemma_split(s.code, m.pc, one_code, rest);
        assert(plans_code(w, s.g, s.order, offset, ps, 0) == (Seq::<Instr>::empty(), offset));
        assert(plans_code(w, s.g, s.order, offset, ps, 1).0 =~= one_code);
        assert(all_scans(ps, 0) == 0);
        assert(all_scans(ps, 1) == scans(p));
        lemma_one_machine(c, s, st.epoch);
        let here = (c.sites)(st.epoch);
        assert forall|e: int, j: int| 0 <= j < ps.len() implies runnable(
            (#[trigger] (c.sites)(e)).host,
            (c.sites)(e).g,
            (c.sites)(e).order,
            none,
            #[trigger] ps[j],
        ) by {
            assert(ps[j] == sc.plans[i as int]);
        }
        let x = lemma_done(c, here, ps, offset, m, st);
        assert(s.runs(m, x));
        assert(runnable((c.sites)(st.epoch).host, here.g, here.order, none, sc.plans[i as int]));
        lemma_counted(here.host, s.g, s.order, none, p);
        lemma_offset(s.g, s.order, offset, p);
        let r = lemma_schedule_runs(c, s, sc, counts, next, i + 1, k, x, c.done(ps, st), end);
        lemma_then(s, m, x, r);
        r
    }
}

/// Running the code of a program runs its plans in their order: each inserts what it derives from
/// what relations hold, rows are merged before a loop and after every turn of it, and a loop is
/// left when a merge finds nothing new.
pub proof fn the_code_of_a_program_runs_its_plans(
    c: Course,
    s: Site,
    sc: Scheduled,
    counts: Seq<nat>,
    m: Machine,
    st: Progress,
    end: Progress,
) -> (r: Machine)
    requires
        c.wf(s.code, s.host.calls, s.g, s.order),
        sc.g == s.g,
        c.can_run(sc.plans),
        loops_fit(sc.loops, sc.plans.len()),
        s.code == run_code(WasmImportsBackend, sc),
        s.order == all_collected(Seq::empty(), sc.plans, sc.plans.len()),
        s.order.len() + 2 + all_scans(sc.plans, sc.plans.len()) <= u32::MAX,
        m.pc == 0,
        m.host.epoch == st.epoch,
        m.host.inserted == st.inserted,
        c.leads(sc, counts, 0, 0, st, end),
    ensures
        s.runs(m, r),
        r.pc == s.code.len() - 1,
        s.code.last() == Instr::End,
        r.labels == m.labels,
        r.stack == m.stack,
        r.host.epoch == end.epoch,
        r.host.inserted == end.inserted,
{
    let body = schedule_code(WasmImportsBackend, sc, s.order, 0, 0, 0);
    assert(s.code == body + seq![Instr::End]);
    assert(s.code.subrange(0, s.code.len() as int) =~= s.code);
    lemma_split(s.code, 0, body, seq![Instr::End]);
    lemma_scans_part(sc.plans, 0, sc.plans.len());
    assert(sc.plans.subrange(0, sc.plans.len() as int) =~= sc.plans);
    lemma_schedule_runs(c, s, sc, counts, 0, 0, 0, m, st, end)
}

/// Whether a plan binds a variable.
pub open spec fn binds(p: Plan, v: NameId) -> bool
    decreases p, 0nat,
{
    match p {
        Plan::Iterate { source, body } => row_vars(source).contains(v) || binds(*body, v),
        Plan::Let { var, body, .. } => var == v || binds(*body, v),
        Plan::Filter { body, .. } => binds(*body, v),
        Plan::Sequence(ps) => some_binds(ps, ps.len(), v),
        Plan::GroupBy { body, .. } => binds(*body, v),
        _ => false,
    }
}

/// Whether one of the first `n` plans binds a variable.
pub open spec fn some_binds(ps: Seq<Plan>, n: nat, v: NameId) -> bool
    decreases ps, n,
{
    if n == 0 || n > ps.len() {
        false
    } else {
        some_binds(ps, (n - 1) as nat, v) || binds(ps[n - 1], v)
    }
}

proof fn lemma_with_locals(order: Seq<NameId>, vars: Seq<NameId>, n: nat)
    requires
        n <= vars.len(),
        order.no_duplicates(),
    ensures
        with_locals(order, vars, n).no_duplicates(),
        forall|v: NameId| order.contains(v) ==> #[trigger] with_locals(order, vars, n).contains(v),
        forall|k: int| 0 <= k < n ==> with_locals(order, vars, n).contains(#[trigger] vars[k]),
    decreases n,
{
    if n > 0 {
        lemma_with_locals(order, vars, (n - 1) as nat);
        let before = with_locals(order, vars, (n - 1) as nat);
        lemma_with_local(before, vars[n - 1]);
    }
}

proof fn lemma_with_local(order: Seq<NameId>, v: NameId)
    requires
        order.no_duplicates(),
    ensures
        with_local(order, v).no_duplicates(),
        with_local(order, v).contains(v),
        forall|x: NameId| order.contains(x) ==> #[trigger] with_local(order, v).contains(x),
{
    let now = with_local(order, v);
    if !order.contains(v) {
        assert(now[order.len() as int] == v);
        assert forall|x: NameId| order.contains(x) implies #[trigger] now.contains(x) by {
            let i = order.index_of(x);
            assert(now[i] == x);
        }
    }
}

/// What a plan binds gets a local.
#[verifier::rlimit(30)]
proof fn lemma_locals(order: Seq<NameId>, p: Plan)
    requires
        order.no_duplicates(),
    ensures
        collected(order, p).no_duplicates(),
        forall|v: NameId| order.contains(v) || binds(p, v) ==> #[trigger] collected(order, p).contains(v),
    decreases p, 2nat, 0nat,
{
    match p {
        Plan::Iterate { source, body } => {
            let vars = row_vars(source);
            assert(source_vars(source) == vars);
            lemma_with_locals(order, vars, vars.len());
            let now = with_locals(order, vars, vars.len());
            lemma_locals(now, *body);
            assert forall|v: NameId| order.contains(v) || binds(p, v) implies #[trigger] collected(order, p).contains(v) by {
                if vars.contains(v) {
                    let k = vars.index_of(v);
                    assert(vars[k] == v);
                    assert(now.contains(v));
                }
                if order.contains(v) {
                    assert(now.contains(v));
                }
            }
        },
        Plan::Let { var, body, .. } => {
            lemma_with_local(order, var);
            let now = with_local(order, var);
            lemma_locals(now, *body);
            assert forall|v: NameId| order.contains(v) || binds(p, v) implies #[trigger] collected(order, p).contains(v) by {
                if order.contains(v) {
                    assert(now.contains(v));
                }
            }
        },
        Plan::Filter { body, .. } => {
            lemma_locals(order, *body);
        },
        Plan::Sequence(ps) => {
            lemma_all_locals(order, ps, ps.len());
        },
        Plan::GroupBy { vars, aggregates, body, .. } => {
            lemma_with_locals(order, vars, vars.len());
            let one_more = with_locals(order, vars, vars.len());
            lemma_with_locals(one_more, fold_vars(aggregates), aggregates.len());
            let now = with_locals(one_more, fold_vars(aggregates), aggregates.len());
            lemma_locals(now, *body);
            assert forall|v: NameId| order.contains(v) || binds(p, v) implies #[trigger] collected(order, p).contains(v) by {
                if order.contains(v) {
                    assert(one_more.contains(v));
                    assert(now.contains(v));
                }
            }
        },
        _ => {},
    }
}

proof fn lemma_all_locals(order: Seq<NameId>, ps: Seq<Plan>, n: nat)
    requires
        order.no_duplicates(),
        n <= ps.len(),
    ensures
        all_collected(order, ps, n).no_duplicates(),
        forall|v: NameId|
            order.contains(v) || some_binds(ps, n, v) ==> #[trigger] all_collected(order, ps, n).contains(v),
    decreases ps, 1nat, n,
{
    if n > 0 {
        lemma_all_locals(order, ps, (n - 1) as nat);
        let before = all_collected(order, ps, (n - 1) as nat);
        lemma_locals(before, ps[n - 1]);
        assert forall|v: NameId| order.contains(v) || some_binds(ps, n, v) implies #[trigger] all_collected(
            order,
            ps,
            n,
        ).contains(v) by {
            if order.contains(v) || some_binds(ps, (n - 1) as nat, v) {
                assert(before.contains(v));
            }
        }
    }
}

/// Every variable that a plan of the program binds has a local of its own in the code of the
/// program: no two variables share one, and none has a local that is kept for other things.
pub proof fn every_variable_has_a_local_of_its_own(ps: Seq<Plan>, v: NameId, u: NameId)
    requires
        some_binds(ps, ps.len(), v),
        some_binds(ps, ps.len(), u),
        all_collected(Seq::empty(), ps, ps.len()).len() + 2 <= u32::MAX,
    ensures
        ({
            let order = all_collected(Seq::empty(), ps, ps.len());
            &&& local_of(order, v) is Some
            &&& 2 <= local_of(order, v)->Some_0 < order.len() + 2
            &&& v != u ==> local_of(order, v) != local_of(order, u)
        }),
{
    let order = all_collected(Seq::empty(), ps, ps.len());
    lemma_all_locals(Seq::empty(), ps, ps.len());
    assert(order.contains(v));
    assert(order.contains(u));
    let i = order.index_of(v);
    let j = order.index_of(u);
    assert(order[i] == v && order[j] == u);
}

/// How functions are called.
#[verifier::rlimit(60)]
#[verifier::spinoff_prover]
proof fn lemma_shapes(a: Arithmetic, vs: Seq<Val>)
    ensures
        shape_of("fn:plus"@) == Shape::Fold(IMP_VAL_ADD),
        computed(a, "fn:plus"@, vs) == folded(a.plus, vs),
        shape_of("fn:float:plus"@) == Shape::Fold(IMP_VAL_ADD),
        computed(a, "fn:float:plus"@, vs) == folded(a.plus, vs),
        shape_of("fn:minus"@) == Shape::Fold(IMP_VAL_SUB),
        computed(a, "fn:minus"@, vs) == folded(a.minus, vs),
        shape_of("fn:float:minus"@) == Shape::Fold(IMP_VAL_SUB),
        computed(a, "fn:float:minus"@, vs) == folded(a.minus, vs),
        shape_of("fn:mult"@) == Shape::Fold(IMP_VAL_MUL),
        computed(a, "fn:mult"@, vs) == folded(a.times, vs),
        shape_of("fn:float:mult"@) == Shape::Fold(IMP_VAL_MUL),
        computed(a, "fn:float:mult"@, vs) == folded(a.times, vs),
        shape_of("fn:div"@) == Shape::Fold(IMP_VAL_DIV),
        computed(a, "fn:div"@, vs) == folded(a.over, vs),
        shape_of("fn:float:div"@) == Shape::Fold(IMP_VAL_DIV),
        computed(a, "fn:float:div"@, vs) == folded(a.over, vs),
        shape_of("fn:sqrt"@) == Shape::Unary(IMP_VAL_SQRT),
        computed(a, "fn:sqrt"@, vs) == (a.root)(vs[0]),
        shape_of("fn:string:concat"@) == Shape::Fold(IMP_STR_CONCAT),
        computed(a, "fn:string:concat"@, vs) == folded(a.joined, vs),
        shape_of("fn:string:replace"@) == Shape::Exactly(4, IMP_STR_REPLACE),
        computed(a, "fn:string:replace"@, vs) == (a.replaced)(vs[0], vs[1], vs[2], vs[3]),
        shape_of("fn:number:to_string"@) == Shape::Unary(IMP_VAL_TO_STRING),
        computed(a, "fn:number:to_string"@, vs) == (a.text)(vs[0]),
        shape_of("fn:float64:to_string"@) == Shape::Unary(IMP_VAL_TO_STRING),
        computed(a, "fn:float64:to_string"@, vs) == (a.text)(vs[0]),
        shape_of("fn:name:to_string"@) == Shape::Unary(IMP_VAL_TO_STRING),
        computed(a, "fn:name:to_string"@, vs) == (a.text)(vs[0]),
        shape_of("fn:list"@) == Shape::Compound(0),
        computed(a, "fn:list"@, vs) == (a.compound)(0, vs),
        shape_of("fn:pair"@) == Shape::Compound(1),
        computed(a, "fn:pair"@, vs) == (a.compound)(1, vs),
        shape_of("fn:map"@) == Shape::Compound(2),
        computed(a, "fn:map"@, vs) == (a.compound)(2, vs),
        shape_of("fn:struct"@) == Shape::Compound(3),
        computed(a, "fn:struct"@, vs) == (a.compound)(3, vs),
        shape_of("fn:list:get"@) == Shape::Exactly(2, IMP_COMPOUND_GET),
        computed(a, "fn:list:get"@, vs) == (a.part)(vs[0], vs[1]),
        shape_of("fn:map:get"@) == Shape::Exactly(2, IMP_COMPOUND_GET),
        computed(a, "fn:map:get"@, vs) == (a.part)(vs[0], vs[1]),
        shape_of("fn:struct:get"@) == Shape::Exactly(2, IMP_COMPOUND_GET),
        computed(a, "fn:struct:get"@, vs) == (a.part)(vs[0], vs[1]),
        shape_of("fn:len"@) == Shape::Unary(IMP_COMPOUND_LEN),
        computed(a, "fn:len"@, vs) == (a.count)(vs[0]),
        shape_of("fn:list:len"@) == Shape::Unary(IMP_COMPOUND_LEN),
        computed(a, "fn:list:len"@, vs) == (a.count)(vs[0]),
        shape_of("fn:struct:len"@) == Shape::Unary(IMP_COMPOUND_LEN),
        computed(a, "fn:struct:len"@, vs) == (a.count)(vs[0]),
        shape_of("fn:map:len"@) == Shape::Unary(IMP_COMPOUND_LEN),
        computed(a, "fn:map:len"@, vs) == (a.count)(vs[0]),
        shape_of("fn:pair:first"@) == Shape::Unary(IMP_PAIR_FIRST),
        computed(a, "fn:pair:first"@, vs) == (a.first)(vs[0]),
        shape_of("fn:pair:second"@) == Shape::Unary(IMP_PAIR_SECOND),
        computed(a, "fn:pair:second"@, vs) == (a.second)(vs[0]),
{
    reveal_strlit("fn:plus");
    reveal_strlit("fn:float:plus");
    reveal_strlit("fn:minus");
    reveal_strlit("fn:float:minus");
    reveal_strlit("fn:mult");
    reveal_strlit("fn:float:mult");
    reveal_strlit("fn:div");
    reveal_strlit("fn:float:div");
    reveal_strlit("fn:sqrt");
    reveal_strlit("fn:string:concat");
    reveal_strlit("fn:string:replace");
    reveal_strlit("fn:number:to_string");
    reveal_strlit("fn:float64:to_string");
    reveal_strlit("fn:name:to_string");
    reveal_strlit("fn:list");
    reveal_strlit("fn:pair");
    reveal_strlit("fn:map");
    reveal_strlit("fn:struct");
    reveal_strlit("fn:list:get");
    reveal_strlit("fn:map:get");
    reveal_strlit("fn:struct:get");
    reveal_strlit("fn:len");
    reveal_strlit("fn:list:len");
    reveal_strlit("fn:struct:len");
    reveal_strlit("fn:map:len");
    reveal_strlit("fn:pair:first");
    reveal_strlit("fn:pair:second");
    assert("fn:plus"@.len() == 7);
    assert("fn:float:plus"@.len() == 13);
    assert("fn:minus"@.len() == 8);
    assert("fn:float:minus"@.len() == 14);
    assert("fn:mult"@.len() == 7);
    assert("fn:float:mult"@.len() == 13);
    assert("fn:div"@.len() == 6);
    assert("fn:float:div"@.len() == 12);
    assert("fn:sqrt"@.len() == 7);
    assert("fn:string:concat"@.len() == 16);
    assert("fn:string:replace"@.len() == 17);
    assert("fn:number:to_string"@.len() == 19);
    assert("fn:float64:to_string"@.len() == 20);
    assert("fn:name:to_string"@.len() == 17);
    assert("fn:list"@.len() == 7);
    assert("fn:pair"@.len() == 7);
    assert("fn:map"@.len() == 6);
    assert("fn:struct"@.len() == 9);
    assert("fn:list:get"@.len() == 11);
    assert("fn:map:get"@.len() == 10);
    assert("fn:struct:get"@.len() == 13);
    assert("fn:len"@.len() == 6);
    assert("fn:list:len"@.len() == 11);
    assert("fn:struct:len"@.len() == 13);
    assert("fn:map:len"@.len() == 10);
    assert("fn:pair:first"@.len() == 13);
    assert("fn:pair:second"@.len() == 14);
    assert("fn:mult"@[3] == 'm');
    assert("fn:plus"@[3] == 'p');
    assert("fn:float:mult"@[9] == 'm');
    assert("fn:float:plus"@[9] == 'p');
    assert("fn:sqrt"@[3] == 's');
    assert("fn:name:to_string"@[3] == 'n');
    assert("fn:string:replace"@[3] == 's');
    assert("fn:list"@[3] == 'l');
    assert("fn:pair"@[4] == 'a');
    assert("fn:plus"@[4] == 'l');
    assert("fn:pair"@[3] == 'p');
    assert("fn:map"@[3] == 'm');
    assert("fn:div"@[3] == 'd');
    assert("fn:struct:get"@[3] == 's');
    assert("fn:float:plus"@[3] == 'f');
    assert("fn:float:mult"@[3] == 'f');
    assert("fn:len"@[3] == 'l');
    assert("fn:list:len"@[8] == 'l');
    assert("fn:list:get"@[8] == 'g');
    assert("fn:struct:len"@[3] == 's');
    assert("fn:struct:len"@[10] == 'l');
    assert("fn:struct:get"@[10] == 'g');
    assert("fn:map:len"@[7] == 'l');
    assert("fn:map:get"@[7] == 'g');
    assert("fn:pair:first"@[3] == 'p');
    assert("fn:pair:second"@[3] == 'p');
    assert("fn:float:minus"@[3] == 'f');
}

} // verus!
