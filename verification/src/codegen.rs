//! WebAssembly code for programs.
//!
//! Every value is an external reference in the generated code. The host makes constants,
//! computes, compares and keeps the relations, through functions that the module imports.
use vstd::prelude::*;

use crate::ir::{Graph, Ir, NameId, StringId};
use crate::names::NameMap;
use crate::physical::{CompareOp, Condition, Constant, DataSource, Expr, Op, Operand};
use crate::physical::{
    folds, known, lemma_all_known, plan_of, plans, source_relation, term_known, Plan, Source, Term, Test,
};
use crate::physical::all_known;
use crate::planner::fold_vars;
use crate::schedule::{loop_bounds, loops_fit, schedule, scheduled, text_lists, texts, Schedule, Scheduled};
use crate::text::str_eq;
use crate::wasm::{
    body_fits, encode, encoded, import_entries, imports_fit, program_sections, signatures,
    types_fit, Export, FuncType, Import, Instr, Program, Section, WasmType,
};

verus! {

pub const IMP_SCAN_START: u32 = 0;

pub const IMP_SCAN_NEXT: u32 = 1;

pub const IMP_GET_COL: u32 = 2;

pub const IMP_INSERT_BEGIN: u32 = 3;

pub const IMP_INSERT_PUSH: u32 = 4;

pub const IMP_INSERT_END: u32 = 5;

pub const IMP_SCAN_DELTA_START: u32 = 6;

pub const IMP_MERGE_DELTAS: u32 = 7;

pub const IMP_DEBUGLOG: u32 = 8;

pub const IMP_SCAN_INDEX_START: u32 = 9;

pub const IMP_SCAN_AGG_START: u32 = 10;

pub const IMP_CONST_NUMBER: u32 = 11;

pub const IMP_CONST_FLOAT: u32 = 12;

pub const IMP_CONST_STRING: u32 = 13;

pub const IMP_CONST_NAME: u32 = 14;

pub const IMP_CONST_TIME: u32 = 15;

pub const IMP_CONST_DURATION: u32 = 16;

pub const IMP_VAL_ADD: u32 = 17;

pub const IMP_VAL_SUB: u32 = 18;

pub const IMP_VAL_MUL: u32 = 19;

pub const IMP_VAL_DIV: u32 = 20;

pub const IMP_VAL_SQRT: u32 = 21;

pub const IMP_VAL_EQ: u32 = 22;

pub const IMP_VAL_NEQ: u32 = 23;

pub const IMP_VAL_LT: u32 = 24;

pub const IMP_VAL_LE: u32 = 25;

pub const IMP_VAL_GT: u32 = 26;

pub const IMP_VAL_GE: u32 = 27;

pub const IMP_STR_CONCAT: u32 = 28;

pub const IMP_STR_REPLACE: u32 = 29;

pub const IMP_VAL_TO_STRING: u32 = 30;

pub const IMP_COMPOUND_BEGIN: u32 = 31;

pub const IMP_COMPOUND_PUSH: u32 = 32;

pub const IMP_COMPOUND_END: u32 = 33;

pub const IMP_COMPOUND_GET: u32 = 34;

pub const IMP_COMPOUND_LEN: u32 = 35;

pub const IMP_PAIR_FIRST: u32 = 36;

pub const IMP_PAIR_SECOND: u32 = 37;

/// The number of functions that the host provides.
pub const NUM_IMPORTS: u32 = 38;

pub const TY_VOID: u32 = 0;

pub const TY_I32_I32: u32 = 1;

pub const TY_I32_I32_EXTERNREF: u32 = 2;

pub const TY_I32_VOID: u32 = 3;

pub const TY_EXTERNREF_VOID: u32 = 4;

pub const TY_VOID_I32: u32 = 5;

pub const TY_I32_I32_EXTERNREF_I32: u32 = 6;

pub const TY_I32_I32_I32_I32: u32 = 7;

pub const TY_I64_EXTERNREF: u32 = 8;

pub const TY_I32_EXTERNREF: u32 = 9;

pub const TY_BINOP: u32 = 10;

pub const TY_UNOP: u32 = 11;

pub const TY_COMPARE: u32 = 12;

pub const TY_QUADOP: u32 = 13;

pub const TY_VOID_EXTERNREF: u32 = 14;

/// A hash of bytes: 5381, then for each byte 33 times the hash plus the byte, modulo 2^32.
pub open spec fn djb2(bytes: Seq<u8>) -> int
    decreases bytes.len(),
{
    if bytes.len() == 0 {
        5381
    } else {
        (33 * djb2(bytes.drop_last()) + bytes.last()) % 0x1_0000_0000
    }
}

/// The hash of a name's bytes.
pub open spec fn name_hash(name: Seq<char>) -> u32 {
    djb2(vstd::utf8::encode_utf8(name)) as u32
}

/// The hash of a name, by which the host knows a relation.
pub fn djb2_hash(name: &str) -> (r: u32)
    ensures
        r == name_hash(name@),
        r == djb2(vstd::utf8::encode_utf8(name@)),
{
    let bytes = name.as_bytes();
    let mut hash: u32 = 5381;
    let mut i: usize = 0;
    assert(bytes@.take(0).len() == 0);
    while i < bytes.len()
        invariant
            i <= bytes@.len(),
            hash == djb2(bytes@.take(i as int)),
        decreases bytes@.len() - i,
    {
        let c: u8 = bytes[i];
        let ghost before = hash;
        let shifted: u32 = hash << 5u32;
        assert(shifted == (before * 32) % 0x1_0000_0000) by (bit_vector)
            requires
                shifted == before << 5u32,
        ;
        hash = shifted.wrapping_add(hash).wrapping_add(c as u32);
        assert(bytes@.take(i + 1).drop_last() =~= bytes@.take(i as int));
        assert(hash == (33 * before + c) % 0x1_0000_0000);
        i += 1;
    }
    assert(bytes@.take(bytes@.len() as int) =~= bytes@);
    hash
}

/// How physical operations are done: each emits code that does one.
pub trait Backend {
    /// Whether the code calls the functions that the host provides.
    spec fn imports_host(&self) -> bool;

    /// Whether the code calls the functions that the host provides.
    fn uses_host(&self) -> (r: bool)
        ensures
            r == self.imports_host(),
    ;

    /// Starts a scan of a relation and leaves the scan.
    spec fn scan_start(&self, rel: Seq<char>) -> Seq<Instr>;

    /// Starts a scan of a relation and leaves the scan.
    fn emit_scan_start(&self, func: &mut Vec<Instr>, rel_name: &str)
        ensures
            final(func)@ == old(func)@ + self.scan_start(rel_name@),
    ;

    /// Starts a scan of the new rows of a relation and leaves the scan.
    spec fn scan_delta_start(&self, rel: Seq<char>) -> Seq<Instr>;

    /// Starts a scan of the new rows of a relation and leaves the scan.
    fn emit_scan_delta_start(&self, func: &mut Vec<Instr>, rel_name: &str)
        ensures
            final(func)@ == old(func)@ + self.scan_delta_start(rel_name@),
    ;

    /// Takes a key and starts a scan of the rows that hold it in a column; leaves the scan.
    spec fn scan_index_start(&self, rel: Seq<char>, col_idx: u32) -> Seq<Instr>;

    /// Takes a key and starts a scan of the rows that hold it in a column; leaves the scan.
    fn emit_scan_index_start(&self, func: &mut Vec<Instr>, rel_name: &str, col_idx: u32)
        ensures
            final(func)@ == old(func)@ + self.scan_index_start(rel_name@, col_idx),
    ;

    /// Starts a scan of the groups of a relation, with a description in memory; leaves the scan.
    spec fn scan_aggregate_start(&self, rel: Seq<char>, ptr: i32, len: i32) -> Seq<Instr>;

    /// Starts a scan of the groups of a relation, with a description in memory; leaves the scan.
    fn emit_scan_aggregate_start(&self, func: &mut Vec<Instr>, rel_name: &str, ptr: i32, len: i32)
        ensures
            final(func)@ == old(func)@ + self.scan_aggregate_start(rel_name@, ptr, len),
    ;

    /// Leaves the next row of a scan, or zero.
    spec fn scan_next(&self, iter_local: u32) -> Seq<Instr>;

    /// Leaves the next row of a scan, or zero.
    fn emit_scan_next(&self, func: &mut Vec<Instr>, iter_local: u32)
        ensures
            final(func)@ == old(func)@ + self.scan_next(iter_local),
    ;

    /// Leaves the value of a row in a column.
    spec fn get_col(&self, tuple_local: u32, col_idx: u32) -> Seq<Instr>;

    /// Leaves the value of a row in a column.
    fn emit_get_col(&self, func: &mut Vec<Instr>, tuple_local: u32, col_idx: u32)
        ensures
            final(func)@ == old(func)@ + self.get_col(tuple_local, col_idx),
    ;

    /// Begins a new row of a relation.
    spec fn insert_begin(&self, rel: Seq<char>) -> Seq<Instr>;

    /// Begins a new row of a relation.
    fn emit_insert_begin(&self, func: &mut Vec<Instr>, rel_name: &str)
        ensures
            final(func)@ == old(func)@ + self.insert_begin(rel_name@),
    ;

    /// Takes a value for the next column of the new row.
    spec fn insert_push(&self) -> Seq<Instr>;

    /// Takes a value for the next column of the new row.
    fn emit_insert_push(&self, func: &mut Vec<Instr>)
        ensures
            final(func)@ == old(func)@ + self.insert_push(),
    ;

    /// Ends the new row.
    spec fn insert_end(&self) -> Seq<Instr>;

    /// Ends the new row.
    fn emit_insert_end(&self, func: &mut Vec<Instr>)
        ensures
            final(func)@ == old(func)@ + self.insert_end(),
    ;

    /// Makes the rows that were added the new ones; leaves whether there are any.
    spec fn merge_deltas(&self) -> Seq<Instr>;

    /// Makes the rows that were added the new ones; leaves whether there are any.
    fn emit_merge_deltas(&self, func: &mut Vec<Instr>)
        ensures
            final(func)@ == old(func)@ + self.merge_deltas(),
    ;

    /// Logs a value.
    spec fn debuglog(&self, val_local: u32) -> Seq<Instr>;

    /// Logs a value.
    fn emit_debuglog(&self, func: &mut Vec<Instr>, val_local: u32)
        ensures
            final(func)@ == old(func)@ + self.debuglog(val_local),
    ;
}

/// Operations that call the functions of the host.
pub struct WasmImportsBackend;

impl Backend for WasmImportsBackend {
    open spec fn imports_host(&self) -> bool {
        true
    }

    fn uses_host(&self) -> (r: bool) {
        true
    }

    open spec fn scan_start(&self, rel: Seq<char>) -> Seq<Instr> {
        seq![Instr::I32Const(name_hash(rel) as i32), Instr::Call(IMP_SCAN_START)]
    }

    fn emit_scan_start(&self, func: &mut Vec<Instr>, rel_name: &str) {
        func.push(Instr::I32Const(djb2_hash(rel_name) as i32));
        func.push(Instr::Call(IMP_SCAN_START));
        assert(func@ =~= old(func)@ + self.scan_start(rel_name@));
    }

    open spec fn scan_delta_start(&self, rel: Seq<char>) -> Seq<Instr> {
        seq![Instr::I32Const(name_hash(rel) as i32), Instr::Call(IMP_SCAN_DELTA_START)]
    }

    fn emit_scan_delta_start(&self, func: &mut Vec<Instr>, rel_name: &str) {
        func.push(Instr::I32Const(djb2_hash(rel_name) as i32));
        func.push(Instr::Call(IMP_SCAN_DELTA_START));
        assert(func@ =~= old(func)@ + self.scan_delta_start(rel_name@));
    }

    open spec fn scan_index_start(&self, rel: Seq<char>, col_idx: u32) -> Seq<Instr> {
        seq![Instr::LocalSet(0), Instr::I32Const(name_hash(rel) as i32), Instr::I32Const(col_idx as i32), Instr::LocalGet(0), Instr::Call(IMP_SCAN_INDEX_START)]
    }

    fn emit_scan_index_start(&self, func: &mut Vec<Instr>, rel_name: &str, col_idx: u32) {
        func.push(Instr::LocalSet(0));
        func.push(Instr::I32Const(djb2_hash(rel_name) as i32));
        func.push(Instr::I32Const(col_idx as i32));
        func.push(Instr::LocalGet(0));
        func.push(Instr::Call(IMP_SCAN_INDEX_START));
        assert(func@ =~= old(func)@ + self.scan_index_start(rel_name@, col_idx));
    }

    open spec fn scan_aggregate_start(&self, rel: Seq<char>, ptr: i32, len: i32) -> Seq<Instr> {
        seq![Instr::I32Const(name_hash(rel) as i32), Instr::I32Const(ptr), Instr::I32Const(len), Instr::Call(IMP_SCAN_AGG_START)]
    }

    fn emit_scan_aggregate_start(&self, func: &mut Vec<Instr>, rel_name: &str, ptr: i32, len: i32) {
        func.push(Instr::I32Const(djb2_hash(rel_name) as i32));
        func.push(Instr::I32Const(ptr));
        func.push(Instr::I32Const(len));
        func.push(Instr::Call(IMP_SCAN_AGG_START));
        assert(func@ =~= old(func)@ + self.scan_aggregate_start(rel_name@, ptr, len));
    }

    open spec fn scan_next(&self, iter_local: u32) -> Seq<Instr> {
        seq![Instr::LocalGet(iter_local), Instr::Call(IMP_SCAN_NEXT)]
    }

    fn emit_scan_next(&self, func: &mut Vec<Instr>, iter_local: u32) {
        func.push(Instr::LocalGet(iter_local));
        func.push(Instr::Call(IMP_SCAN_NEXT));
        assert(func@ =~= old(func)@ + self.scan_next(iter_local));
    }

    open spec fn get_col(&self, tuple_local: u32, col_idx: u32) -> Seq<Instr> {
        seq![Instr::LocalGet(tuple_local), Instr::I32Const(col_idx as i32), Instr::Call(IMP_GET_COL)]
    }

    fn emit_get_col(&self, func: &mut Vec<Instr>, tuple_local: u32, col_idx: u32) {
        func.push(Instr::LocalGet(tuple_local));
        func.push(Instr::I32Const(col_idx as i32));
        func.push(Instr::Call(IMP_GET_COL));
        assert(func@ =~= old(func)@ + self.get_col(tuple_local, col_idx));
    }

    open spec fn insert_begin(&self, rel: Seq<char>) -> Seq<Instr> {
        seq![Instr::I32Const(name_hash(rel) as i32), Instr::Call(IMP_INSERT_BEGIN)]
    }

    fn emit_insert_begin(&self, func: &mut Vec<Instr>, rel_name: &str) {
        func.push(Instr::I32Const(djb2_hash(rel_name) as i32));
        func.push(Instr::Call(IMP_INSERT_BEGIN));
        assert(func@ =~= old(func)@ + self.insert_begin(rel_name@));
    }

    open spec fn insert_push(&self) -> Seq<Instr> {
        seq![Instr::Call(IMP_INSERT_PUSH)]
    }

    fn emit_insert_push(&self, func: &mut Vec<Instr>) {
        func.push(Instr::Call(IMP_INSERT_PUSH));
        assert(func@ =~= old(func)@ + self.insert_push());
    }

    open spec fn insert_end(&self) -> Seq<Instr> {
        seq![Instr::Call(IMP_INSERT_END)]
    }

    fn emit_insert_end(&self, func: &mut Vec<Instr>) {
        func.push(Instr::Call(IMP_INSERT_END));
        assert(func@ =~= old(func)@ + self.insert_end());
    }

    open spec fn merge_deltas(&self) -> Seq<Instr> {
        seq![Instr::Call(IMP_MERGE_DELTAS)]
    }

    fn emit_merge_deltas(&self, func: &mut Vec<Instr>) {
        func.push(Instr::Call(IMP_MERGE_DELTAS));
        assert(func@ =~= old(func)@ + self.merge_deltas());
    }

    open spec fn debuglog(&self, val_local: u32) -> Seq<Instr> {
        seq![Instr::LocalGet(val_local), Instr::Call(IMP_DEBUGLOG)]
    }

    fn emit_debuglog(&self, func: &mut Vec<Instr>, val_local: u32) {
        func.push(Instr::LocalGet(val_local));
        func.push(Instr::Call(IMP_DEBUGLOG));
        assert(func@ =~= old(func)@ + self.debuglog(val_local));
    }
}

/// The functions that the host provides, in the order of their indices, each with the index
/// of its type.
pub open spec fn host_functions() -> Seq<Import> {
    seq![
        Import { name: "scan_start", ty: TY_I32_I32 },
        Import { name: "scan_next", ty: TY_I32_I32 },
        Import { name: "get_col", ty: TY_I32_I32_EXTERNREF },
        Import { name: "insert_begin", ty: TY_I32_VOID },
        Import { name: "insert_push", ty: TY_EXTERNREF_VOID },
        Import { name: "insert_end", ty: TY_VOID },
        Import { name: "scan_delta_start", ty: TY_I32_I32 },
        Import { name: "merge_deltas", ty: TY_VOID_I32 },
        Import { name: "debuglog", ty: TY_EXTERNREF_VOID },
        Import { name: "scan_index_start", ty: TY_I32_I32_EXTERNREF_I32 },
        Import { name: "scan_aggregate_start", ty: TY_I32_I32_I32_I32 },
        Import { name: "const_number", ty: TY_I64_EXTERNREF },
        Import { name: "const_float", ty: TY_I64_EXTERNREF },
        Import { name: "const_string", ty: TY_I32_EXTERNREF },
        Import { name: "const_name", ty: TY_I32_EXTERNREF },
        Import { name: "const_time", ty: TY_I64_EXTERNREF },
        Import { name: "const_duration", ty: TY_I64_EXTERNREF },
        Import { name: "val_add", ty: TY_BINOP },
        Import { name: "val_sub", ty: TY_BINOP },
        Import { name: "val_mul", ty: TY_BINOP },
        Import { name: "val_div", ty: TY_BINOP },
        Import { name: "val_sqrt", ty: TY_UNOP },
        Import { name: "val_eq", ty: TY_COMPARE },
        Import { name: "val_neq", ty: TY_COMPARE },
        Import { name: "val_lt", ty: TY_COMPARE },
        Import { name: "val_le", ty: TY_COMPARE },
        Import { name: "val_gt", ty: TY_COMPARE },
        Import { name: "val_ge", ty: TY_COMPARE },
        Import { name: "str_concat", ty: TY_BINOP },
        Import { name: "str_replace", ty: TY_QUADOP },
        Import { name: "val_to_string", ty: TY_UNOP },
        Import { name: "compound_begin", ty: TY_I32_VOID },
        Import { name: "compound_push", ty: TY_EXTERNREF_VOID },
        Import { name: "compound_end", ty: TY_VOID_EXTERNREF },
        Import { name: "compound_get", ty: TY_BINOP },
        Import { name: "compound_len", ty: TY_UNOP },
        Import { name: "pair_first", ty: TY_UNOP },
        Import { name: "pair_second", ty: TY_UNOP },
    ]
}

/// The functions that the host provides.
fn host_imports() -> (r: Vec<Import>)
    ensures
        r@ == host_functions(),
        forall|i: int| 0 <= i < r@.len() ==> (#[trigger] r@[i]).name@.len() <= 100,
{
    proof {
        reveal_strlit("scan_start");
        reveal_strlit("scan_next");
        reveal_strlit("get_col");
        reveal_strlit("insert_begin");
        reveal_strlit("insert_push");
        reveal_strlit("insert_end");
        reveal_strlit("scan_delta_start");
        reveal_strlit("merge_deltas");
        reveal_strlit("debuglog");
        reveal_strlit("scan_index_start");
        reveal_strlit("scan_aggregate_start");
        reveal_strlit("const_number");
        reveal_strlit("const_float");
        reveal_strlit("const_string");
        reveal_strlit("const_name");
        reveal_strlit("const_time");
        reveal_strlit("const_duration");
        reveal_strlit("val_add");
        reveal_strlit("val_sub");
        reveal_strlit("val_mul");
        reveal_strlit("val_div");
        reveal_strlit("val_sqrt");
        reveal_strlit("val_eq");
        reveal_strlit("val_neq");
        reveal_strlit("val_lt");
        reveal_strlit("val_le");
        reveal_strlit("val_gt");
        reveal_strlit("val_ge");
        reveal_strlit("str_concat");
        reveal_strlit("str_replace");
        reveal_strlit("val_to_string");
        reveal_strlit("compound_begin");
        reveal_strlit("compound_push");
        reveal_strlit("compound_end");
        reveal_strlit("compound_get");
        reveal_strlit("compound_len");
        reveal_strlit("pair_first");
        reveal_strlit("pair_second");
    }
    let mut r: Vec<Import> = Vec::new();
    r.push(Import { name: "scan_start", ty: TY_I32_I32 });
    r.push(Import { name: "scan_next", ty: TY_I32_I32 });
    r.push(Import { name: "get_col", ty: TY_I32_I32_EXTERNREF });
    r.push(Import { name: "insert_begin", ty: TY_I32_VOID });
    r.push(Import { name: "insert_push", ty: TY_EXTERNREF_VOID });
    r.push(Import { name: "insert_end", ty: TY_VOID });
    r.push(Import { name: "scan_delta_start", ty: TY_I32_I32 });
    r.push(Import { name: "merge_deltas", ty: TY_VOID_I32 });
    r.push(Import { name: "debuglog", ty: TY_EXTERNREF_VOID });
    r.push(Import { name: "scan_index_start", ty: TY_I32_I32_EXTERNREF_I32 });
    r.push(Import { name: "scan_aggregate_start", ty: TY_I32_I32_I32_I32 });
    r.push(Import { name: "const_number", ty: TY_I64_EXTERNREF });
    r.push(Import { name: "const_float", ty: TY_I64_EXTERNREF });
    r.push(Import { name: "const_string", ty: TY_I32_EXTERNREF });
    r.push(Import { name: "const_name", ty: TY_I32_EXTERNREF });
    r.push(Import { name: "const_time", ty: TY_I64_EXTERNREF });
    r.push(Import { name: "const_duration", ty: TY_I64_EXTERNREF });
    r.push(Import { name: "val_add", ty: TY_BINOP });
    r.push(Import { name: "val_sub", ty: TY_BINOP });
    r.push(Import { name: "val_mul", ty: TY_BINOP });
    r.push(Import { name: "val_div", ty: TY_BINOP });
    r.push(Import { name: "val_sqrt", ty: TY_UNOP });
    r.push(Import { name: "val_eq", ty: TY_COMPARE });
    r.push(Import { name: "val_neq", ty: TY_COMPARE });
    r.push(Import { name: "val_lt", ty: TY_COMPARE });
    r.push(Import { name: "val_le", ty: TY_COMPARE });
    r.push(Import { name: "val_gt", ty: TY_COMPARE });
    r.push(Import { name: "val_ge", ty: TY_COMPARE });
    r.push(Import { name: "str_concat", ty: TY_BINOP });
    r.push(Import { name: "str_replace", ty: TY_QUADOP });
    r.push(Import { name: "val_to_string", ty: TY_UNOP });
    r.push(Import { name: "compound_begin", ty: TY_I32_VOID });
    r.push(Import { name: "compound_push", ty: TY_EXTERNREF_VOID });
    r.push(Import { name: "compound_end", ty: TY_VOID_EXTERNREF });
    r.push(Import { name: "compound_get", ty: TY_BINOP });
    r.push(Import { name: "compound_len", ty: TY_UNOP });
    r.push(Import { name: "pair_first", ty: TY_UNOP });
    r.push(Import { name: "pair_second", ty: TY_UNOP });
    assert(r@ =~= host_functions());
    r
}

/// The function types of a module, in the order of their indices.
pub open spec fn module_types() -> Seq<(Seq<WasmType>, Seq<WasmType>)> {
    seq![
        (Seq::<WasmType>::empty(), Seq::<WasmType>::empty()),
        (seq![WasmType::I32], seq![WasmType::I32]),
        (seq![WasmType::I32, WasmType::I32], seq![WasmType::ExternRef]),
        (seq![WasmType::I32], Seq::<WasmType>::empty()),
        (seq![WasmType::ExternRef], Seq::<WasmType>::empty()),
        (Seq::<WasmType>::empty(), seq![WasmType::I32]),
        (seq![WasmType::I32, WasmType::I32, WasmType::ExternRef], seq![WasmType::I32]),
        (seq![WasmType::I32, WasmType::I32, WasmType::I32], seq![WasmType::I32]),
        (seq![WasmType::I64], seq![WasmType::ExternRef]),
        (seq![WasmType::I32], seq![WasmType::ExternRef]),
        (seq![WasmType::ExternRef, WasmType::ExternRef], seq![WasmType::ExternRef]),
        (seq![WasmType::ExternRef], seq![WasmType::ExternRef]),
        (seq![WasmType::ExternRef, WasmType::ExternRef], seq![WasmType::I32]),
        (seq![WasmType::ExternRef, WasmType::ExternRef, WasmType::ExternRef, WasmType::ExternRef], seq![WasmType::ExternRef]),
        (Seq::<WasmType>::empty(), seq![WasmType::ExternRef]),
    ]
}

/// Appends a function type.
fn add_func_type(r: &mut Vec<FuncType>, params: Vec<WasmType>, results: Vec<WasmType>)
    ensures
        signatures(final(r)@) == signatures(old(r)@).push((params@, results@)),
{
    let ghost before = signatures(r@);
    r.push(FuncType { params, results });
    assert(signatures(r@) =~= before.push((params@, results@)));
}

/// The function types of a module.
fn func_types() -> (r: Vec<FuncType>)
    ensures
        signatures(r@) == module_types(),
{
    let mut r: Vec<FuncType> = Vec::new();
    assert(signatures(r@) =~= Seq::<(Seq<WasmType>, Seq<WasmType>)>::empty());
    add_func_type(&mut r, Vec::new(), Vec::new());
    add_func_type(&mut r, vec![WasmType::I32], vec![WasmType::I32]);
    add_func_type(&mut r, vec![WasmType::I32, WasmType::I32], vec![WasmType::ExternRef]);
    add_func_type(&mut r, vec![WasmType::I32], Vec::new());
    add_func_type(&mut r, vec![WasmType::ExternRef], Vec::new());
    add_func_type(&mut r, Vec::new(), vec![WasmType::I32]);
    add_func_type(&mut r, vec![WasmType::I32, WasmType::I32, WasmType::ExternRef], vec![WasmType::I32]);
    add_func_type(&mut r, vec![WasmType::I32, WasmType::I32, WasmType::I32], vec![WasmType::I32]);
    add_func_type(&mut r, vec![WasmType::I64], vec![WasmType::ExternRef]);
    add_func_type(&mut r, vec![WasmType::I32], vec![WasmType::ExternRef]);
    add_func_type(&mut r, vec![WasmType::ExternRef, WasmType::ExternRef], vec![WasmType::ExternRef]);
    add_func_type(&mut r, vec![WasmType::ExternRef], vec![WasmType::ExternRef]);
    add_func_type(&mut r, vec![WasmType::ExternRef, WasmType::ExternRef], vec![WasmType::I32]);
    add_func_type(&mut r, vec![WasmType::ExternRef, WasmType::ExternRef, WasmType::ExternRef, WasmType::ExternRef], vec![WasmType::ExternRef]);
    add_func_type(&mut r, Vec::new(), vec![WasmType::ExternRef]);
    assert(signatures(r@) =~~= module_types());
    r
}

/// The index that the host knows an interned text by: they are counted from one.
pub open spec fn table_index(i: usize) -> i32 {
    (i as i32).wrapping_add(1)
}

/// Code that leaves the value of a constant.
pub open spec fn constant_code(c: Constant) -> Seq<Instr> {
    match c {
        Constant::Number(n) => seq![Instr::I64Const(n), Instr::Call(IMP_CONST_NUMBER)],
        Constant::Float(b) => seq![Instr::I64Const(b as i64), Instr::Call(IMP_CONST_FLOAT)],
        Constant::String(s) => seq![Instr::I32Const(table_index(s.0)), Instr::Call(IMP_CONST_STRING)],
        Constant::Name(n) => seq![Instr::I32Const(table_index(n.0)), Instr::Call(IMP_CONST_NAME)],
        Constant::Time(t) => seq![Instr::I64Const(t), Instr::Call(IMP_CONST_TIME)],
        Constant::Duration(d) => seq![Instr::I64Const(d), Instr::Call(IMP_CONST_DURATION)],
    }
}

/// The local of the variable at a place in the order of variables: two locals go before.
pub open spec fn local_at(i: int) -> u32 {
    (i as u32).wrapping_add(2)
}

/// The local of a variable.
pub open spec fn local_of(order: Seq<NameId>, v: NameId) -> Option<u32> {
    if order.contains(v) {
        Some(local_at(order.index_of(v)))
    } else {
        None
    }
}

/// Code that leaves the value of an operand; a variable without a local is null.
pub open spec fn operand_code(order: Seq<NameId>, o: Operand) -> Seq<Instr> {
    match o {
        Operand::Var(v) => match local_of(order, v) {
            Some(i) => seq![Instr::LocalGet(i)],
            None => seq![Instr::RefNull],
        },
        Operand::Const(c) => constant_code(c),
    }
}

/// The locals of variables.
struct FuncContext {
    order: Vec<NameId>,
    var_map: NameMap<u32>,
    iter_offset: u32,
}

impl FuncContext {
    /// The variables have no place twice, and the map gives each its local.
    spec fn wf(&self) -> bool {
        &&& self.order@.no_duplicates()
        &&& forall|v: NameId| #[trigger] self.var_map@.contains_key(v) <==> self.order@.contains(v)
        &&& forall|i: int|
            0 <= i < self.order@.len() ==> self.var_map@[#[trigger] self.order@[i]] == local_at(i)
    }

    /// The local of a variable.
    fn local(&self, v: NameId) -> (r: Option<u32>)
        requires
            self.wf(),
        ensures
            r == local_of(self.order@, v),
    {
        match self.var_map.get(v) {
            Some(i) => {
                proof {
                    let k = self.order@.index_of(v);
                    assert(self.order@[k] == v);
                }
                Some(*i)
            },
            None => None,
        }
    }

    /// Gives a variable a local, if it has none.
    fn add(&mut self, v: NameId)
        requires
            old(self).wf(),
        ensures
            final(self).wf(),
            final(self).order@ == with_local(old(self).order@, v),
            final(self).iter_offset == old(self).iter_offset,
    {
        if self.var_map.contains_key(v) {
            return;
        }
        let ghost before = self.order@;
        let local = (self.order.len() as u32).wrapping_add(2);
        self.var_map.insert(v, local);
        self.order.push(v);
        proof {
            assert forall|w: NameId| #[trigger] self.var_map@.contains_key(w) <==> self.order@.contains(w) by {
                if before.contains(w) {
                    assert(self.order@[before.index_of(w)] == w);
                }
                assert(self.order@[before.len() as int] == v);
                if self.order@.contains(w) {
                    let k = self.order@.index_of(w);
                    if k < before.len() {
                        assert(before[k] == w);
                    }
                }
            }
            assert forall|i: int| 0 <= i < self.order@.len() implies self.var_map@[#[trigger] self.order@[i]]
                == local_at(i) by {
                if i < before.len() {
                    assert(before[i] == self.order@[i]);
                    assert(before.contains(before[i]));
                }
            }
        }
    }

    /// Gives variables locals.
    fn add_all(&mut self, vars: &Vec<NameId>)
        requires
            old(self).wf(),
        ensures
            final(self).wf(),
            final(self).order@ == with_locals(old(self).order@, vars@, vars@.len()),
            final(self).iter_offset == old(self).iter_offset,
    {
        let ghost start = self.order@;
        let mut n: usize = 0;
        while n < vars.len()
            invariant
                self.wf(),
                n <= vars@.len(),
                self.order@ == with_locals(start, vars@, n as nat),
                self.iter_offset == old(self).iter_offset,
            decreases vars@.len() - n,
        {
            self.add(vars[n]);
            n += 1;
        }
    }
}

/// The order of variables with one more, unless it is there already.
pub open spec fn with_local(order: Seq<NameId>, v: NameId) -> Seq<NameId> {
    if order.contains(v) {
        order
    } else {
        order.push(v)
    }
}

/// The order of variables with the first `n` of `vars`.
pub open spec fn with_locals(order: Seq<NameId>, vars: Seq<NameId>, n: nat) -> Seq<NameId>
    decreases n,
{
    if n == 0 {
        order
    } else {
        with_local(with_locals(order, vars, (n - 1) as nat), vars[n - 1])
    }
}

/// The variables that a row of a source goes to.
pub open spec fn source_vars(s: Source) -> Seq<NameId> {
    match s {
        Source::Scan { vars, .. } => vars,
        Source::ScanDelta { vars, .. } => vars,
        Source::IndexLookup { vars, .. } => vars,
    }
}

/// The order of variables with those that a plan binds.
pub open spec fn collected(order: Seq<NameId>, p: Plan) -> Seq<NameId>
    decreases p, 0nat,
{
    match p {
        Plan::Iterate { source, body } => collected(
            with_locals(order, source_vars(source), source_vars(source).len()),
            *body,
        ),
        Plan::Let { var, body, .. } => collected(with_local(order, var), *body),
        Plan::Filter { body, .. } => collected(order, *body),
        Plan::Sequence(ps) => all_collected(order, ps, ps.len()),
        Plan::GroupBy { vars, aggregates, body, .. } => collected(
            with_locals(
                with_locals(order, vars, vars.len()),
                fold_vars(aggregates),
                aggregates.len(),
            ),
            *body,
        ),
        _ => order,
    }
}

/// The order of variables with those that the first `n` plans bind.
pub open spec fn all_collected(order: Seq<NameId>, ps: Seq<Plan>, n: nat) -> Seq<NameId>
    decreases ps, n,
{
    if n == 0 || n > ps.len() {
        order
    } else {
        collected(all_collected(order, ps, (n - 1) as nat), ps[n - 1])
    }
}

/// The number of scans in a plan.
pub open spec fn scans(p: Plan) -> nat
    decreases p, 0nat,
{
    match p {
        Plan::Iterate { body, .. } => 1 + scans(*body),
        Plan::Let { body, .. } => scans(*body),
        Plan::Filter { body, .. } => scans(*body),
        Plan::Sequence(ps) => all_scans(ps, ps.len()),
        Plan::GroupBy { body, .. } => scans(*body),
        _ => 0,
    }
}

/// The number of scans in the first `n` plans.
pub open spec fn all_scans(ps: Seq<Plan>, n: nat) -> nat
    decreases ps, n,
{
    if n == 0 || n > ps.len() {
        0
    } else {
        all_scans(ps, (n - 1) as nat) + scans(ps[n - 1])
    }
}

/// `n` locals of a type, each in a run of its own.
pub open spec fn runs(n: nat, t: WasmType) -> Seq<(u32, WasmType)> {
    Seq::new(n, |i: int| (1u32, t))
}

/// Gives the variables of a plan locals, and adds a local to `iters` for every scan.
fn collect_vars(op: &Op, ctx: &mut FuncContext, iters: &mut Vec<(u32, WasmType)>)
    requires
        old(ctx).wf(),
    ensures
        final(ctx).wf(),
        final(ctx).order@ == collected(old(ctx).order@, op@),
        final(ctx).iter_offset == old(ctx).iter_offset,
        final(iters)@ == old(iters)@ + runs(scans(op@), WasmType::I32),
    decreases op,
{
    let ghost start = iters@;
    match op {
        Op::Iterate { source, body } => {
            iters.push((1, WasmType::I32));
            let vars = match source {
                DataSource::Scan { vars, .. } => vars,
                DataSource::ScanDelta { vars, .. } => vars,
                DataSource::IndexLookup { vars, .. } => vars,
            };
            ctx.add_all(vars);
            collect_vars(body, ctx, iters);
        },
        Op::Let { var, body, .. } => {
            ctx.add(*var);
            collect_vars(body, ctx, iters);
        },
        Op::Filter { body, .. } => {
            collect_vars(body, ctx, iters);
        },
        Op::Sequence(ops) => {
            let ghost order = ctx.order@;
            let ghost ps = plans(ops@);
            let mut n: usize = 0;
            while n < ops.len()
                invariant
                    ctx.wf(),
                    n <= ops@.len(),
                    ctx.order@ == all_collected(order, ps, n as nat),
                    ctx.iter_offset == old(ctx).iter_offset,
                    iters@ == start + runs(all_scans(ps, n as nat), WasmType::I32),
                decreases ops@.len() - n,
            {
                assert(decreases_to!(ops => ops@));
                assert(decreases_to!(ops@ => ops@[n as int]));
                assert(ps[n as int] == plan_of(ops@[n as int]));
                collect_vars(&ops[n], ctx, iters);
                n += 1;
            }
        },
        Op::GroupBy { vars, aggregates, body, .. } => {
            ctx.add_all(vars);
            let ghost order = ctx.order@;
            let ghost fs = fold_vars(folds(aggregates@));
            let mut n: usize = 0;
            while n < aggregates.len()
                invariant
                    ctx.wf(),
                    n <= aggregates@.len(),
                    ctx.order@ == with_locals(order, fs, n as nat),
                    ctx.iter_offset == old(ctx).iter_offset,
                    iters@ == start,
                decreases aggregates@.len() - n,
            {
                ctx.add(aggregates[n].var);
                n += 1;
            }
            collect_vars(body, ctx, iters);
        },
        _ => {},
    }
    assert(iters@ =~= start + runs(scans(op@), WasmType::I32));
}

/// How a function is called.
#[derive(Clone, Copy)]
pub enum Shape {
    /// A function of two values, applied from the left to any number of them.
    Fold(u32),
    /// A function of the first argument.
    Unary(u32),
    /// A function of so many arguments.
    Exactly(usize, u32),
    /// A compound value of a kind.
    Compound(i32),
    /// A function that the host does not know.
    Unknown,
}

/// How the function of a name is called.
pub open spec fn shape_of(name: Seq<char>) -> Shape {
    if name == "fn:plus"@ || name == "fn:float:plus"@ {
        Shape::Fold(IMP_VAL_ADD)
    } else if name == "fn:minus"@ || name == "fn:float:minus"@ {
        Shape::Fold(IMP_VAL_SUB)
    } else if name == "fn:mult"@ || name == "fn:float:mult"@ {
        Shape::Fold(IMP_VAL_MUL)
    } else if name == "fn:div"@ || name == "fn:float:div"@ {
        Shape::Fold(IMP_VAL_DIV)
    } else if name == "fn:sqrt"@ {
        Shape::Unary(IMP_VAL_SQRT)
    } else if name == "fn:string:concat"@ {
        Shape::Fold(IMP_STR_CONCAT)
    } else if name == "fn:string:replace"@ {
        Shape::Exactly(4, IMP_STR_REPLACE)
    } else if name == "fn:number:to_string"@ || name == "fn:float64:to_string"@ || name == "fn:name:to_string"@ {
        Shape::Unary(IMP_VAL_TO_STRING)
    } else if name == "fn:list"@ {
        Shape::Compound(0)
    } else if name == "fn:pair"@ {
        Shape::Compound(1)
    } else if name == "fn:map"@ {
        Shape::Compound(2)
    } else if name == "fn:struct"@ {
        Shape::Compound(3)
    } else if name == "fn:list:get"@ || name == "fn:map:get"@ || name == "fn:struct:get"@ {
        Shape::Exactly(2, IMP_COMPOUND_GET)
    } else if name == "fn:len"@ || name == "fn:list:len"@ || name == "fn:struct:len"@ || name == "fn:map:len"@ {
        Shape::Unary(IMP_COMPOUND_LEN)
    } else if name == "fn:pair:first"@ {
        Shape::Unary(IMP_PAIR_FIRST)
    } else if name == "fn:pair:second"@ {
        Shape::Unary(IMP_PAIR_SECOND)
    } else if name == "fn:map:keys"@ || name == "fn:map:values"@ || name == "fn:struct:values"@ {
        Shape::Unary(IMP_COMPOUND_LEN)
    } else {
        Shape::Unknown
    }
}

fn shape(name: &str) -> (r: Shape)
    ensures
        r == shape_of(name@),
{
    if str_eq(name, "fn:plus") || str_eq(name, "fn:float:plus") {
        Shape::Fold(IMP_VAL_ADD)
    } else if str_eq(name, "fn:minus") || str_eq(name, "fn:float:minus") {
        Shape::Fold(IMP_VAL_SUB)
    } else if str_eq(name, "fn:mult") || str_eq(name, "fn:float:mult") {
        Shape::Fold(IMP_VAL_MUL)
    } else if str_eq(name, "fn:div") || str_eq(name, "fn:float:div") {
        Shape::Fold(IMP_VAL_DIV)
    } else if str_eq(name, "fn:sqrt") {
        Shape::Unary(IMP_VAL_SQRT)
    } else if str_eq(name, "fn:string:concat") {
        Shape::Fold(IMP_STR_CONCAT)
    } else if str_eq(name, "fn:string:replace") {
        Shape::Exactly(4, IMP_STR_REPLACE)
    } else if str_eq(name, "fn:number:to_string") || str_eq(name, "fn:float64:to_string") || str_eq(name, "fn:name:to_string") {
        Shape::Unary(IMP_VAL_TO_STRING)
    } else if str_eq(name, "fn:list") {
        Shape::Compound(0)
    } else if str_eq(name, "fn:pair") {
        Shape::Compound(1)
    } else if str_eq(name, "fn:map") {
        Shape::Compound(2)
    } else if str_eq(name, "fn:struct") {
        Shape::Compound(3)
    } else if str_eq(name, "fn:list:get") || str_eq(name, "fn:map:get") || str_eq(name, "fn:struct:get") {
        Shape::Exactly(2, IMP_COMPOUND_GET)
    } else if str_eq(name, "fn:len") || str_eq(name, "fn:list:len") || str_eq(name, "fn:struct:len") || str_eq(name, "fn:map:len") {
        Shape::Unary(IMP_COMPOUND_LEN)
    } else if str_eq(name, "fn:pair:first") {
        Shape::Unary(IMP_PAIR_FIRST)
    } else if str_eq(name, "fn:pair:second") {
        Shape::Unary(IMP_PAIR_SECOND)
    } else if str_eq(name, "fn:map:keys") || str_eq(name, "fn:map:values") || str_eq(name, "fn:struct:values") {
        Shape::Unary(IMP_COMPOUND_LEN)
    } else {
        Shape::Unknown
    }
}

/// Code that leaves the values of the first `n` operands, with `after` behind each.
pub open spec fn operands_code(order: Seq<NameId>, ops: Seq<Operand>, n: nat, after: Seq<Instr>) -> Seq<Instr>
    decreases n,
{
    if n == 0 {
        Seq::empty()
    } else {
        operands_code(order, ops, (n - 1) as nat, after) + operand_code(order, ops[n - 1]) + after
    }
}

/// Code that leaves a function of the values of the first `n` operands, applied from the left.
pub open spec fn fold_code(order: Seq<NameId>, ops: Seq<Operand>, n: nat, import_idx: u32) -> Seq<Instr>
    decreases n,
{
    if n == 0 {
        seq![Instr::RefNull]
    } else if n == 1 {
        operand_code(order, ops[0])
    } else {
        fold_code(order, ops, (n - 1) as nat, import_idx) + operand_code(order, ops[n - 1]) + seq![
            Instr::Call(import_idx),
        ]
    }
}

/// The same instruction, `n` times.
pub open spec fn repeated(i: Instr, n: nat) -> Seq<Instr> {
    Seq::new(n, |k: int| i)
}

/// Code that leaves the result of a call; null where the arguments do not fit the function.
pub open spec fn call_code(order: Seq<NameId>, shape: Shape, args: Seq<Operand>) -> Seq<Instr> {
    match shape {
        Shape::Fold(import_idx) => fold_code(order, args, args.len(), import_idx),
        Shape::Unary(import_idx) => if args.len() > 0 {
            operand_code(order, args[0]).push(Instr::Call(import_idx))
        } else {
            seq![Instr::RefNull]
        },
        Shape::Exactly(n, import_idx) => if args.len() == n {
            operands_code(order, args, args.len(), Seq::empty()).push(Instr::Call(import_idx))
        } else {
            seq![Instr::RefNull]
        },
        Shape::Compound(kind) => seq![Instr::I32Const(kind), Instr::Call(IMP_COMPOUND_BEGIN)]
            + operands_code(order, args, args.len(), seq![Instr::Call(IMP_COMPOUND_PUSH)]) + seq![
            Instr::Call(IMP_COMPOUND_END),
        ],
        Shape::Unknown => operands_code(order, args, args.len(), Seq::empty()) + repeated(
            Instr::Drop,
            args.len(),
        ) + seq![Instr::RefNull],
    }
}

/// Code that leaves the value of an expression.
pub open spec fn expr_code(g: Graph, order: Seq<NameId>, t: Term) -> Seq<Instr> {
    match t {
        Term::Value(o) => operand_code(order, o),
        Term::Call { function, args } => call_code(order, shape_of(g.name(function)), args),
    }
}

/// The host's function for a comparison.
pub open spec fn compare_import(op: CompareOp) -> u32 {
    match op {
        CompareOp::Eq => IMP_VAL_EQ,
        CompareOp::Neq => IMP_VAL_NEQ,
        CompareOp::Lt => IMP_VAL_LT,
        CompareOp::Le => IMP_VAL_LE,
        CompareOp::Gt => IMP_VAL_GT,
        CompareOp::Ge => IMP_VAL_GE,
    }
}

/// Code that leaves whether a condition holds. Conditions other than comparisons are taken
/// to hold.
pub open spec fn cond_code(order: Seq<NameId>, c: Test) -> Seq<Instr> {
    match c {
        Test::Compare { op, left, right } => operand_code(order, left) + operand_code(order, right)
            + seq![Instr::Call(compare_import(op))],
        _ => seq![Instr::I32Const(1)],
    }
}

/// Code that puts the first `n` columns of the row in local 1 into the locals of variables.
pub open spec fn columns_code<B: Backend>(b: B, order: Seq<NameId>, vars: Seq<NameId>, n: nat) -> Seq<Instr>
    decreases n,
{
    if n == 0 {
        Seq::empty()
    } else {
        let before = columns_code(b, order, vars, (n - 1) as nat);
        match local_of(order, vars[n - 1]) {
            Some(local) => before + b.get_col(1, (n - 1) as u32) + seq![Instr::LocalSet(local)],
            None => before,
        }
    }
}

/// Code that starts a scan.
pub open spec fn start_code<B: Backend>(b: B, g: Graph, order: Seq<NameId>, s: Source) -> Seq<Instr> {
    match s {
        Source::Scan { relation, .. } => b.scan_start(g.name(relation)),
        Source::ScanDelta { relation, .. } => b.scan_delta_start(g.name(relation)),
        Source::IndexLookup { relation, col_idx, key, .. } => operand_code(order, key)
            + b.scan_index_start(g.name(relation), col_idx as u32),
    }
}

/// Code of a loop over the rows of a source, before its body: the scan is kept in a local, a
/// block is left when no row is left.
pub open spec fn scan_code<B: Backend>(b: B, g: Graph, order: Seq<NameId>, s: Source, iter_local: u32) -> Seq<Instr> {
    start_code(b, g, order, s) + seq![Instr::LocalSet(iter_local), Instr::Block, Instr::Loop]
        + b.scan_next(iter_local) + seq![Instr::LocalTee(1), Instr::I32Eqz, Instr::BrIf(1)]
        + columns_code(b, order, source_vars(s), source_vars(s).len())
}

/// The code of a plan, given how many scans went before, and how many there are then.
pub open spec fn plan_code<B: Backend>(b: B, g: Graph, order: Seq<NameId>, offset: u32, p: Plan) -> (Seq<Instr>, u32)
    decreases p, 0nat,
{
    match p {
        Plan::Iterate { source, body } => {
            let iter_local = local_at(order.len() as int).wrapping_add(offset);
            let (inner, next) = plan_code(b, g, order, offset.wrapping_add(1), *body);
            (
                scan_code(b, g, order, source, iter_local) + inner + seq![
                    Instr::Br(0),
                    Instr::End,
                    Instr::End,
                ],
                next,
            )
        },
        Plan::Filter { cond, body } => {
            let (inner, next) = plan_code(b, g, order, offset, *body);
            (cond_code(order, cond) + seq![Instr::If] + inner + seq![Instr::End], next)
        },
        Plan::Let { var, expr, body } => {
            let (inner, next) = plan_code(b, g, order, offset, *body);
            let kept = match local_of(order, var) {
                Some(local) => Instr::LocalSet(local),
                None => Instr::Drop,
            };
            (expr_code(g, order, expr) + seq![kept] + inner, next)
        },
        Plan::Insert { relation, args } => (
            b.insert_begin(g.name(relation)) + operands_code(order, args, args.len(), b.insert_push())
                + b.insert_end(),
            offset,
        ),
        Plan::Sequence(ps) => plans_code(b, g, order, offset, ps, ps.len()),
        _ => (Seq::empty(), offset),
    }
}

/// The code of the first `n` plans.
pub open spec fn plans_code<B: Backend>(b: B, g: Graph, order: Seq<NameId>, offset: u32, ps: Seq<Plan>, n: nat) -> (
    Seq<Instr>,
    u32,
)
    decreases ps, n,
{
    if n == 0 || n > ps.len() {
        (Seq::empty(), offset)
    } else {
        let (before, o) = plans_code(b, g, order, offset, ps, (n - 1) as nat);
        let (last, next) = plan_code(b, g, order, o, ps[n - 1]);
        (before + last, next)
    }
}

/// Emits code that leaves the value of an operand.
fn emit_operand(func: &mut Vec<Instr>, o: &Operand, ctx: &FuncContext)
    requires
        ctx.wf(),
    ensures
        final(func)@ == old(func)@ + operand_code(ctx.order@, *o),
{
    match o {
        Operand::Var(v) => {
            match ctx.local(*v) {
                Some(i) => func.push(Instr::LocalGet(i)),
                None => func.push(Instr::RefNull),
            }
        },
        Operand::Const(c) => {
            match c {
                Constant::Number(n) => {
                    func.push(Instr::I64Const(*n));
                    func.push(Instr::Call(IMP_CONST_NUMBER));
                },
                Constant::Float(b) => {
                    func.push(Instr::I64Const(*b as i64));
                    func.push(Instr::Call(IMP_CONST_FLOAT));
                },
                Constant::String(s) => {
                    func.push(Instr::I32Const((s.0 as i32).wrapping_add(1)));
                    func.push(Instr::Call(IMP_CONST_STRING));
                },
                Constant::Name(n) => {
                    func.push(Instr::I32Const((n.0 as i32).wrapping_add(1)));
                    func.push(Instr::Call(IMP_CONST_NAME));
                },
                Constant::Time(t) => {
                    func.push(Instr::I64Const(*t));
                    func.push(Instr::Call(IMP_CONST_TIME));
                },
                Constant::Duration(d) => {
                    func.push(Instr::I64Const(*d));
                    func.push(Instr::Call(IMP_CONST_DURATION));
                },
            }
        },
    }
    assert(func@ =~= old(func)@ + operand_code(ctx.order@, *o));
}

/// Emits code that leaves the values of operands.
fn emit_operands(func: &mut Vec<Instr>, args: &Vec<Operand>, ctx: &FuncContext)
    requires
        ctx.wf(),
    ensures
        final(func)@ == old(func)@ + operands_code(ctx.order@, args@, args@.len(), Seq::empty()),
{
    let ghost start = func@;
    let mut n: usize = 0;
    assert(func@ =~= start + operands_code(ctx.order@, args@, 0, Seq::empty()));
    while n < args.len()
        invariant
            n <= args@.len(),
            func@ == start + operands_code(ctx.order@, args@, n as nat, Seq::empty()),
        decreases args@.len() - n,
    {
        emit_operand(func, &args[n], ctx);
        assert(func@ =~= start + operands_code(ctx.order@, args@, (n + 1) as nat, Seq::empty()));
        n += 1;
    }
}

/// Emits code that applies a function of two values from the left.
fn emit_binary_fold(func: &mut Vec<Instr>, args: &Vec<Operand>, ctx: &FuncContext, import_idx: u32)
    requires
        ctx.wf(),
    ensures
        final(func)@ == old(func)@ + fold_code(ctx.order@, args@, args@.len(), import_idx),
{
    let ghost start = func@;
    if args.len() == 0 {
        func.push(Instr::RefNull);
        assert(func@ =~= start + fold_code(ctx.order@, args@, 0, import_idx));
        return;
    }
    emit_operand(func, &args[0], ctx);
    let mut n: usize = 1;
    while n < args.len()
        invariant
            1 <= n <= args@.len(),
            func@ == start + fold_code(ctx.order@, args@, n as nat, import_idx),
        decreases args@.len() - n,
    {
        emit_operand(func, &args[n], ctx);
        func.push(Instr::Call(import_idx));
        assert(func@ =~= start + fold_code(ctx.order@, args@, (n + 1) as nat, import_idx));
        n += 1;
    }
}

/// Emits code that leaves the value of an expression.
fn emit_expr(ir: &Ir, func: &mut Vec<Instr>, expr: &Expr, ctx: &FuncContext)
    requires
        ctx.wf(),
        term_known(expr@, ir@),
    ensures
        final(func)@ == old(func)@ + expr_code(ir@, ctx.order@, expr@),
{
    let ghost start = func@;
    match expr {
        Expr::Value(o) => emit_operand(func, o, ctx),
        Expr::Call { function, args } => {
            match shape(ir.resolve_name(*function)) {
                Shape::Fold(import_idx) => {
                    emit_binary_fold(func, args, ctx, import_idx);
                },
                Shape::Unary(import_idx) => {
                    if args.len() > 0 {
                        emit_operand(func, &args[0], ctx);
                        func.push(Instr::Call(import_idx));
                    } else {
                        func.push(Instr::RefNull);
                    }
                },
                Shape::Exactly(n, import_idx) => {
                    if args.len() == n {
                        emit_operands(func, args, ctx);
                        func.push(Instr::Call(import_idx));
                    } else {
                        func.push(Instr::RefNull);
                    }
                },
                Shape::Compound(kind) => {
                    func.push(Instr::I32Const(kind));
                    func.push(Instr::Call(IMP_COMPOUND_BEGIN));
                    let ghost opened = func@;
                    let ghost push = seq![Instr::Call(IMP_COMPOUND_PUSH)];
                    let mut n: usize = 0;
                    assert(func@ =~= opened + operands_code(ctx.order@, args@, 0, push));
                    while n < args.len()
                        invariant
                            n <= args@.len(),
                            func@ == opened + operands_code(ctx.order@, args@, n as nat, push),
                        decreases args@.len() - n,
                    {
                        emit_operand(func, &args[n], ctx);
                        func.push(Instr::Call(IMP_COMPOUND_PUSH));
                        assert(func@ =~= opened + operands_code(
                            ctx.order@,
                            args@,
                            (n + 1) as nat,
                            push,
                        ));
                        n += 1;
                    }
                    func.push(Instr::Call(IMP_COMPOUND_END));
                },
                Shape::Unknown => {
                    emit_operands(func, args, ctx);
                    let ghost pushed = func@;
                    let mut n: usize = 0;
                    assert(func@ =~= pushed + repeated(Instr::Drop, 0));
                    while n < args.len()
                        invariant
                            n <= args@.len(),
                            func@ == pushed + repeated(Instr::Drop, n as nat),
                        decreases args@.len() - n,
                    {
                        func.push(Instr::Drop);
                        assert(func@ =~= pushed + repeated(Instr::Drop, (n + 1) as nat));
                        n += 1;
                    }
                    func.push(Instr::RefNull);
                },
            }
        },
    }
    assert(func@ =~= start + expr_code(ir@, ctx.order@, expr@));
}

/// Emits code that leaves whether a condition holds.
fn emit_condition(func: &mut Vec<Instr>, cond: &Condition, ctx: &FuncContext)
    requires
        ctx.wf(),
    ensures
        final(func)@ == old(func)@ + cond_code(ctx.order@, cond@),
{
    match cond {
        Condition::Compare { op, left, right } => {
            emit_operand(func, left, ctx);
            emit_operand(func, right, ctx);
            let import_idx: u32 = match op {
                CompareOp::Eq => IMP_VAL_EQ,
                CompareOp::Neq => IMP_VAL_NEQ,
                CompareOp::Lt => IMP_VAL_LT,
                CompareOp::Le => IMP_VAL_LE,
                CompareOp::Gt => IMP_VAL_GT,
                CompareOp::Ge => IMP_VAL_GE,
            };
            func.push(Instr::Call(import_idx));
        },
        _ => {
            func.push(Instr::I32Const(1));
        },
    }
    assert(func@ =~= old(func)@ + cond_code(ctx.order@, cond@));
}

/// Emits code that puts the columns of a row into the locals of variables.
fn emit_columns<B: Backend>(b: &B, func: &mut Vec<Instr>, vars: &Vec<NameId>, ctx: &FuncContext)
    requires
        ctx.wf(),
    ensures
        final(func)@ == old(func)@ + columns_code(*b, ctx.order@, vars@, vars@.len()),
{
    let ghost start = func@;
    let mut n: usize = 0;
    assert(func@ =~= start + columns_code(*b, ctx.order@, vars@, 0));
    while n < vars.len()
        invariant
            n <= vars@.len(),
            func@ == start + columns_code(*b, ctx.order@, vars@, n as nat),
        decreases vars@.len() - n,
    {
        if let Some(local) = ctx.local(vars[n]) {
            b.emit_get_col(func, 1, n as u32);
            func.push(Instr::LocalSet(local));
        }
        assert(func@ =~= start + columns_code(*b, ctx.order@, vars@, (n + 1) as nat));
        n += 1;
    }
}

/// Emits a loop over the rows of a source, up to its body.
fn emit_scan<B: Backend>(b: &B, ir: &Ir, func: &mut Vec<Instr>, source: &DataSource, ctx: &FuncContext, iter_local: u32)
    requires
        ctx.wf(),
        ir@.has_name(source_relation(source@)),
    ensures
        final(func)@ == old(func)@ + scan_code(*b, ir@, ctx.order@, source@, iter_local),
{
    let ghost start = func@;
    let vars = match source {
        DataSource::Scan { relation, vars } => {
            b.emit_scan_start(func, ir.resolve_name(*relation));
            vars
        },
        DataSource::ScanDelta { relation, vars } => {
            b.emit_scan_delta_start(func, ir.resolve_name(*relation));
            vars
        },
        DataSource::IndexLookup { relation, col_idx, key, vars } => {
            emit_operand(func, key, ctx);
            b.emit_scan_index_start(func, ir.resolve_name(*relation), *col_idx as u32);
            vars
        },
    };
    assert(func@ =~= start + start_code(*b, ir@, ctx.order@, source@));
    func.push(Instr::LocalSet(iter_local));
    func.push(Instr::Block);
    func.push(Instr::Loop);
    b.emit_scan_next(func, iter_local);
    func.push(Instr::LocalTee(1));
    func.push(Instr::I32Eqz);
    func.push(Instr::BrIf(1));
    emit_columns(b, func, vars, ctx);
    assert(func@ =~= start + scan_code(*b, ir@, ctx.order@, source@, iter_local));
}

/// Emits the code of a plan.
#[verifier::rlimit(60)]
fn emit_op<B: Backend>(b: &B, ir: &Ir, func: &mut Vec<Instr>, op: &Op, ctx: &mut FuncContext)
    requires
        old(ctx).wf(),
        known(op@, ir@),
    ensures
        final(ctx).wf(),
        final(ctx).order@ == old(ctx).order@,
        ({
            let (code, next) = plan_code(*b, ir@, old(ctx).order@, old(ctx).iter_offset, op@);
            &&& final(func)@ == old(func)@ + code
            &&& final(ctx).iter_offset == next
        }),
    decreases op,
{
    let ghost start = func@;
    let ghost order = ctx.order@;
    let ghost offset = ctx.iter_offset;
    match op {
        Op::Iterate { source, body } => {
            let iter_local = (ctx.order.len() as u32).wrapping_add(2).wrapping_add(ctx.iter_offset);
            ctx.iter_offset = ctx.iter_offset.wrapping_add(1);
            emit_scan(b, ir, func, source, ctx, iter_local);
            emit_op(b, ir, func, body, ctx);
            func.push(Instr::Br(0));
            func.push(Instr::End);
            func.push(Instr::End);
        },
        Op::Filter { cond, body } => {
            emit_condition(func, cond, ctx);
            func.push(Instr::If);
            emit_op(b, ir, func, body, ctx);
            func.push(Instr::End);
        },
        Op::Let { var, expr, body } => {
            emit_expr(ir, func, expr, ctx);
            match ctx.local(*var) {
                Some(local) => func.push(Instr::LocalSet(local)),
                None => func.push(Instr::Drop),
            }
            emit_op(b, ir, func, body, ctx);
        },
        Op::Insert { relation, args } => {
            b.emit_insert_begin(func, ir.resolve_name(*relation));
            let ghost opened = func@;
            let mut n: usize = 0;
            assert(func@ =~= opened + operands_code(order, args@, 0, b.insert_push()));
            while n < args.len()
                invariant
                    ctx.wf(),
                    ctx.order@ == order,
                    ctx.iter_offset == offset,
                    n <= args@.len(),
                    func@ == opened + operands_code(order, args@, n as nat, b.insert_push()),
                decreases args@.len() - n,
            {
                emit_operand(func, &args[n], ctx);
                b.emit_insert_push(func);
                assert(func@ =~= opened + operands_code(
                    order,
                    args@,
                    (n + 1) as nat,
                    b.insert_push(),
                ));
                n += 1;
            }
            b.emit_insert_end(func);
        },
        Op::Sequence(ops) => {
            let ghost ps = plans(ops@);
            let mut n: usize = 0;
            assert(func@ =~= start + plans_code(*b, ir@, order, offset, ps, 0).0);
            while n < ops.len()
                invariant
                    ctx.wf(),
                    ctx.order@ == order,
                    n <= ops@.len(),
                    func@ == start + plans_code(*b, ir@, order, offset, ps, n as nat).0,
                    ctx.iter_offset == plans_code(*b, ir@, order, offset, ps, n as nat).1,
                decreases ops@.len() - n,
            {
                assert(decreases_to!(ops => ops@));
                assert(decreases_to!(ops@ => ops@[n as int]));
                assert(ps[n as int] == plan_of(ops@[n as int]));
                proof {
                    lemma_all_known(ps, ps.len(), ir@, n as int);
                }
                emit_op(b, ir, func, &ops[n], ctx);
                assert(func@ =~= start + plans_code(*b, ir@, order, offset, ps, (n + 1) as nat).0);
                n += 1;
            }
        },
        _ => {},
    }
    assert(func@ =~= start + plan_code(*b, ir@, order, offset, op@).0);
}

/// The code of the plans from `i` on: those of a loop, the `k`-th or a later one, are repeated
/// while there are new rows; the rows that were added before it are the first new ones.
pub open spec fn schedule_code<B: Backend>(
    b: B,
    sc: Scheduled,
    order: Seq<NameId>,
    offset: u32,
    i: nat,
    k: nat,
) -> Seq<Instr>
    decreases sc.plans.len() - i, sc.loops.len() - k,
    when loops_fit(sc.loops, sc.plans.len())
{
    if i >= sc.plans.len() {
        Seq::empty()
    } else if k < sc.loops.len() && sc.loops[k as int].0 == i {
        let end = sc.loops[k as int].1;
        let part = sc.plans.subrange(i as int, end as int);
        let (body, next) = plans_code(b, sc.g, order, offset, part, part.len());
        b.merge_deltas() + seq![Instr::Drop, Instr::Loop] + body + b.merge_deltas() + seq![
            Instr::BrIf(0),
            Instr::End,
        ] + schedule_code(b, sc, order, next, end, k + 1)
    } else {
        let (one, next) = plan_code(b, sc.g, order, offset, sc.plans[i as int]);
        one + schedule_code(b, sc, order, next, i + 1, k)
    }
}

/// The locals of the function that runs plans: a value, a row, the variables, and the scans.
pub open spec fn run_locals(ps: Seq<Plan>) -> Seq<(u32, WasmType)> {
    seq![(1u32, WasmType::ExternRef), (1u32, WasmType::I32)] + runs(
        all_collected(Seq::empty(), ps, ps.len()).len(),
        WasmType::ExternRef,
    ) + runs(all_scans(ps, ps.len()), WasmType::I32)
}

/// The code of the function that runs plans.
pub open spec fn run_code<B: Backend>(b: B, sc: Scheduled) -> Seq<Instr> {
    let order = all_collected(Seq::empty(), sc.plans, sc.plans.len());
    schedule_code(b, sc, order, 0, 0, 0) + seq![Instr::End]
}

/// Whether a module is the one that runs plans.
pub open spec fn runs_plans<B: Backend>(b: B, sc: Scheduled, p: Program) -> bool {
    &&& signatures(p.types@) == module_types()
    &&& p.imports@ == if b.imports_host() {
        host_functions()
    } else {
        Seq::empty()
    }
    &&& p.ty == TY_VOID
    &&& p.index == NUM_IMPORTS
    &&& p.locals@ == run_locals(sc.plans)
    &&& p.code@ == run_code(b, sc)
}

/// Whether plans can be encoded: their code stays below the format's limit.
pub open spec fn schedule_fits<B: Backend>(b: B, sc: Scheduled) -> bool {
    body_fits(run_locals(sc.plans).len(), run_code(b, sc).len())
}

/// Emits the code of plans, with their loops.
#[verifier::rlimit(40)]
fn emit_schedule<B: Backend>(b: &B, ir: &Ir, func: &mut Vec<Instr>, sc: &Schedule, ctx: &mut FuncContext)
    requires
        old(ctx).wf(),
        old(ctx).iter_offset == 0,
        all_known(plans(sc.ops@), sc.ops@.len(), ir@),
        loops_fit(loop_bounds(sc.loops@), sc.ops@.len()),
    ensures
        final(func)@ == old(func)@ + schedule_code(
            *b,
            Scheduled { g: ir@, plans: plans(sc.ops@), loops: loop_bounds(sc.loops@) },
            old(ctx).order@,
            0,
            0,
            0,
        ),
{
    let ghost start = func@;
    let ghost order = ctx.order@;
    let ghost ps = plans(sc.ops@);
    let ghost all = Scheduled { g: ir@, plans: ps, loops: loop_bounds(sc.loops@) };
    let ghost goal = schedule_code(*b, all, order, 0, 0, 0);
    let mut i: usize = 0;
    let mut k: usize = 0;
    assert(start + goal =~= func@ + goal);
    while i < sc.ops.len()
        invariant
            ctx.wf(),
            ctx.order@ == order,
            i <= sc.ops@.len(),
            k <= sc.loops@.len(),
            start + goal == func@ + schedule_code(
                *b,
                all,
                order,
                ctx.iter_offset,
                i as nat,
                k as nat,
            ),
        decreases sc.ops@.len() - i, sc.loops@.len() - k,
    {
        if k < sc.loops.len() && sc.loops[k].0 == i {
            let end = sc.loops[k].1;
            assert(all.loops[k as int] == (i as nat, end as nat));
            let ghost offset = ctx.iter_offset;
            let ghost part = ps.subrange(i as int, end as int);
            b.emit_merge_deltas(func);
            func.push(Instr::Drop);
            func.push(Instr::Loop);
            let ghost opened = func@;
            let mut j: usize = i;
            assert(func@ =~= opened + plans_code(*b, ir@, order, offset, part, 0).0);
            while j < end
                invariant
                    ctx.wf(),
                    ctx.order@ == order,
                    i <= j <= end,
                    func@ == opened + plans_code(*b, ir@, order, offset, part, (j - i) as nat).0,
                    ctx.iter_offset == plans_code(*b, ir@, order, offset, part, (j - i) as nat).1,
                decreases end - j,
            {
                proof {
                    lemma_all_known(ps, ps.len(), ir@, j as int);
                    assert(part[j - i] == ps[j as int]);
                }
                emit_op(b, ir, func, &sc.ops[j], ctx);
                assert(func@ =~= opened + plans_code(
                    *b,
                    ir@,
                    order,
                    offset,
                    part,
                    (j + 1 - i) as nat,
                ).0);
                j += 1;
            }
            b.emit_merge_deltas(func);
            func.push(Instr::BrIf(0));
            func.push(Instr::End);
            i = end;
            k += 1;
            proof {
                let rest = schedule_code(*b, all, order, ctx.iter_offset, i as nat, k as nat);
                assert(start + goal =~= func@ + rest);
            }
        } else {
            proof {
                lemma_all_known(ps, ps.len(), ir@, i as int);
            }
            emit_op(b, ir, func, &sc.ops[i], ctx);
            i += 1;
            proof {
                let rest = schedule_code(*b, all, order, ctx.iter_offset, i as nat, k as nat);
                assert(start + goal =~= func@ + rest);
            }
        }
    }
    assert(func@ =~= start + goal);
}

/// The module that runs plans.
fn assemble<B: Backend>(b: &B, ir: &Ir, sc: &Schedule) -> (p: Program)
    requires
        all_known(plans(sc.ops@), sc.ops@.len(), ir@),
        loops_fit(loop_bounds(sc.loops@), sc.ops@.len()),
    ensures
        runs_plans(
            *b,
            Scheduled { g: ir@, plans: plans(sc.ops@), loops: loop_bounds(sc.loops@) },
            p,
        ),
        types_fit(signatures(p.types@)),
        imports_fit(import_entries(p.imports@)),
{
    let ghost ps = plans(sc.ops@);
    let imports = if b.uses_host() {
        host_imports()
    } else {
        Vec::new()
    };
    let mut ctx = FuncContext { order: Vec::new(), var_map: NameMap::new(), iter_offset: 0 };
    let mut iters: Vec<(u32, WasmType)> = Vec::new();
    let mut n: usize = 0;
    assert(ctx.order@ =~= Seq::<NameId>::empty());
    assert(iters@ =~= runs(0, WasmType::I32));
    while n < sc.ops.len()
        invariant
            ctx.wf(),
            ctx.iter_offset == 0,
            n <= sc.ops@.len(),
            ctx.order@ == all_collected(Seq::empty(), ps, n as nat),
            iters@ == runs(all_scans(ps, n as nat), WasmType::I32),
        decreases sc.ops@.len() - n,
    {
        assert(ps[n as int] == plan_of(sc.ops@[n as int]));
        collect_vars(&sc.ops[n], &mut ctx, &mut iters);
        assert(iters@ =~= runs(all_scans(ps, (n + 1) as nat), WasmType::I32));
        n += 1;
    }
    let mut locals: Vec<(u32, WasmType)> = vec![(1u32, WasmType::ExternRef), (1u32, WasmType::I32)];
    let ghost first = locals@;
    let mut v: usize = 0;
    assert(locals@ =~= first + runs(0, WasmType::ExternRef));
    while v < ctx.order.len()
        invariant
            v <= ctx.order@.len(),
            locals@ == first + runs(v as nat, WasmType::ExternRef),
        decreases ctx.order@.len() - v,
    {
        locals.push((1, WasmType::ExternRef));
        assert(locals@ =~= first + runs((v + 1) as nat, WasmType::ExternRef));
        v += 1;
    }
    locals.append(&mut iters);
    assert(locals@ =~= run_locals(ps));
    let mut code: Vec<Instr> = Vec::new();
    emit_schedule(b, ir, &mut code, sc, &mut ctx);
    code.push(Instr::End);
    let types = func_types();
    let p = Program { types, imports, ty: TY_VOID, index: NUM_IMPORTS, locals, code };
    proof {
        let whole = Scheduled { g: ir@, plans: ps, loops: loop_bounds(sc.loops@) };
        assert(p.code@ =~= run_code(*b, whole));
        assert(p.imports@ =~= if b.imports_host() {
            host_functions()
        } else {
            Seq::empty()
        });
        reveal_strlit("env");
        assert forall|i: int| 0 <= i < import_entries(p.imports@).len() implies (
        #[trigger] import_entries(p.imports@)[i]).0.len() <= 100 && import_entries(
            p.imports@,
        )[i].1.len() <= 100 by {
            assert(p.imports@[i].name@.len() <= 100);
        }
        assert(p.imports@.len() <= 38);
    }
    p
}

/// What code generation makes: the module, and the texts that its constants refer to, the
/// first one under the number one.
pub struct CompiledModule {
    pub wasm: Vec<u8>,
    pub strings: Vec<String>,
    pub names: Vec<String>,
}

/// The strings of a program.
fn string_table(ir: &Ir) -> (r: Vec<String>)
    ensures
        texts(r@) == ir@.strings,
{
    let mut r: Vec<String> = Vec::new();
    let mut n: usize = 0;
    assert(texts(r@) =~= ir@.strings.take(0));
    while n < ir.num_strings()
        invariant
            n <= ir@.strings.len(),
            texts(r@) == ir@.strings.take(n as int),
        decreases ir@.strings.len() - n,
    {
        let ghost before = r@;
        r.push(ir.resolve_string(StringId(n)).to_owned());
        assert(texts(r@) =~= texts(before).push(ir@.strings[n as int]));
        assert(ir@.strings.take(n + 1) =~= ir@.strings.take(n as int).push(ir@.strings[n as int]));
        n += 1;
    }
    assert(ir@.strings.take(n as int) =~= ir@.strings);
    r
}

/// The names of a program.
fn name_table(ir: &Ir) -> (r: Vec<String>)
    ensures
        texts(r@) == ir@.names,
{
    let mut r: Vec<String> = Vec::new();
    let mut n: usize = 0;
    assert(texts(r@) =~= ir@.names.take(0));
    while n < ir.num_names()
        invariant
            n <= ir@.names.len(),
            texts(r@) == ir@.names.take(n as int),
        decreases ir@.names.len() - n,
    {
        let ghost before = r@;
        r.push(ir.resolve_name(NameId(n)).to_owned());
        assert(texts(r@) =~= texts(before).push(ir@.names[n as int]));
        assert(ir@.names.take(n + 1) =~= ir@.names.take(n as int).push(ir@.names[n as int]));
        n += 1;
    }
    assert(ir@.names.take(n as int) =~= ir@.names);
    r
}

/// The sections of the module that runs plans.
pub open spec fn run_sections<B: Backend>(b: B, sc: Scheduled) -> Seq<Section> {
    let imports = if b.imports_host() {
        host_functions()
    } else {
        Seq::empty()
    };
    seq![
        Section::Types(module_types()),
        Section::Imports(import_entries(imports)),
        Section::Functions(seq![TY_VOID]),
        Section::Memories(seq![1u64]),
        Section::Exports(
            seq![("run"@, Export::Function, NUM_IMPORTS), ("memory"@, Export::Memory, 0u32)],
        ),
        Section::Code(seq![(run_locals(sc.plans), run_code(b, sc))]),
    ]
}

/// The strata as texts.
pub open spec fn strata_texts(strata: Option<Vec<Vec<String>>>) -> Option<Seq<Seq<Seq<char>>>> {
    match strata {
        Some(v) => Some(text_lists(v@)),
        None => None,
    }
}

/// A code generator for a program. Where the program is stratified, `stratified` lists the
/// names of the relations of every stratum.
pub struct Codegen<'a, B: Backend> {
    pub ir: &'a mut Ir,
    pub stratified: Option<Vec<Vec<String>>>,
    pub backend: B,
    pub hash_join: bool,
}

impl<'a, B: Backend> Codegen<'a, B> {
    /// A code generator for a program whose rules run once.
    pub fn new(ir: &'a mut Ir, backend: B) -> (r: Codegen<'a, B>)
        ensures
            *r.ir == *old(ir),
            *final(ir) == *final(r.ir),
            r.stratified is None,
            r.backend == backend,
            !r.hash_join,
    {
        Codegen { ir, stratified: None, backend, hash_join: false }
    }

    /// A code generator for a stratified program.
    pub fn new_with_stratified(ir: &'a mut Ir, stratified: Vec<Vec<String>>, backend: B) -> (r: Codegen<'a, B>)
        ensures
            *r.ir == *old(ir),
            *final(ir) == *final(r.ir),
            r.stratified == Some(stratified),
            r.backend == backend,
            !r.hash_join,
    {
        Codegen { ir, stratified: Some(stratified), backend, hash_join: false }
    }

    /// Turns hash joins on or off.
    pub fn with_hash_join(self, enabled: bool) -> (r: Codegen<'a, B>)
        ensures
            *r.ir == *old(self.ir),
            *final(r.ir) == *final(self.ir),
            r.stratified == self.stratified,
            r.backend == self.backend,
            r.hash_join == enabled,
    {
        Codegen {
            ir: self.ir,
            stratified: self.stratified,
            backend: self.backend,
            hash_join: enabled,
        }
    }

    /// Plans the program and makes the module that runs it, as plain values.
    pub fn lower(&mut self) -> (p: Program)
        requires
            (*old(self).ir)@.wf(),
        ensures
            (*final(self).ir)@.wf(),
            (*old(self).ir)@.extended_by((*final(self).ir)@),
            *final(final(self).ir) == *final(old(self).ir),
            final(self).stratified == old(self).stratified,
            final(self).backend == old(self).backend,
            final(self).hash_join == old(self).hash_join,
            ({
                let sc = scheduled(
                    old(self).hash_join,
                    (*old(self).ir)@,
                    strata_texts(old(self).stratified),
                );
                &&& sc.g == (*final(self).ir)@
                &&& runs_plans(old(self).backend, sc, p)
                &&& all_known(sc.plans, sc.plans.len(), sc.g)
                &&& loops_fit(sc.loops, sc.plans.len())
            }),
            types_fit(signatures(p.types@)),
            imports_fit(import_entries(p.imports@)),
    {
        let strata = match &self.stratified {
            Some(v) => Some(v),
            None => None,
        };
        let sc = schedule(self.ir, self.hash_join, strata);
        assemble(&self.backend, self.ir, &sc)
    }

    /// Compiles the program, whose code must stay below the format's limit.
    pub fn generate(&mut self) -> (r: CompiledModule)
        requires
            (*old(self).ir)@.wf(),
            schedule_fits(
                old(self).backend,
                scheduled(
                    old(self).hash_join,
                    (*old(self).ir)@,
                    strata_texts(old(self).stratified),
                ),
            ),
        ensures
            (*final(self).ir)@.wf(),
            (*old(self).ir)@.extended_by((*final(self).ir)@),
            *final(final(self).ir) == *final(old(self).ir),
            ({
                let sc = scheduled(
                    old(self).hash_join,
                    (*old(self).ir)@,
                    strata_texts(old(self).stratified),
                );
                &&& sc.g == (*final(self).ir)@
                &&& r.wasm@ == encoded(run_sections(old(self).backend, sc))
                &&& texts(r.strings@) == sc.g.strings
                &&& texts(r.names@) == sc.g.names
                &&& all_known(sc.plans, sc.plans.len(), sc.g)
                &&& loops_fit(sc.loops, sc.plans.len())
            }),
    {
        let ghost b = self.backend;
        let ghost sc = scheduled(self.hash_join, (*self.ir)@, strata_texts(self.stratified));
        let p = self.lower();
        assert(program_sections(p) =~= run_sections(b, sc));
        let wasm = encode(&p);
        CompiledModule { wasm, strings: string_table(self.ir), names: name_table(self.ir) }
    }

    /// Compiles the program; `None` where its code may go beyond the format's limit.
    pub fn generate_within_limit(&mut self) -> (r: Option<CompiledModule>)
        requires
            (*old(self).ir)@.wf(),
        ensures
            (*final(self).ir)@.wf(),
            (*old(self).ir)@.extended_by((*final(self).ir)@),
            *final(final(self).ir) == *final(old(self).ir),
            ({
                let sc = scheduled(
                    old(self).hash_join,
                    (*old(self).ir)@,
                    strata_texts(old(self).stratified),
                );
                &&& sc.g == (*final(self).ir)@
                &&& all_known(sc.plans, sc.plans.len(), sc.g)
                &&& loops_fit(sc.loops, sc.plans.len())
                &&& r is Some <==> schedule_fits(old(self).backend, sc)
                &&& r matches Some(m) ==> {
                    &&& m.wasm@ == encoded(run_sections(old(self).backend, sc))
                    &&& texts(m.strings@) == sc.g.strings
                    &&& texts(m.names@) == sc.g.names
                }
            }),
    {
        let ghost b = self.backend;
        let ghost sc = scheduled(self.hash_join, (*self.ir)@, strata_texts(self.stratified));
        let p = self.lower();
        assert(program_sections(p) =~= run_sections(b, sc));
        if 6 * p.locals.len() as u128 + 11 * p.code.len() as u128 + 100 > u32::MAX as u128 {
            return None;
        }
        let wasm = encode(&p);
        Some(CompiledModule { wasm, strings: string_table(self.ir), names: name_table(self.ir) })
    }
}

} // verus!
