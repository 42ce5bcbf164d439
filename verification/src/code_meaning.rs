//! What generated code does: a machine with locals and a stack runs it, and calls a host that keeps
//! rows.
use vstd::prelude::*;

use crate::codegen::{host_functions, module_types, name_hash};
use crate::ir::{Graph, NameId, StringId};
use crate::physical::Constant;
use crate::plan_meaning::World;
use crate::value::{Order, Val};
use crate::wasm::Instr;

verus! {

/// What a local or a place of the stack holds. Numbers by which the host knows scans and rows are
/// taken from integers without bound.
pub enum Slot {
    Num(int),
    Long(i64),
    Ref(Val),
}

/// Where a branch goes to: behind the end of a block, or back to the start of a loop. Both keep
/// how high the stack was.
pub enum Label {
    Out(nat),
    Again(int, nat),
}

/// What a host keeps while code runs: what is left of every scan, the rows that were handed out,
/// the row that is being made, the parts of the compound value that is being made, the rows that
/// were inserted, and a mark of what relations hold, which stays until rows are merged.
#[verifier::ext_equal]
pub struct HostState {
    pub scans: Seq<Seq<Seq<Val>>>,
    pub rows: Seq<Seq<Val>>,
    pub rel: int,
    pub row: Seq<Val>,
    pub kind: int,
    pub parts: Seq<Val>,
    pub inserted: Set<(int, Seq<Val>)>,
    pub epoch: int,
}

/// A machine that runs code.
#[verifier::ext_equal]
pub struct Machine {
    pub pc: int,
    pub labels: Seq<Label>,
    pub stack: Seq<Slot>,
    pub locals: Map<u32, Slot>,
    pub host: HostState,
}

/// What the functions of a host do, each by its name: what they leave on the stack and what they
/// change.
pub type Calls = spec_fn(Seq<char>, Seq<Slot>, HostState) -> (Seq<Slot>, HostState);

/// The place of the end that closes the block `d` levels up from `i`.
pub open spec fn close(code: Seq<Instr>, i: int, d: nat) -> int
    decreases code.len() - i,
{
    if i < 0 || i >= code.len() {
        code.len() as int
    } else {
        match code[i] {
            Instr::Block => close(code, i + 1, d + 1),
            Instr::Loop => close(code, i + 1, d + 1),
            Instr::If => close(code, i + 1, d + 1),
            Instr::End => if d == 0 {
                i
            } else {
                close(code, i + 1, (d - 1) as nat)
            },
            _ => close(code, i + 1, d),
        }
    }
}

/// The machine once it branches to the label `d` levels up.
pub open spec fn branched(code: Seq<Instr>, m: Machine, d: nat) -> Machine {
    let n = m.labels.len();
    match m.labels[n - 1 - d] {
        Label::Out(height) => Machine {
            pc: close(code, m.pc + 1, d) + 1,
            labels: m.labels.take(n - 1 - d),
            stack: m.stack.take(height as int),
            ..m
        },
        Label::Again(start, height) => Machine {
            pc: start,
            labels: m.labels.take(n - d),
            stack: m.stack.take(height as int),
            ..m
        },
    }
}

/// The machine after one instruction.
pub open spec fn step(code: Seq<Instr>, calls: Calls, m: Machine) -> Machine {
    let top = m.stack.last();
    let rest = m.stack.drop_last();
    let next = m.pc + 1;
    match code[m.pc] {
        Instr::LocalGet(i) => Machine { pc: next, stack: m.stack.push(m.locals[i]), ..m },
        Instr::LocalSet(i) => Machine { pc: next, stack: rest, locals: m.locals.insert(i, top), ..m },
        Instr::LocalTee(i) => Machine { pc: next, locals: m.locals.insert(i, top), ..m },
        Instr::I32Const(c) => Machine { pc: next, stack: m.stack.push(Slot::Num(c as int)), ..m },
        Instr::I64Const(c) => Machine { pc: next, stack: m.stack.push(Slot::Long(c)), ..m },
        Instr::I32Eqz => Machine {
            pc: next,
            stack: rest.push(
                Slot::Num(
                    if top == Slot::Num(0) {
                        1
                    } else {
                        0
                    },
                ),
            ),
            ..m
        },
        Instr::RefNull => Machine { pc: next, stack: m.stack.push(Slot::Ref(Val::Null)), ..m },
        Instr::Drop => Machine { pc: next, stack: rest, ..m },
        Instr::Block => Machine { pc: next, labels: m.labels.push(Label::Out(m.stack.len())), ..m },
        Instr::Loop => Machine { pc: next, labels: m.labels.push(Label::Again(next, m.stack.len())), ..m },
        Instr::If => if top == Slot::Num(0) {
            Machine { pc: close(code, next, 0) + 1, stack: rest, ..m }
        } else {
            Machine { pc: next, labels: m.labels.push(Label::Out(rest.len())), stack: rest, ..m }
        },
        Instr::End => Machine { pc: next, labels: m.labels.drop_last(), ..m },
        Instr::Br(d) => branched(code, m, d as nat),
        Instr::BrIf(d) => if top == Slot::Num(0) {
            Machine { pc: next, stack: rest, ..m }
        } else {
            branched(code, Machine { stack: rest, ..m }, d as nat)
        },
        Instr::Call(f) => {
            let import = host_functions()[f as int];
            let taken = m.stack.len() - module_types()[import.ty as int].0.len();
            let (left, host) = calls(import.name@, m.stack.skip(taken), m.host);
            Machine { pc: next, stack: m.stack.take(taken) + left, host, ..m }
        },
    }
}

/// The machine after `n` instructions.
pub open spec fn steps(code: Seq<Instr>, calls: Calls, m: Machine, n: nat) -> Machine
    decreases n,
{
    if n == 0 {
        m
    } else {
        step(code, calls, steps(code, calls, m, (n - 1) as nat))
    }
}

/// Whether a machine comes to a state.
pub open spec fn comes_to(code: Seq<Instr>, calls: Calls, m: Machine, r: Machine) -> bool {
    exists|n: nat| #[trigger] steps(code, calls, m, n) == r
}

/// The functions that a host computes with.
pub struct Arithmetic {
    pub plus: spec_fn(Val, Val) -> Val,
    pub minus: spec_fn(Val, Val) -> Val,
    pub times: spec_fn(Val, Val) -> Val,
    pub over: spec_fn(Val, Val) -> Val,
    pub root: spec_fn(Val) -> Val,
    pub joined: spec_fn(Val, Val) -> Val,
    pub replaced: spec_fn(Val, Val, Val, Val) -> Val,
    pub text: spec_fn(Val) -> Val,
    pub compound: spec_fn(int, Seq<Val>) -> Val,
    pub part: spec_fn(Val, Val) -> Val,
    pub count: spec_fn(Val) -> Val,
    pub first: spec_fn(Val) -> Val,
    pub second: spec_fn(Val) -> Val,
}

/// A function of two values, applied from the left.
pub open spec fn folded(f: spec_fn(Val, Val) -> Val, vs: Seq<Val>) -> Val
    decreases vs.len(),
{
    if vs.len() == 0 {
        Val::Null
    } else if vs.len() == 1 {
        vs[0]
    } else {
        f(folded(f, vs.drop_last()), vs.last())
    }
}

/// The functions that a host computes with so many arguments.
pub open spec fn computable(f: Seq<char>, n: nat) -> bool {
    ||| f == "fn:plus"@ || f == "fn:minus"@ || f == "fn:mult"@ || f == "fn:div"@
    ||| f == "fn:float:plus"@ || f == "fn:float:minus"@ || f == "fn:float:mult"@ || f == "fn:float:div"@
    ||| f == "fn:string:concat"@
    ||| f == "fn:list"@ || f == "fn:pair"@ || f == "fn:map"@ || f == "fn:struct"@
    ||| n > 0 && (f == "fn:sqrt"@ || f == "fn:number:to_string"@ || f == "fn:float64:to_string"@ || f
        == "fn:name:to_string"@)
    ||| n > 0 && (f == "fn:len"@ || f == "fn:list:len"@ || f == "fn:struct:len"@ || f == "fn:map:len"@)
    ||| n > 0 && (f == "fn:pair:first"@ || f == "fn:pair:second"@)
    ||| n == 2 && (f == "fn:list:get"@ || f == "fn:map:get"@ || f == "fn:struct:get"@)
    ||| n == 4 && f == "fn:string:replace"@
}

/// What a function computes.
pub open spec fn computed(a: Arithmetic, f: Seq<char>, vs: Seq<Val>) -> Val {
    if f == "fn:plus"@ || f == "fn:float:plus"@ {
        folded(a.plus, vs)
    } else if f == "fn:minus"@ || f == "fn:float:minus"@ {
        folded(a.minus, vs)
    } else if f == "fn:mult"@ || f == "fn:float:mult"@ {
        folded(a.times, vs)
    } else if f == "fn:div"@ || f == "fn:float:div"@ {
        folded(a.over, vs)
    } else if f == "fn:string:concat"@ {
        folded(a.joined, vs)
    } else if f == "fn:list"@ {
        (a.compound)(0, vs)
    } else if f == "fn:pair"@ {
        (a.compound)(1, vs)
    } else if f == "fn:map"@ {
        (a.compound)(2, vs)
    } else if f == "fn:struct"@ {
        (a.compound)(3, vs)
    } else if f == "fn:sqrt"@ {
        (a.root)(vs[0])
    } else if f == "fn:number:to_string"@ || f == "fn:float64:to_string"@ || f == "fn:name:to_string"@ {
        (a.text)(vs[0])
    } else if f == "fn:len"@ || f == "fn:list:len"@ || f == "fn:struct:len"@ || f == "fn:map:len"@ {
        (a.count)(vs[0])
    } else if f == "fn:pair:first"@ {
        (a.first)(vs[0])
    } else if f == "fn:pair:second"@ {
        (a.second)(vs[0])
    } else if f == "fn:string:replace"@ {
        (a.replaced)(vs[0], vs[1], vs[2], vs[3])
    } else {
        (a.part)(vs[0], vs[1])
    }
}

/// A host between two merges: its functions, and the rows of its relations, the new ones among
/// them, and those with a value in a column. It knows a relation by a number.
pub struct HostModel {
    pub calls: Calls,
    pub epoch: int,
    pub rows: spec_fn(int) -> Seq<Seq<Val>>,
    pub new: spec_fn(int) -> Seq<Seq<Val>>,
    pub found: spec_fn(int, int, Val) -> Seq<Seq<Val>>,
    pub arithmetic: Arithmetic,
}

/// The number by which a host knows a relation.
pub open spec fn relation_number(name: Seq<char>) -> int {
    (name_hash(name) as i32) as int
}

/// One slot.
pub open spec fn one(a: Slot) -> Seq<Slot> {
    Seq::empty().push(a)
}

/// Two slots.
pub open spec fn two(a: Slot, b: Slot) -> Seq<Slot> {
    one(a).push(b)
}

/// Three slots.
pub open spec fn three(a: Slot, b: Slot, c: Slot) -> Seq<Slot> {
    two(a, b).push(c)
}

/// Four slots.
pub open spec fn four(a: Slot, b: Slot, c: Slot, d: Slot) -> Seq<Slot> {
    three(a, b, c).push(d)
}

/// One or zero.
pub open spec fn truth(b: bool) -> Slot {
    Slot::Num(
        if b {
            1
        } else {
            0
        },
    )
}

impl HostModel {
    /// Scans give the rows of a relation one after the other, and a column of a row is what the row
    /// holds there.
    pub open spec fn scans_rows(self) -> bool {
        &&& forall|r: int, h: HostState|
            h.epoch == self.epoch ==> #[trigger] (self.calls)("scan_start"@, one(Slot::Num(r)), h) == (
                one(Slot::Num(h.scans.len() as int)),
                HostState { scans: h.scans.push((self.rows)(r)), ..h },
            )
        &&& forall|r: int, h: HostState|
            h.epoch == self.epoch ==> #[trigger] (self.calls)("scan_delta_start"@, one(Slot::Num(r)), h) == (
                one(Slot::Num(h.scans.len() as int)),
                HostState { scans: h.scans.push((self.new)(r)), ..h },
            )
        &&& forall|r: int, c: int, k: Val, h: HostState|
            h.epoch == self.epoch ==> #[trigger] (self.calls)(
                "scan_index_start"@,
                three(Slot::Num(r), Slot::Num(c), Slot::Ref(k)),
                h,
            ) == (
                one(Slot::Num(h.scans.len() as int)),
                HostState { scans: h.scans.push((self.found)(r, c, k)), ..h },
            )
        &&& forall|i: int, h: HostState|
            0 <= i < h.scans.len() ==> #[trigger] (self.calls)("scan_next"@, one(Slot::Num(i)), h)
                == if h.scans[i].len() == 0 {
                (one(Slot::Num(0)), h)
            } else {
                (
                    one(Slot::Num((h.rows.len() + 1) as int)),
                    HostState {
                        scans: h.scans.update(i, h.scans[i].drop_first()),
                        rows: h.rows.push(h.scans[i].first()),
                        ..h
                    },
                )
            }
        &&& forall|i: int, c: int, h: HostState|
            0 < i <= h.rows.len() && 0 <= c < h.rows[i - 1].len() ==> #[trigger] (self.calls)(
                "get_col"@,
                two(Slot::Num(i), Slot::Num(c)),
                h,
            ) == (one(Slot::Ref(h.rows[i - 1][c])), h)
    }

    /// A row is inserted value by value.
    pub open spec fn inserts_rows(self) -> bool {
        &&& forall|r: int, h: HostState| #[trigger]
            (self.calls)("insert_begin"@, one(Slot::Num(r)), h) == (
                Seq::<Slot>::empty(),
                HostState { rel: r, row: Seq::empty(), ..h },
            )
        &&& forall|v: Val, h: HostState| #[trigger]
            (self.calls)("insert_push"@, one(Slot::Ref(v)), h) == (
                Seq::<Slot>::empty(),
                HostState { row: h.row.push(v), ..h },
            )
        &&& forall|h: HostState| #[trigger]
            (self.calls)("insert_end"@, Seq::<Slot>::empty(), h) == (
                Seq::<Slot>::empty(),
                HostState { inserted: h.inserted.insert((h.rel, h.row)), ..h },
            )
    }

    /// Constants have the values that they have in the world.
    pub open spec fn has_constants(self, w: World) -> bool {
        &&& forall|n: i64, h: HostState| #[trigger]
            (self.calls)("const_number"@, one(Slot::Long(n)), h) == (
                one(Slot::Ref((w.constant)(Constant::Number(n)))),
                h,
            )
        &&& forall|n: i64, h: HostState| #[trigger]
            (self.calls)("const_float"@, one(Slot::Long(n)), h) == (
                one(Slot::Ref((w.constant)(Constant::Float(n as u64)))),
                h,
            )
        &&& forall|i: int, h: HostState|
            0 < i ==> #[trigger] (self.calls)("const_string"@, one(Slot::Num(i)), h) == (
                one(Slot::Ref((w.constant)(Constant::String(StringId((i - 1) as usize))))),
                h,
            )
        &&& forall|i: int, h: HostState|
            0 < i ==> #[trigger] (self.calls)("const_name"@, one(Slot::Num(i)), h) == (
                one(Slot::Ref((w.constant)(Constant::Name(NameId((i - 1) as usize))))),
                h,
            )
        &&& forall|t: i64, h: HostState| #[trigger]
            (self.calls)("const_time"@, one(Slot::Long(t)), h) == (
                one(Slot::Ref((w.constant)(Constant::Time(t)))),
                h,
            )
        &&& forall|d: i64, h: HostState| #[trigger]
            (self.calls)("const_duration"@, one(Slot::Long(d)), h) == (
                one(Slot::Ref((w.constant)(Constant::Duration(d)))),
                h,
            )
    }

    /// Comparisons say how values stand to each other in the world.
    pub open spec fn compares_values(self, w: World) -> bool {
        &&& forall|a: Val, b: Val, h: HostState| #[trigger]
            (self.calls)("val_eq"@, two(Slot::Ref(a), Slot::Ref(b)), h) == (one(truth(a == b)), h)
        &&& forall|a: Val, b: Val, h: HostState| #[trigger]
            (self.calls)("val_neq"@, two(Slot::Ref(a), Slot::Ref(b)), h) == (one(truth(a != b)), h)
        &&& forall|a: Val, b: Val, h: HostState| #[trigger]
            (self.calls)("val_lt"@, two(Slot::Ref(a), Slot::Ref(b)), h) == (
                one(truth((w.order)(a, b) == Order::Less)),
                h,
            )
        &&& forall|a: Val, b: Val, h: HostState| #[trigger]
            (self.calls)("val_le"@, two(Slot::Ref(a), Slot::Ref(b)), h) == (
                one(truth((w.order)(a, b) != Order::Greater)),
                h,
            )
        &&& forall|a: Val, b: Val, h: HostState| #[trigger]
            (self.calls)("val_gt"@, two(Slot::Ref(a), Slot::Ref(b)), h) == (
                one(truth((w.order)(a, b) == Order::Greater)),
                h,
            )
        &&& forall|a: Val, b: Val, h: HostState| #[trigger]
            (self.calls)("val_ge"@, two(Slot::Ref(a), Slot::Ref(b)), h) == (
                one(truth((w.order)(a, b) != Order::Less)),
                h,
            )
    }

    /// The rows of relations are those of the world, and a column of a row is found by its value.
    pub open spec fn has_rows(self, w: World, g: Graph) -> bool {
        &&& forall|n: NameId, row: Seq<Val>|
            g.has_name(n) ==> (#[trigger] (w.rows)(n, row) <==> (self.rows)(relation_number(g.name(n))).contains(
                row,
            ))
        &&& forall|n: NameId, row: Seq<Val>|
            g.has_name(n) ==> (#[trigger] (w.delta)(n, row) <==> (self.new)(relation_number(g.name(n))).contains(
                row,
            ))
        &&& forall|r: int, c: int, k: Val, row: Seq<Val>| #[trigger]
            (self.found)(r, c, k).contains(row) <==> (self.rows)(r).contains(row) && 0 <= c < row.len()
                && row[c] == k
    }

    /// Functions compute what they do in the world.
    pub open spec fn computes(self, w: World) -> bool {
        let a = self.arithmetic;
        &&& forall|x: Val, y: Val, h: HostState| #[trigger]
            (self.calls)("val_add"@, two(Slot::Ref(x), Slot::Ref(y)), h) == (one(Slot::Ref((a.plus)(x, y))), h)
        &&& forall|x: Val, y: Val, h: HostState| #[trigger]
            (self.calls)("val_sub"@, two(Slot::Ref(x), Slot::Ref(y)), h) == (one(Slot::Ref((a.minus)(x, y))), h)
        &&& forall|x: Val, y: Val, h: HostState| #[trigger]
            (self.calls)("val_mul"@, two(Slot::Ref(x), Slot::Ref(y)), h) == (one(Slot::Ref((a.times)(x, y))), h)
        &&& forall|x: Val, y: Val, h: HostState| #[trigger]
            (self.calls)("val_div"@, two(Slot::Ref(x), Slot::Ref(y)), h) == (one(Slot::Ref((a.over)(x, y))), h)
        &&& forall|x: Val, y: Val, h: HostState| #[trigger]
            (self.calls)("str_concat"@, two(Slot::Ref(x), Slot::Ref(y)), h) == (one(Slot::Ref((a.joined)(x, y))), h)
        &&& forall|x: Val, y: Val, h: HostState| #[trigger]
            (self.calls)("compound_get"@, two(Slot::Ref(x), Slot::Ref(y)), h) == (one(Slot::Ref((a.part)(x, y))), h)
        &&& forall|x: Val, h: HostState| #[trigger]
            (self.calls)("val_sqrt"@, one(Slot::Ref(x)), h) == (one(Slot::Ref((a.root)(x))), h)
        &&& forall|x: Val, h: HostState| #[trigger]
            (self.calls)("val_to_string"@, one(Slot::Ref(x)), h) == (one(Slot::Ref((a.text)(x))), h)
        &&& forall|x: Val, h: HostState| #[trigger]
            (self.calls)("compound_len"@, one(Slot::Ref(x)), h) == (one(Slot::Ref((a.count)(x))), h)
        &&& forall|x: Val, h: HostState| #[trigger]
            (self.calls)("pair_first"@, one(Slot::Ref(x)), h) == (one(Slot::Ref((a.first)(x))), h)
        &&& forall|x: Val, h: HostState| #[trigger]
            (self.calls)("pair_second"@, one(Slot::Ref(x)), h) == (one(Slot::Ref((a.second)(x))), h)
        &&& forall|x: Val, y: Val, z: Val, n: Val, h: HostState| #[trigger]
            (self.calls)("str_replace"@, four(Slot::Ref(x), Slot::Ref(y), Slot::Ref(z), Slot::Ref(n)), h) == (
                one(Slot::Ref((a.replaced)(x, y, z, n))),
                h,
            )
        &&& forall|k: int, h: HostState| #[trigger]
            (self.calls)("compound_begin"@, one(Slot::Num(k)), h) == (
                Seq::<Slot>::empty(),
                HostState { kind: k, parts: Seq::empty(), ..h },
            )
        &&& forall|v: Val, h: HostState| #[trigger]
            (self.calls)("compound_push"@, one(Slot::Ref(v)), h) == (
                Seq::<Slot>::empty(),
                HostState { parts: h.parts.push(v), ..h },
            )
        &&& forall|h: HostState| #[trigger]
            (self.calls)("compound_end"@, Seq::<Slot>::empty(), h) == (
                one(Slot::Ref((a.compound)(h.kind, h.parts))),
                h,
            )
        &&& forall|f: Seq<char>, vs: Seq<Val>|
            computable(f, vs.len()) ==> #[trigger] (w.apply)(f, vs) == computed(a, f, vs)
    }
}

} // verus!
