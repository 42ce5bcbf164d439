//! Values of relations.
use vstd::prelude::*;

use crate::calendar::{duration_text, time_text};
use crate::calendar::{format_duration_nanos, format_time_nanos};
use crate::text::{decimal, push_char, push_decimal, str_eq};

verus! {

/// The kind of a compound value.
#[derive(Debug, Clone, Copy, PartialEq, Eq, Structural, Hash)]
pub enum CompoundKind {
    List,
    Pair,
    Dict,
    Struct,
}

/// A value. A floating-point number is held by its bits; a time is in nanoseconds since the
/// start of 1970, a duration in nanoseconds. A compound value of a map or a struct holds keys
/// and values in turn.
#[derive(Debug, PartialEq, Eq, Hash)]
pub enum Value {
    Number(i64),
    Float(u64),
    String(String),
    Name(String),
    Time(i64),
    Duration(i64),
    Compound(CompoundKind, Vec<Value>),
    Null,
}

/// The model of a [`Value`].
pub enum Val {
    Number(i64),
    Float(u64),
    String(Seq<char>),
    Name(Seq<char>),
    Time(i64),
    Duration(i64),
    Compound(CompoundKind, Seq<Val>),
    Null,
}

/// The models of values.
pub open spec fn vals(vs: Seq<Value>) -> Seq<Val>
    decreases vs,
{
    Seq::new(
        vs.len(),
        |i: int|
            if 0 <= i < vs.len() {
                val_of(vs[i])
            } else {
                Val::Null
            },
    )
}

/// The model of a value.
pub open spec fn val_of(v: Value) -> Val
    decreases v,
{
    match v {
        Value::Number(n) => Val::Number(n),
        Value::Float(b) => Val::Float(b),
        Value::String(s) => Val::String(s@),
        Value::Name(s) => Val::Name(s@),
        Value::Time(t) => Val::Time(t),
        Value::Duration(d) => Val::Duration(d),
        Value::Compound(k, vs) => Val::Compound(k, vals(vs@)),
        Value::Null => Val::Null,
    }
}

impl View for Value {
    type V = Val;

    open spec fn view(&self) -> Val {
        val_of(*self)
    }
}

/// Copies a value.
pub fn copy_value(v: &Value) -> (r: Value)
    ensures
        r@ == v@,
    decreases v,
{
    match v {
        Value::Number(n) => Value::Number(*n),
        Value::Float(b) => Value::Float(*b),
        Value::String(s) => Value::String(s.as_str().to_owned()),
        Value::Name(s) => Value::Name(s.as_str().to_owned()),
        Value::Time(t) => Value::Time(*t),
        Value::Duration(d) => Value::Duration(*d),
        Value::Compound(k, vs) => {
            let mut r: Vec<Value> = Vec::new();
            let mut i: usize = 0;
            while i < vs.len()
                invariant
                    i <= vs@.len(),
                    r@.len() == i,
                    forall|j: int| 0 <= j < i ==> val_of(#[trigger] r@[j]) == val_of(vs@[j]),
                decreases vs@.len() - i,
            {
                assert(decreases_to!(vs => vs@));
                assert(decreases_to!(vs@ => vs@[i as int]));
                let one = copy_value(&vs[i]);
                r.push(one);
                i += 1;
            }
            assert(vals(r@) =~= vals(vs@));
            Value::Compound(*k, r)
        },
        Value::Null => Value::Null,
    }
}

impl Clone for Value {
    fn clone(&self) -> (r: Value)
        ensures
            r@ == self@,
    {
        copy_value(self)
    }
}

/// Copies values.
pub fn copy_values(vs: &Vec<Value>) -> (r: Vec<Value>)
    ensures
        vals(r@) == vals(vs@),
{
    let mut r: Vec<Value> = Vec::new();
    let mut i: usize = 0;
    while i < vs.len()
        invariant
            i <= vs@.len(),
            r@.len() == i,
            forall|j: int| 0 <= j < i ==> val_of(#[trigger] r@[j]) == val_of(vs@[j]),
        decreases vs@.len() - i,
    {
        let one = copy_value(&vs[i]);
        r.push(one);
        i += 1;
    }
    assert(vals(r@) =~= vals(vs@));
    r
}

/// Whether two values are equal. Floating-point numbers are equal if their bits are.
pub fn value_eq(a: &Value, b: &Value) -> (r: bool)
    ensures
        r == (a@ == b@),
    decreases a,
{
    match (a, b) {
        (Value::Number(x), Value::Number(y)) => *x == *y,
        (Value::Float(x), Value::Float(y)) => *x == *y,
        (Value::String(x), Value::String(y)) => str_eq(x.as_str(), y.as_str()),
        (Value::Name(x), Value::Name(y)) => str_eq(x.as_str(), y.as_str()),
        (Value::Time(x), Value::Time(y)) => *x == *y,
        (Value::Duration(x), Value::Duration(y)) => *x == *y,
        (Value::Compound(k, xs), Value::Compound(l, ys)) => {
            if *k != *l || xs.len() != ys.len() {
                assert(vals(xs@).len() != vals(ys@).len() || *k != *l);
                return false;
            }
            let mut i: usize = 0;
            while i < xs.len()
                invariant
                    i <= xs@.len(),
                    forall|j: int| 0 <= j < i ==> vals(xs@)[j] == vals(ys@)[j],
                decreases xs@.len() - i,
            {
                assert(decreases_to!(xs => xs@));
                assert(decreases_to!(xs@ => xs@[i as int]));
                assert(vals(xs@)[i as int] == val_of(xs@[i as int]));
                assert(vals(ys@)[i as int] == val_of(ys@[i as int]));
                if !value_eq(&xs[i], &ys[i]) {
                    assert(vals(xs@) != vals(ys@));
                    return false;
                }
                i += 1;
            }
            assert(vals(xs@) =~= vals(ys@));
            true
        },
        (Value::Null, Value::Null) => true,
        _ => false,
    }
}

/// Whether two rows are equal.
pub fn values_eq(a: &Vec<Value>, b: &Vec<Value>) -> (r: bool)
    ensures
        r == (vals(a@) == vals(b@)),
{
    if a.len() != b.len() {
        assert(vals(a@).len() != vals(b@).len());
        return false;
    }
    let mut i: usize = 0;
    while i < a.len()
        invariant
            i <= a@.len(),
            forall|j: int| 0 <= j < i ==> vals(a@)[j] == vals(b@)[j],
        decreases a@.len() - i,
    {
        assert(vals(a@)[i as int] == val_of(a@[i as int]));
        assert(vals(b@)[i as int] == val_of(b@[i as int]));
        if !value_eq(&a[i], &b[i]) {
            assert(vals(a@) != vals(b@));
            return false;
        }
        i += 1;
    }
    assert(vals(a@) =~= vals(b@));
    true
}

/// How two values compare.
#[derive(Debug, Clone, Copy, PartialEq, Eq, Structural)]
pub enum Order {
    Less,
    Equal,
    Greater,
}

impl Order {
    /// The order of the same two, the other way round.
    pub open spec fn reversed(self) -> Order {
        match self {
            Order::Less => Order::Greater,
            Order::Equal => Order::Equal,
            Order::Greater => Order::Less,
        }
    }
}

/// The order of two integers.
pub open spec fn int_order(a: int, b: int) -> Order {
    if a < b {
        Order::Less
    } else if a == b {
        Order::Equal
    } else {
        Order::Greater
    }
}

fn order_i64(a: i64, b: i64) -> (r: Order)
    ensures
        r == int_order(a as int, b as int),
{
    if a < b {
        Order::Less
    } else if a == b {
        Order::Equal
    } else {
        Order::Greater
    }
}

/// The order of two texts from the `i`-th byte on, byte by byte: a text goes before what it
/// begins.
pub open spec fn bytes_order(a: Seq<u8>, b: Seq<u8>, i: int) -> Order
    decreases a.len() - i,
{
    if i < 0 || i >= a.len() || i >= b.len() {
        int_order(a.len() as int, b.len() as int)
    } else if a[i] != b[i] {
        int_order(a[i] as int, b[i] as int)
    } else {
        bytes_order(a, b, i + 1)
    }
}

/// The order of two texts.
pub open spec fn text_order(a: Seq<char>, b: Seq<char>) -> Order {
    bytes_order(vstd::utf8::encode_utf8(a), vstd::utf8::encode_utf8(b), 0)
}

fn order_text(a: &str, b: &str) -> (r: Order)
    ensures
        r == text_order(a@, b@),
{
    let x = a.as_bytes();
    let y = b.as_bytes();
    let mut i: usize = 0;
    while i < x.len() && i < y.len()
        invariant
            i <= x@.len(),
            i <= y@.len(),
            bytes_order(x@, y@, 0) == bytes_order(x@, y@, i as int),
        decreases x@.len() - i,
    {
        if x[i] != y[i] {
            return if x[i] < y[i] {
                Order::Less
            } else {
                Order::Greater
            };
        }
        i += 1;
    }
    if x.len() < y.len() {
        Order::Less
    } else if x.len() == y.len() {
        Order::Equal
    } else {
        Order::Greater
    }
}

/// The sign of a floating-point number.
pub const SIGN: u64 = 0x8000_0000_0000_0000;

/// The first bit of the exponent of a floating-point number: two to the power of 52.
pub const UNIT: u64 = 0x10_0000_0000_0000;

/// The place of a floating-point number, given by its bits, among all: negative ones come
/// before positive ones, and the larger their magnitude the earlier.
pub open spec fn float_key(bits: u64) -> int {
    if bits < SIGN {
        bits as int
    } else {
        SIGN - bits - 1
    }
}

/// The order of floating-point numbers.
fn order_float(a: u64, b: u64) -> (r: Order)
    ensures
        r == int_order(float_key(a), float_key(b)),
{
    if a < SIGN {
        if b < SIGN {
            if a < b {
                Order::Less
            } else if a == b {
                Order::Equal
            } else {
                Order::Greater
            }
        } else {
            Order::Greater
        }
    } else if b < SIGN {
        Order::Less
    } else if a < b {
        Order::Greater
    } else if a == b {
        Order::Equal
    } else {
        Order::Less
    }
}

/// The exponent of the largest power of two that is not larger than `m`.
pub open spec fn exponent(m: nat) -> nat
    decreases m,
{
    if m < 2 {
        0
    } else {
        1 + exponent(m / 2)
    }
}

/// The largest power of two that is not larger than `m`.
pub open spec fn top_power(m: nat) -> nat
    decreases m,
{
    if m < 2 {
        1
    } else {
        2 * top_power(m / 2)
    }
}

/// How many units there are in `m`: the nearest number, of two equally near the even one.
pub open spec fn nearest(m: nat, unit: nat) -> nat {
    let q = m / unit;
    let r = m % unit;
    if 2 * r > unit || (2 * r == unit && q % 2 == 1) {
        q + 1
    } else {
        q
    }
}

/// The magnitude `m` in units of which the largest power of two in it has two to the power
/// of 52.
pub open spec fn significand(m: nat) -> nat {
    let p = top_power(m);
    if p <= UNIT {
        m * (UNIT as nat / p)
    } else {
        nearest(m, p / UNIT as nat)
    }
}

/// The bits of the floating-point number nearest to an integer.
pub open spec fn float_bits(n: int) -> int {
    let m = (if n < 0 {
        -n
    } else {
        n
    }) as nat;
    let sign = if n < 0 {
        SIGN as int
    } else {
        0
    };
    if m == 0 {
        0
    } else {
        sign + (exponent(m) + 1022) * UNIT + significand(m)
    }
}

proof fn lemma_exponent(m: nat, k: nat)
    requires
        m < vstd::arithmetic::power2::pow2(k),
        k >= 1,
    ensures
        exponent(m) < k,
    decreases k,
{
    if m >= 2 {
        vstd::arithmetic::power2::lemma_pow2_unfold(k);
        if k == 1 {
            vstd::arithmetic::power2::lemma2_to64();
        } else {
            lemma_exponent(m / 2, (k - 1) as nat);
        }
    }
}

/// The exponent and the power itself.
fn magnitude(m: u64) -> (r: (u64, u64))
    ensures
        r.0 == exponent(m as nat),
        r.1 == top_power(m as nat),
        r.0 < 64,
        m > 0 ==> r.1 <= m < 2 * r.1,
        r.1 >= 1,
    decreases m,
{
    proof {
        vstd::arithmetic::power2::lemma2_to64();
        lemma_exponent(m as nat, 64);
    }
    if m < 2 {
        (0, 1)
    } else {
        let (e, p) = magnitude(m / 2);
        (e + 1, 2 * p)
    }
}

/// The bits of the floating-point number nearest to an integer.
pub fn to_float_bits(n: i64) -> (r: u64)
    ensures
        r == float_bits(n as int),
{
    if n == 0 {
        return 0;
    }
    let m: u64 = if n == i64::MIN {
        SIGN
    } else if n < 0 {
        (-n) as u64
    } else {
        n as u64
    };
    let (e, p) = magnitude(m);
    let q: u64 = if p <= UNIT {
        let scale: u64 = UNIT / p;
        assert(m * scale <= 2 * UNIT) by (nonlinear_arith)
            requires
                scale == UNIT / p,
                m < 2 * p,
                p >= 1,
        ;
        m * scale
    } else {
        let unit: u64 = p / UNIT;
        let q: u64 = m / unit;
        let rest: u64 = m % unit;
        assert(q <= 4 * UNIT) by (nonlinear_arith)
            requires
                unit == p / UNIT,
                unit >= 1,
                m < 2 * p,
                q == m / unit,
                UNIT == 0x10_0000_0000_0000,
        ;
        assert(rest < unit);
        if rest > unit - rest || (rest == unit - rest && q % 2 == 1) {
            q + 1
        } else {
            q
        }
    };
    assert(q == significand(m as nat));
    let bits: u64 = (e + 1022) * UNIT + q;
    if n < 0 {
        SIGN + bits
    } else {
        bits
    }
}

/// The place of a variant among all: numbers first, null last.
pub open spec fn rank(v: Val) -> int {
    match v {
        Val::Number(_) => 0,
        Val::Float(_) => 0,
        Val::String(_) => 1,
        Val::Name(_) => 2,
        Val::Time(_) => 3,
        Val::Duration(_) => 4,
        Val::Compound(..) => 5,
        Val::Null => 6,
    }
}

/// The place of a kind of compound values.
pub open spec fn kind_rank(k: CompoundKind) -> int {
    match k {
        CompoundKind::List => 0,
        CompoundKind::Pair => 1,
        CompoundKind::Dict => 2,
        CompoundKind::Struct => 3,
    }
}

/// The order of two values. An integer and a floating-point number compare as floating-point
/// numbers. Compound values compare by their kinds, then item by item.
pub open spec fn order_of(a: Val, b: Val) -> Order
    decreases a, 0nat,
{
    match (a, b) {
        (Val::Number(x), Val::Number(y)) => int_order(x as int, y as int),
        (Val::Float(x), Val::Float(y)) => int_order(float_key(x), float_key(y)),
        (Val::Number(x), Val::Float(y)) => int_order(
            float_key(float_bits(x as int) as u64),
            float_key(y),
        ),
        (Val::Float(x), Val::Number(y)) => int_order(
            float_key(x),
            float_key(float_bits(y as int) as u64),
        ),
        (Val::String(x), Val::String(y)) => text_order(x, y),
        (Val::Name(x), Val::Name(y)) => text_order(x, y),
        (Val::Time(x), Val::Time(y)) => int_order(x as int, y as int),
        (Val::Duration(x), Val::Duration(y)) => int_order(x as int, y as int),
        (Val::Compound(k, xs), Val::Compound(l, ys)) => if k == l {
            list_order(xs, ys, 0)
        } else {
            int_order(kind_rank(k), kind_rank(l))
        },
        _ => int_order(rank(a), rank(b)),
    }
}

/// The order of two lists from the `i`-th item on.
pub open spec fn list_order(xs: Seq<Val>, ys: Seq<Val>, i: nat) -> Order
    decreases xs, xs.len() - i,
{
    if i >= xs.len() || i >= ys.len() {
        int_order(xs.len() as int, ys.len() as int)
    } else {
        match order_of(xs[i as int], ys[i as int]) {
            Order::Equal => list_order(xs, ys, i + 1),
            o => o,
        }
    }
}

fn rank_of(v: &Value) -> (r: u8)
    ensures
        r == rank(v@),
{
    match v {
        Value::Number(_) => 0,
        Value::Float(_) => 0,
        Value::String(_) => 1,
        Value::Name(_) => 2,
        Value::Time(_) => 3,
        Value::Duration(_) => 4,
        Value::Compound(..) => 5,
        Value::Null => 6,
    }
}

fn kind_rank_of(k: CompoundKind) -> (r: u8)
    ensures
        r == kind_rank(k),
{
    match k {
        CompoundKind::List => 0,
        CompoundKind::Pair => 1,
        CompoundKind::Dict => 2,
        CompoundKind::Struct => 3,
    }
}

fn order_rank(a: u8, b: u8) -> (r: Order)
    ensures
        r == int_order(a as int, b as int),
{
    if a < b {
        Order::Less
    } else if a == b {
        Order::Equal
    } else {
        Order::Greater
    }
}

/// Compares two values.
pub fn compare(a: &Value, b: &Value) -> (r: Order)
    ensures
        r == order_of(a@, b@),
    decreases a,
{
    match (a, b) {
        (Value::Number(x), Value::Number(y)) => order_i64(*x, *y),
        (Value::Float(x), Value::Float(y)) => order_float(*x, *y),
        (Value::Number(x), Value::Float(y)) => order_float(to_float_bits(*x), *y),
        (Value::Float(x), Value::Number(y)) => order_float(*x, to_float_bits(*y)),
        (Value::String(x), Value::String(y)) => order_text(x.as_str(), y.as_str()),
        (Value::Name(x), Value::Name(y)) => order_text(x.as_str(), y.as_str()),
        (Value::Time(x), Value::Time(y)) => order_i64(*x, *y),
        (Value::Duration(x), Value::Duration(y)) => order_i64(*x, *y),
        (Value::Compound(k, xs), Value::Compound(l, ys)) => {
            if *k != *l {
                assert(kind_rank(*k) != kind_rank(*l));
                return order_rank(kind_rank_of(*k), kind_rank_of(*l));
            }
            let ghost p = vals(xs@);
            let ghost q = vals(ys@);
            let mut i: usize = 0;
            while i < xs.len() && i < ys.len()
                invariant
                    i <= xs@.len(),
                    i <= ys@.len(),
                    list_order(p, q, 0) == list_order(p, q, i as nat),
                decreases xs@.len() - i,
            {
                assert(decreases_to!(xs => xs@));
                assert(decreases_to!(xs@ => xs@[i as int]));
                assert(p[i as int] == val_of(xs@[i as int]));
                assert(q[i as int] == val_of(ys@[i as int]));
                match compare(&xs[i], &ys[i]) {
                    Order::Equal => {},
                    o => {
                        return o;
                    },
                }
                i += 1;
            }
            if xs.len() < ys.len() {
                Order::Less
            } else if xs.len() == ys.len() {
                Order::Equal
            } else {
                Order::Greater
            }
        },
        _ => order_rank(rank_of(a), rank_of(b)),
    }
}

proof fn lemma_bytes_reversed(a: Seq<u8>, b: Seq<u8>, i: int)
    requires
        0 <= i,
    ensures
        bytes_order(a, b, i) == bytes_order(b, a, i).reversed(),
    decreases a.len() - i,
{
    if i < a.len() && i < b.len() && a[i] == b[i] {
        lemma_bytes_reversed(a, b, i + 1);
    }
}

/// Comparing two values the other way round gives the reverse order.
pub proof fn comparison_reverses(a: Val, b: Val)
    ensures
        order_of(a, b) == order_of(b, a).reversed(),
    decreases a, 0nat,
{
    match (a, b) {
        (Val::String(x), Val::String(y)) => lemma_bytes_reversed(
            vstd::utf8::encode_utf8(x),
            vstd::utf8::encode_utf8(y),
            0,
        ),
        (Val::Name(x), Val::Name(y)) => lemma_bytes_reversed(
            vstd::utf8::encode_utf8(x),
            vstd::utf8::encode_utf8(y),
            0,
        ),
        (Val::Compound(k, xs), Val::Compound(l, ys)) => {
            lemma_lists_reversed(xs, ys, 0);
        },
        _ => {},
    }
}

proof fn lemma_lists_reversed(xs: Seq<Val>, ys: Seq<Val>, i: nat)
    ensures
        list_order(xs, ys, i) == list_order(ys, xs, i).reversed(),
    decreases xs, xs.len() - i,
{
    if i < xs.len() && i < ys.len() {
        comparison_reverses(xs[i as int], ys[i as int]);
        lemma_lists_reversed(xs, ys, i + 1);
    }
}

proof fn lemma_bytes_same(a: Seq<u8>, i: int)
    requires
        0 <= i,
    ensures
        bytes_order(a, a, i) == Order::Equal,
    decreases a.len() - i,
{
    if i < a.len() {
        lemma_bytes_same(a, i + 1);
    }
}

/// A value compares equal to itself.
pub proof fn comparison_is_reflexive(a: Val)
    ensures
        order_of(a, a) == Order::Equal,
    decreases a, 0nat,
{
    match a {
        Val::String(x) => lemma_bytes_same(vstd::utf8::encode_utf8(x), 0),
        Val::Name(x) => lemma_bytes_same(vstd::utf8::encode_utf8(x), 0),
        Val::Compound(k, xs) => lemma_list_same(xs, 0),
        _ => {},
    }
}

proof fn lemma_list_same(xs: Seq<Val>, i: nat)
    ensures
        list_order(xs, xs, i) == Order::Equal,
    decreases xs, xs.len() - i,
{
    if i < xs.len() {
        comparison_is_reflexive(xs[i as int]);
        lemma_list_same(xs, i + 1);
    }
}

/// The value holds no floating-point number.
pub open spec fn whole(v: Val) -> bool
    decreases v,
{
    match v {
        Val::Float(_) => false,
        Val::Compound(_, vs) => forall|i: int| 0 <= i < vs.len() ==> whole(#[trigger] vs[i]),
        _ => true,
    }
}

/// The integers in the value are floating-point numbers too: none is larger than two to the
/// power of 53.
pub open spec fn exact(v: Val) -> bool
    decreases v,
{
    match v {
        Val::Number(n) => -2 * UNIT <= n <= 2 * UNIT,
        Val::Compound(_, vs) => forall|i: int| 0 <= i < vs.len() ==> exact(#[trigger] vs[i]),
        _ => true,
    }
}

/// Orders of `a` and `b`, of `b` and `c`, and of `a` and `c` that agree: if `a` does not come
/// after `b` nor `b` after `c`, then `a` does not come after `c`, and is equal to it only
/// where all are equal.
pub open spec fn chained(ab: Order, bc: Order, ac: Order) -> bool {
    ab != Order::Greater && bc != Order::Greater ==> ac != Order::Greater && (ac == Order::Equal <==> ab
        == Order::Equal && bc == Order::Equal)
}

proof fn lemma_bytes_chained(a: Seq<u8>, b: Seq<u8>, c: Seq<u8>, i: int)
    requires
        0 <= i,
    ensures
        chained(bytes_order(a, b, i), bytes_order(b, c, i), bytes_order(a, c, i)),
    decreases a.len() - i,
{
    if i < a.len() && i < b.len() && i < c.len() && a[i] == b[i] && b[i] == c[i] {
        lemma_bytes_chained(a, b, c, i + 1);
    }
}

/// Larger magnitudes have larger exponents or the same.
proof fn lemma_exponents(m: nat, n: nat)
    requires
        0 < m <= n,
    ensures
        exponent(m) <= exponent(n),
        exponent(m) == exponent(n) ==> top_power(m) == top_power(n),
    decreases n,
{
    if n >= 2 {
        if m >= 2 {
            lemma_exponents(m / 2, n / 2);
        }
    }
}

/// The largest power of two in a magnitude.
proof fn lemma_top(m: nat)
    requires
        m > 0,
    ensures
        top_power(m) == vstd::arithmetic::power2::pow2(exponent(m)),
        top_power(m) <= m < 2 * top_power(m),
    decreases m,
{
    vstd::arithmetic::power2::lemma2_to64();
    if m >= 2 {
        lemma_top(m / 2);
        vstd::arithmetic::power2::lemma_pow2_unfold(exponent(m));
    }
}

/// The significand of a magnitude of at most two to the power of 53.
proof fn lemma_significand(m: nat)
    requires
        0 < m <= 2 * UNIT,
    ensures
        UNIT <= significand(m) < 2 * UNIT,
        exponent(m) <= 53,
        m < 2 * UNIT ==> top_power(m) <= UNIT && significand(m) == m * (UNIT as nat / top_power(m))
            && UNIT as nat / top_power(m) > 0,
        m == 2 * UNIT ==> exponent(m) == 53,
        m < 2 * UNIT ==> exponent(m) <= 52,
{
    let e = exponent(m);
    let p = top_power(m);
    lemma_top(m);
    vstd::arithmetic::power2::lemma2_to64();
    vstd::arithmetic::power2::lemma2_to64_rest();
    assert(vstd::arithmetic::power2::pow2(52) == UNIT);
    assert(vstd::arithmetic::power2::pow2(53) == 2 * UNIT);
    assert(vstd::arithmetic::power2::pow2(54) == 4 * UNIT);
    lemma_exponent(m, 54);
    if m < 2 * UNIT {
        lemma_exponent(m, 53);
        vstd::arithmetic::power2::lemma_pow2_adds(e, (52 - e) as nat);
        let q = vstd::arithmetic::power2::pow2((52 - e) as nat);
        vstd::arithmetic::power2::lemma_pow2_pos((52 - e) as nat);
        vstd::arithmetic::power2::lemma_pow2_pos(e);
        assert(p * q == UNIT);
        assert(UNIT as nat / p == q) by (nonlinear_arith)
            requires
                p * q == UNIT,
                p > 0,
        ;
        assert(p <= UNIT) by (nonlinear_arith)
            requires
                p * q == UNIT,
                q > 0,
        ;
        assert(p * q <= m * q < 2 * (p * q)) by (nonlinear_arith)
            requires
                p <= m < 2 * p,
                q > 0,
        ;
    } else {
        if e < 53 {
            assert(e <= 52);
            if e < 52 {
                vstd::arithmetic::power2::lemma_pow2_strictly_increases(e, 52);
            }
            assert(p <= UNIT);
        }
        assert(p == 2 * UNIT);
        assert(p / UNIT as nat == 2);
        assert(nearest(m, 2) == UNIT);
    }
}

/// The place of an integer of at most two to the power of 53 among the floating-point numbers.
proof fn lemma_exact_key(m: nat, n: nat)
    requires
        0 < m < n <= 2 * UNIT,
    ensures
        (exponent(m) + 1022) * UNIT + significand(m) < (exponent(n) + 1022) * UNIT + significand(n),
{
    lemma_significand(m);
    lemma_significand(n);
    lemma_exponents(m, n);
    if exponent(m) == exponent(n) {
        let q = UNIT as nat / top_power(m);
        assert(m * q < n * q) by (nonlinear_arith)
            requires
                m < n,
                q > 0,
        ;
    }
}

/// Integers of at most two to the power of 53 are ordered as floating-point numbers.
proof fn lemma_exact_order(x: int, y: int)
    requires
        -2 * UNIT <= x <= 2 * UNIT,
        -2 * UNIT <= y <= 2 * UNIT,
    ensures
        int_order(x, y) == int_order(
            float_key(float_bits(x) as u64),
            float_key(float_bits(y) as u64),
        ),
{
    if x > 0 {
        lemma_significand(x as nat);
    }
    if x < 0 {
        lemma_significand((-x) as nat);
    }
    if y > 0 {
        lemma_significand(y as nat);
    }
    if y < 0 {
        lemma_significand((-y) as nat);
    }
    if 0 < x < y {
        lemma_exact_key(x as nat, y as nat);
    }
    if 0 < y < x {
        lemma_exact_key(y as nat, x as nat);
    }
    if x < y < 0 {
        lemma_exact_key((-y) as nat, (-x) as nat);
    }
    if y < x < 0 {
        lemma_exact_key((-x) as nat, (-y) as nat);
    }
}

/// Comparison is transitive among values without floating-point numbers, and among values
/// whose integers are floating-point numbers too. A larger integer may be equal to a
/// floating-point number that another integer is equal to.
pub proof fn comparison_is_transitive(a: Val, b: Val, c: Val)
    requires
        (whole(a) && whole(b) && whole(c)) || (exact(a) && exact(b) && exact(c)),
    ensures
        chained(order_of(a, b), order_of(b, c), order_of(a, c)),
    decreases a, 0nat,
{
    match (a, b, c) {
        (Val::String(x), Val::String(y), Val::String(z)) => lemma_bytes_chained(
            vstd::utf8::encode_utf8(x),
            vstd::utf8::encode_utf8(y),
            vstd::utf8::encode_utf8(z),
            0,
        ),
        (Val::Name(x), Val::Name(y), Val::Name(z)) => lemma_bytes_chained(
            vstd::utf8::encode_utf8(x),
            vstd::utf8::encode_utf8(y),
            vstd::utf8::encode_utf8(z),
            0,
        ),
        (Val::Compound(k, xs), Val::Compound(l, ys), Val::Compound(m, zs)) => {
            lemma_lists_chained(xs, ys, zs, 0);
        },
        _ => {
            if exact(a) && exact(b) && exact(c) {
                if a is Number && b is Number {
                    lemma_exact_order(a->Number_0 as int, b->Number_0 as int);
                }
                if b is Number && c is Number {
                    lemma_exact_order(b->Number_0 as int, c->Number_0 as int);
                }
                if a is Number && c is Number {
                    lemma_exact_order(a->Number_0 as int, c->Number_0 as int);
                }
            }
        },
    }
}

proof fn lemma_lists_chained(xs: Seq<Val>, ys: Seq<Val>, zs: Seq<Val>, i: nat)
    requires
        (forall|j: int| 0 <= j < xs.len() ==> whole(#[trigger] xs[j])) && (forall|j: int|
            0 <= j < ys.len() ==> whole(#[trigger] ys[j])) && (forall|j: int|
            0 <= j < zs.len() ==> whole(#[trigger] zs[j])) || (forall|j: int|
            0 <= j < xs.len() ==> exact(#[trigger] xs[j])) && (forall|j: int|
            0 <= j < ys.len() ==> exact(#[trigger] ys[j])) && (forall|j: int|
            0 <= j < zs.len() ==> exact(#[trigger] zs[j])),
    ensures
        chained(list_order(xs, ys, i), list_order(ys, zs, i), list_order(xs, zs, i)),
    decreases xs, xs.len() - i,
{
    if i < xs.len() && i < ys.len() && i < zs.len() {
        comparison_is_transitive(xs[i as int], ys[i as int], zs[i as int]);
        lemma_lists_chained(xs, ys, zs, i + 1);
    }
}

/// Nowhere is an integer compared with a floating-point number.
pub open spec fn unmixed(a: Val, b: Val) -> bool
    decreases a,
{
    match (a, b) {
        (Val::Number(_), Val::Float(_)) => false,
        (Val::Float(_), Val::Number(_)) => false,
        (Val::Compound(_, xs), Val::Compound(_, ys)) => forall|i: int|
            0 <= i < xs.len() && i < ys.len() ==> unmixed(#[trigger] xs[i], ys[i]),
        _ => true,
    }
}

/// Values that compare equal are equal, unless an integer is compared with a floating-point
/// number.
pub proof fn equal_order_means_equal(a: Val, b: Val)
    requires
        unmixed(a, b),
        order_of(a, b) == Order::Equal,
    ensures
        a == b,
    decreases a, 0nat,
{
    match (a, b) {
        (Val::String(x), Val::String(y)) => lemma_equal_texts(x, y),
        (Val::Name(x), Val::Name(y)) => lemma_equal_texts(x, y),
        (Val::Compound(k, xs), Val::Compound(l, ys)) => {
            lemma_equal_lists(xs, ys, 0);
            assert(xs =~= ys);
        },
        _ => {},
    }
}

proof fn lemma_equal_texts(x: Seq<char>, y: Seq<char>)
    requires
        text_order(x, y) == Order::Equal,
    ensures
        x == y,
{
    let a = vstd::utf8::encode_utf8(x);
    let b = vstd::utf8::encode_utf8(y);
    lemma_equal_bytes(a, b, 0);
    assert(a =~= b);
    vstd::utf8::encode_utf8_decode_utf8(x);
    vstd::utf8::encode_utf8_decode_utf8(y);
}

proof fn lemma_equal_bytes(a: Seq<u8>, b: Seq<u8>, i: int)
    requires
        0 <= i,
        bytes_order(a, b, i) == Order::Equal,
    ensures
        a.len() == b.len(),
        forall|k: int| i <= k < a.len() ==> a[k] == b[k],
    decreases a.len() - i,
{
    if i < a.len() && i < b.len() {
        lemma_equal_bytes(a, b, i + 1);
    }
}

proof fn lemma_equal_lists(xs: Seq<Val>, ys: Seq<Val>, i: nat)
    requires
        forall|j: int| 0 <= j < xs.len() && j < ys.len() ==> unmixed(#[trigger] xs[j], ys[j]),
        list_order(xs, ys, i) == Order::Equal,
    ensures
        xs.len() == ys.len(),
        forall|j: int| i <= j < xs.len() ==> xs[j] == ys[j],
    decreases xs, xs.len() - i,
{
    if i < xs.len() && i < ys.len() {
        equal_order_means_equal(xs[i as int], ys[i as int]);
        lemma_equal_lists(xs, ys, i + 1);
    }
}

/// What a text is made of: characters, and floating-point numbers that are still to be
/// written.
pub enum Glyph {
    Char(char),
    Float(u64),
}

/// A piece of a text: characters, or a floating-point number, given by its bits.
#[derive(Debug, PartialEq, Eq)]
pub enum Piece {
    Text(String),
    Float(u64),
}

/// Characters as glyphs.
pub open spec fn chars(s: Seq<char>) -> Seq<Glyph> {
    Seq::new(s.len(), |i: int| Glyph::Char(s[i]))
}

/// The glyphs of a piece.
pub open spec fn piece_glyphs(p: Piece) -> Seq<Glyph> {
    match p {
        Piece::Text(s) => chars(s@),
        Piece::Float(b) => seq![Glyph::Float(b)],
    }
}

/// The glyphs of pieces.
pub open spec fn glyphs(ps: Seq<Piece>) -> Seq<Glyph>
    decreases ps.len(),
{
    if ps.len() == 0 {
        Seq::empty()
    } else {
        glyphs(ps.drop_last()) + piece_glyphs(ps.last())
    }
}

/// A text in quotes, with escapes, as `std` writes it for debugging.
pub uninterp spec fn debug_text(s: Seq<char>) -> Seq<char>;

/// `str`'s `Debug`: the text in quotes, with escapes.
#[verifier::external_body]
pub(crate) fn debug_str(s: &str) -> (r: String)
    ensures
        r@ == debug_text(s@),
{
    format!("{:?}", s)
}

/// An integer in decimal.
pub open spec fn int_text(n: int) -> Seq<char> {
    if n < 0 {
        seq!['-'] + decimal((-n) as nat)
    } else {
        decimal(n as nat)
    }
}

/// The glyphs of a value. A list is in brackets, a map in brackets with keys before values, a
/// struct in braces; a key without a value is left out.
pub open spec fn shown(v: Val) -> Seq<Glyph>
    decreases v, 0nat,
{
    match v {
        Val::Number(n) => chars(int_text(n as int)),
        Val::Float(b) => seq![Glyph::Float(b)],
        Val::String(s) => chars(debug_text(s)),
        Val::Name(s) => chars(s),
        Val::Time(t) => chars(time_text(t as int)),
        Val::Duration(d) => chars(duration_text(d as int)),
        Val::Compound(kind, vs) => match kind {
            CompoundKind::List | CompoundKind::Pair => chars("["@) + shown_items(vs, vs.len()) + chars(
                "]"@,
            ),
            CompoundKind::Dict => chars("["@) + shown_pairs(vs, (vs.len() / 2) as nat) + chars("]"@),
            CompoundKind::Struct => chars("{"@) + shown_pairs(vs, (vs.len() / 2) as nat) + chars("}"@),
        },
        Val::Null => chars("null"@),
    }
}

/// The glyphs of the first `n` items, with commas between them.
pub open spec fn shown_items(vs: Seq<Val>, n: nat) -> Seq<Glyph>
    decreases vs, n,
{
    if n == 0 || n > vs.len() {
        Seq::empty()
    } else if n == 1 {
        shown(vs[0])
    } else {
        shown_items(vs, (n - 1) as nat) + chars(", "@) + shown(vs[n - 1])
    }
}

/// The glyphs of the first `n` keys with their values, with commas between them.
pub open spec fn shown_pairs(vs: Seq<Val>, n: nat) -> Seq<Glyph>
    decreases vs, n,
{
    if n == 0 || 2 * n > vs.len() {
        Seq::empty()
    } else {
        let before = if n == 1 {
            Seq::empty()
        } else {
            shown_pairs(vs, (n - 1) as nat) + chars(", "@)
        };
        before + shown(vs[2 * n - 2]) + chars(": "@) + shown(vs[2 * n - 1])
    }
}

/// Appends a text.
pub(crate) fn push_text(ps: &mut Vec<Piece>, s: String)
    ensures
        glyphs(final(ps)@) == glyphs(old(ps)@) + chars(s@),
{
    let ghost before = ps@;
    ps.push(Piece::Text(s));
    assert(ps@.drop_last() =~= before);
}

/// Appends a floating-point number.
pub(crate) fn push_float(ps: &mut Vec<Piece>, bits: u64)
    ensures
        glyphs(final(ps)@) == glyphs(old(ps)@).push(Glyph::Float(bits)),
{
    let ghost before = ps@;
    ps.push(Piece::Float(bits));
    assert(ps@.drop_last() =~= before);
    assert(glyphs(ps@) =~= glyphs(before).push(Glyph::Float(bits)));
}

/// An integer in decimal.
pub(crate) fn int_string(n: i64) -> (r: String)
    ensures
        r@ == int_text(n as int),
{
    let mut s = String::new();
    if n < 0 {
        push_char(&mut s, '-');
        if n == i64::MIN {
            push_decimal(&mut s, SIGN);
        } else {
            push_decimal(&mut s, (-n) as u64);
        }
    } else {
        push_decimal(&mut s, n as u64);
    }
    assert(s@ =~= int_text(n as int));
    s
}

/// Appends the pieces of a value.
fn push_shown(ps: &mut Vec<Piece>, v: &Value)
    ensures
        glyphs(final(ps)@) == glyphs(old(ps)@) + shown(v@),
    decreases v,
{
    let ghost start = glyphs(ps@);
    match v {
        Value::Number(n) => push_text(ps, int_string(*n)),
        Value::Float(b) => push_float(ps, *b),
        Value::String(s) => push_text(ps, debug_str(s.as_str())),
        Value::Name(s) => push_text(ps, s.as_str().to_owned()),
        Value::Time(t) => push_text(ps, format_time_nanos(*t)),
        Value::Duration(d) => push_text(ps, format_duration_nanos(*d)),
        Value::Compound(kind, vs) => {
            let listed = match kind {
                CompoundKind::List => true,
                CompoundKind::Pair => true,
                _ => false,
            };
            let braces = match kind {
                CompoundKind::Struct => true,
                _ => false,
            };
            push_text(
                ps,
                if braces {
                    "{".to_owned()
                } else {
                    "[".to_owned()
                },
            );
            let ghost opened = glyphs(ps@);
            let ghost all = vals(vs@);
            if listed {
                let mut n: usize = 0;
                assert(glyphs(ps@) =~= opened + shown_items(all, 0));
                while n < vs.len()
                    invariant
                        n <= vs@.len(),
                        glyphs(ps@) == opened + shown_items(all, n as nat),
                    decreases vs@.len() - n,
                {
                    if n > 0 {
                        push_text(ps, ", ".to_owned());
                    }
                    assert(decreases_to!(vs => vs@));
                    assert(decreases_to!(vs@ => vs@[n as int]));
                    assert(all[n as int] == val_of(vs@[n as int]));
                    push_shown(ps, &vs[n]);
                    assert(glyphs(ps@) =~= opened + shown_items(all, (n + 1) as nat));
                    n += 1;
                }
            } else {
                let count: usize = vs.len() / 2;
                let mut n: usize = 0;
                assert(glyphs(ps@) =~= opened + shown_pairs(all, 0));
                while n < count
                    invariant
                        n <= count,
                        2 * count <= vs@.len(),
                        glyphs(ps@) == opened + shown_pairs(all, n as nat),
                    decreases count - n,
                {
                    if n > 0 {
                        push_text(ps, ", ".to_owned());
                    }
                    assert(decreases_to!(vs => vs@));
                    assert(decreases_to!(vs@ => vs@[2 * n as int]));
                    assert(decreases_to!(vs@ => vs@[2 * n as int + 1]));
                    assert(all[2 * n as int] == val_of(vs@[2 * n as int]));
                    assert(all[2 * n as int + 1] == val_of(vs@[2 * n as int + 1]));
                    push_shown(ps, &vs[2 * n]);
                    push_text(ps, ": ".to_owned());
                    push_shown(ps, &vs[2 * n + 1]);
                    assert(glyphs(ps@) =~= opened + shown_pairs(all, (n + 1) as nat));
                    n += 1;
                }
            }
            push_text(
                ps,
                if braces {
                    "}".to_owned()
                } else {
                    "]".to_owned()
                },
            );
        },
        Value::Null => push_text(ps, "null".to_owned()),
    }
    assert(glyphs(ps@) =~= start + shown(v@));
}

impl Value {
    /// The text of the value, in pieces: floating-point numbers are left to be written.
    pub fn pieces(&self) -> (r: Vec<Piece>)
        ensures
            glyphs(r@) == shown(self@),
    {
        let mut r: Vec<Piece> = Vec::new();
        push_shown(&mut r, self);
        assert(glyphs(r@) =~= shown(self@));
        r
    }
}

} // verus!
