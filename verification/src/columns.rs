//! Columns of tables as values.
//!
//! A [`Column`] holds the cells of a column of a columnar table; a cell without a value is
//! `None`.
use vstd::prelude::*;

use crate::store::{row_vals, Row};
use crate::value::{vals, Val};
use crate::value::{CompoundKind, Value};

verus! {

/// The unit of a time.
#[derive(Debug, Clone, Copy, PartialEq, Eq, Structural)]
pub enum TimeUnit {
    Second,
    Millisecond,
    Microsecond,
    Nanosecond,
}

/// The cells of a column, by the type of the column.
#[derive(Debug)]
pub enum Column {
    /// That many cells without a value.
    Null(usize),
    Boolean(Vec<Option<bool>>),
    Int8(Vec<Option<i8>>),
    Int16(Vec<Option<i16>>),
    Int32(Vec<Option<i32>>),
    Int64(Vec<Option<i64>>),
    UInt8(Vec<Option<u8>>),
    UInt16(Vec<Option<u16>>),
    UInt32(Vec<Option<u32>>),
    UInt64(Vec<Option<u64>>),
    /// Floating-point numbers, by their bits.
    Float(Vec<Option<u64>>),
    Text(Vec<Option<String>>),
    Timestamp(TimeUnit, Vec<Option<i64>>),
    /// Days since 1970.
    Date32(Vec<Option<i32>>),
    /// Milliseconds since 1970.
    Date64(Vec<Option<i64>>),
    Duration(TimeUnit, Vec<Option<i64>>),
    /// Structs: the names of the fields, a column for each, and which of the cells have a value.
    Struct { names: Vec<String>, columns: Vec<Column>, valid: Vec<bool> },
    /// Lists: which of the items each cell has, from one place up to another.
    List { ranges: Vec<Option<(usize, usize)>>, items: Box<Column> },
    /// A type without a value of its own: the texts of that many cells, if they have any.
    Other { len: usize, texts: Option<Vec<Option<String>>> },
}

/// How many nanoseconds a unit has.
pub open spec fn nanos(unit: TimeUnit) -> int {
    match unit {
        TimeUnit::Second => 1_000_000_000,
        TimeUnit::Millisecond => 1_000_000,
        TimeUnit::Microsecond => 1_000,
        TimeUnit::Nanosecond => 1,
    }
}

/// How many nanoseconds a day has.
pub open spec fn day_nanos() -> int {
    86_400_000_000_000
}

/// How many cells a column has.
pub open spec fn column_len(c: Column) -> nat {
    match c {
        Column::Null(n) => n as nat,
        Column::Boolean(v) => v@.len(),
        Column::Int8(v) => v@.len(),
        Column::Int16(v) => v@.len(),
        Column::Int32(v) => v@.len(),
        Column::Int64(v) => v@.len(),
        Column::UInt8(v) => v@.len(),
        Column::UInt16(v) => v@.len(),
        Column::UInt32(v) => v@.len(),
        Column::UInt64(v) => v@.len(),
        Column::Float(v) => v@.len(),
        Column::Text(v) => v@.len(),
        Column::Timestamp(_, v) => v@.len(),
        Column::Date32(v) => v@.len(),
        Column::Date64(v) => v@.len(),
        Column::Duration(_, v) => v@.len(),
        Column::Struct { valid, .. } => valid@.len(),
        Column::List { ranges, .. } => ranges@.len(),
        Column::Other { len, .. } => len as nat,
    }
}

/// The value of a number.
pub open spec fn number_cell(n: Option<int>) -> Val {
    match n {
        Some(n) => Val::Number(n as i64),
        None => Val::Null,
    }
}

/// The value of a text.
pub open spec fn text_cell(s: Option<String>) -> Val {
    match s {
        Some(s) => Val::String(s@),
        None => Val::Null,
    }
}

/// An optional integer.
pub open spec fn widened<T: Integer>(n: Option<T>) -> Option<int> {
    match n {
        Some(n) => Some(n as int),
        None => None,
    }
}

/// The value of a cell. A truth value is one or zero; a time is in nanoseconds; a struct has
/// the names of its fields before their values.
pub open spec fn cell(c: Column, i: int) -> Val
    decreases c, 0nat,
{
    match c {
        Column::Null(_) => Val::Null,
        Column::Boolean(v) => match v@[i] {
            Some(b) => Val::Number(
                if b {
                    1
                } else {
                    0
                },
            ),
            None => Val::Null,
        },
        Column::Int8(v) => number_cell(widened(v@[i])),
        Column::Int16(v) => number_cell(widened(v@[i])),
        Column::Int32(v) => number_cell(widened(v@[i])),
        Column::Int64(v) => number_cell(widened(v@[i])),
        Column::UInt8(v) => number_cell(widened(v@[i])),
        Column::UInt16(v) => number_cell(widened(v@[i])),
        Column::UInt32(v) => number_cell(widened(v@[i])),
        Column::UInt64(v) => number_cell(widened(v@[i])),
        Column::Float(v) => match v@[i] {
            Some(b) => Val::Float(b),
            None => Val::Null,
        },
        Column::Text(v) => text_cell(v@[i]),
        Column::Timestamp(unit, v) => match v@[i] {
            Some(t) => Val::Time((t * nanos(unit)) as i64),
            None => Val::Null,
        },
        Column::Date32(v) => match v@[i] {
            Some(d) => Val::Time((d * day_nanos()) as i64),
            None => Val::Null,
        },
        Column::Date64(v) => match v@[i] {
            Some(t) => Val::Time((t * nanos(TimeUnit::Millisecond)) as i64),
            None => Val::Null,
        },
        Column::Duration(unit, v) => match v@[i] {
            Some(t) => Val::Duration((t * nanos(unit)) as i64),
            None => Val::Null,
        },
        Column::Struct { names, columns, valid } => if valid@[i] {
            Val::Compound(CompoundKind::Struct, fields(names@, columns@, i, columns@.len()))
        } else {
            Val::Null
        },
        Column::List { ranges, items } => match ranges@[i] {
            Some((from, to)) => Val::Compound(CompoundKind::List, cells(*items, from as int, to as int)),
            None => Val::Null,
        },
        Column::Other { texts, .. } => match texts {
            Some(v) => text_cell(v@[i]),
            None => Val::String("<unsupported>"@),
        },
    }
}

/// The names of the first `n` fields, each before the value of the cell of its column.
pub open spec fn fields(names: Seq<String>, columns: Seq<Column>, i: int, n: nat) -> Seq<Val>
    decreases columns, n,
{
    if n == 0 || n > columns.len() {
        Seq::empty()
    } else {
        fields(names, columns, i, (n - 1) as nat).push(Val::Name(names[n - 1]@)).push(cell(columns[n - 1], i))
    }
}

/// The values of the cells from one place up to another.
pub open spec fn cells(c: Column, from: int, to: int) -> Seq<Val>
    decreases c, 1nat, to - from,
{
    if from >= to {
        Seq::empty()
    } else {
        cells(c, from, to - 1).push(cell(c, to - 1))
    }
}

/// Whether a time that is a multiple of a unit is in range.
pub open spec fn in_range(n: Option<int>, factor: int) -> bool {
    n matches Some(t) ==> i64::MIN <= t * factor <= i64::MAX
}

/// Whether the times of a column are in range.
pub open spec fn all_in_range<T: Integer>(v: Seq<Option<T>>, factor: int) -> bool {
    forall|i: int| 0 <= i < v.len() ==> in_range(widened(#[trigger] v[i]), factor)
}

/// Whether a column is in order: times are in range, the fields of a struct have as many cells
/// as the struct, and the items of a list are there.
pub open spec fn column_ok(c: Column) -> bool
    decreases c, 0nat,
{
    match c {
        Column::Timestamp(unit, v) => all_in_range(v@, nanos(unit)),
        Column::Date32(v) => all_in_range(v@, day_nanos()),
        Column::Date64(v) => all_in_range(v@, nanos(TimeUnit::Millisecond)),
        Column::Duration(unit, v) => all_in_range(v@, nanos(unit)),
        Column::Struct { names, columns, valid } => names@.len() == columns@.len() && all_ok(
            columns@,
            valid@.len(),
            columns@.len(),
        ),
        Column::List { ranges, items } => column_ok(*items) && forall|i: int|
            0 <= i < ranges@.len() ==> ((#[trigger] ranges@[i]) matches Some((from, to)) ==> from <= to
                <= column_len(*items)),
        Column::Other { len, texts } => texts matches Some(v) ==> v@.len() == len,
        _ => true,
    }
}

/// Whether the first `n` columns are in order and have `len` cells.
pub open spec fn all_ok(columns: Seq<Column>, len: nat, n: nat) -> bool
    decreases columns, n,
{
    if n == 0 || n > columns.len() {
        true
    } else {
        all_ok(columns, len, (n - 1) as nat) && column_ok(columns[n - 1]) && column_len(columns[n - 1])
            == len
    }
}

proof fn lemma_all_ok(columns: Seq<Column>, len: nat, n: nat, k: int)
    requires
        all_ok(columns, len, n),
        0 <= k < n <= columns.len(),
    ensures
        column_ok(columns[k]),
        column_len(columns[k]) == len,
    decreases n,
{
    if k < n - 1 {
        lemma_all_ok(columns, len, (n - 1) as nat, k);
    }
}

impl Column {
    /// How many cells the column has.
    pub fn len(&self) -> (r: usize)
        ensures
            r == column_len(*self),
    {
        match self {
            Column::Null(n) => *n,
            Column::Boolean(v) => v.len(),
            Column::Int8(v) => v.len(),
            Column::Int16(v) => v.len(),
            Column::Int32(v) => v.len(),
            Column::Int64(v) => v.len(),
            Column::UInt8(v) => v.len(),
            Column::UInt16(v) => v.len(),
            Column::UInt32(v) => v.len(),
            Column::UInt64(v) => v.len(),
            Column::Float(v) => v.len(),
            Column::Text(v) => v.len(),
            Column::Timestamp(_, v) => v.len(),
            Column::Date32(v) => v.len(),
            Column::Date64(v) => v.len(),
            Column::Duration(_, v) => v.len(),
            Column::Struct { valid, .. } => valid.len(),
            Column::List { ranges, .. } => ranges.len(),
            Column::Other { len, .. } => *len,
        }
    }
}

/// How many nanoseconds a unit has.
fn unit_nanos(unit: TimeUnit) -> (r: i64)
    ensures
        r == nanos(unit),
{
    match unit {
        TimeUnit::Second => 1_000_000_000,
        TimeUnit::Millisecond => 1_000_000,
        TimeUnit::Microsecond => 1_000,
        TimeUnit::Nanosecond => 1,
    }
}

/// Whether times are in range.
fn times_fit(v: &Vec<Option<i64>>, factor: i64) -> (r: bool)
    requires
        0 < factor <= 1_000_000_000,
    ensures
        r == all_in_range(v@, factor as int),
{
    let mut i: usize = 0;
    while i < v.len()
        invariant
            i <= v@.len(),
            forall|j: int| 0 <= j < i ==> in_range(widened(#[trigger] v@[j]), factor as int),
        decreases v@.len() - i,
    {
        if let Some(t) = v[i] {
            assert(-0x8000_0000_0000_0000 * 1_000_000_000 <= t * factor <= 0x7fff_ffff_ffff_ffff
                * 1_000_000_000) by (nonlinear_arith)
                requires
                    0 < factor <= 1_000_000_000,
                    -0x8000_0000_0000_0000 <= t <= 0x7fff_ffff_ffff_ffff,
            ;
            let scaled: i128 = t as i128 * factor as i128;
            if scaled < i64::MIN as i128 || scaled > i64::MAX as i128 {
                assert(!in_range(widened(v@[i as int]), factor as int));
                return false;
            }
        }
        i += 1;
    }
    true
}

/// Whether days are in range.
fn days_fit(v: &Vec<Option<i32>>) -> (r: bool)
    ensures
        r == all_in_range(v@, day_nanos()),
{
    let mut i: usize = 0;
    while i < v.len()
        invariant
            i <= v@.len(),
            forall|j: int| 0 <= j < i ==> in_range(widened(#[trigger] v@[j]), day_nanos()),
        decreases v@.len() - i,
    {
        if let Some(d) = v[i] {
            let scaled: i128 = d as i128 * 86_400_000_000_000;
            if scaled < i64::MIN as i128 || scaled > i64::MAX as i128 {
                assert(!in_range(widened(v@[i as int]), day_nanos()));
                return false;
            }
        }
        i += 1;
    }
    true
}

/// Whether a column is in order.
pub fn column_is_ok(c: &Column) -> (r: bool)
    ensures
        r == column_ok(*c),
    decreases c,
{
    match c {
        Column::Timestamp(unit, v) => times_fit(v, unit_nanos(*unit)),
        Column::Date32(v) => days_fit(v),
        Column::Date64(v) => times_fit(v, 1_000_000),
        Column::Duration(unit, v) => times_fit(v, unit_nanos(*unit)),
        Column::Struct { names, columns, valid } => {
            if names.len() != columns.len() {
                return false;
            }
            let mut n: usize = 0;
            while n < columns.len()
                invariant
                    n <= columns@.len(),
                    all_ok(columns@, valid@.len(), n as nat),
                decreases columns@.len() - n,
            {
                assert(decreases_to!(columns => columns@));
                assert(decreases_to!(columns@ => columns@[n as int]));
                if !column_is_ok(&columns[n]) || columns[n].len() != valid.len() {
                    proof {
                        if all_ok(columns@, valid@.len(), columns@.len()) {
                            lemma_all_ok(columns@, valid@.len(), columns@.len(), n as int);
                        }
                    }
                    return false;
                }
                n += 1;
            }
            true
        },
        Column::List { ranges, items } => {
            if !column_is_ok(items) {
                return false;
            }
            let len = items.len();
            let mut i: usize = 0;
            while i < ranges.len()
                invariant
                    i <= ranges@.len(),
                    forall|j: int|
                        0 <= j < i ==> ((#[trigger] ranges@[j]) matches Some((from, to)) ==> from <= to
                            <= column_len(**items)),
                decreases ranges@.len() - i,
            {
                if let Some((from, to)) = ranges[i] {
                    if from > to || to > len {
                        return false;
                    }
                }
                i += 1;
            }
            true
        },
        Column::Other { len, texts } => match texts {
            Some(v) => v.len() == *len,
            None => true,
        },
        _ => true,
    }
}

/// A number.
fn number(n: Option<i64>) -> (r: Value)
    ensures
        r@ == number_cell(widened(n)),
{
    match n {
        Some(n) => Value::Number(n),
        None => Value::Null,
    }
}

/// A text.
fn text(s: &Option<String>) -> (r: Value)
    ensures
        r@ == text_cell(*s),
{
    match s {
        Some(s) => Value::String(s.as_str().to_owned()),
        None => Value::Null,
    }
}

/// The value of a cell.
#[verifier::rlimit(40)]
fn cell_value(c: &Column, i: usize) -> (r: Value)
    requires
        column_ok(*c),
        i < column_len(*c),
    ensures
        r@ == cell(*c, i as int),
    decreases c,
{
    match c {
        Column::Null(_) => Value::Null,
        Column::Boolean(v) => match v[i] {
            Some(true) => Value::Number(1),
            Some(false) => Value::Number(0),
            None => Value::Null,
        },
        Column::Int8(v) => match v[i] {
            Some(n) => Value::Number(n as i64),
            None => Value::Null,
        },
        Column::Int16(v) => match v[i] {
            Some(n) => Value::Number(n as i64),
            None => Value::Null,
        },
        Column::Int32(v) => match v[i] {
            Some(n) => Value::Number(n as i64),
            None => Value::Null,
        },
        Column::Int64(v) => number(v[i]),
        Column::UInt8(v) => match v[i] {
            Some(n) => Value::Number(n as i64),
            None => Value::Null,
        },
        Column::UInt16(v) => match v[i] {
            Some(n) => Value::Number(n as i64),
            None => Value::Null,
        },
        Column::UInt32(v) => match v[i] {
            Some(n) => Value::Number(n as i64),
            None => Value::Null,
        },
        Column::UInt64(v) => match v[i] {
            Some(n) => Value::Number(n as i64),
            None => Value::Null,
        },
        Column::Float(v) => match v[i] {
            Some(b) => Value::Float(b),
            None => Value::Null,
        },
        Column::Text(v) => text(&v[i]),
        Column::Timestamp(unit, v) => match v[i] {
            Some(t) => {
                assert(in_range(widened(v@[i as int]), nanos(*unit)));
                Value::Time(t * unit_nanos(*unit))
            },
            None => Value::Null,
        },
        Column::Date32(v) => match v[i] {
            Some(d) => {
                assert(in_range(widened(v@[i as int]), day_nanos()));
                Value::Time(d as i64 * 86_400_000_000_000)
            },
            None => Value::Null,
        },
        Column::Date64(v) => match v[i] {
            Some(t) => {
                assert(in_range(widened(v@[i as int]), nanos(TimeUnit::Millisecond)));
                Value::Time(t * 1_000_000)
            },
            None => Value::Null,
        },
        Column::Duration(unit, v) => match v[i] {
            Some(t) => {
                assert(in_range(widened(v@[i as int]), nanos(*unit)));
                Value::Duration(t * unit_nanos(*unit))
            },
            None => Value::Null,
        },
        Column::Struct { names, columns, valid } => {
            if !valid[i] {
                return Value::Null;
            }
            let mut elems: Vec<Value> = Vec::new();
            let mut n: usize = 0;
            assert(vals(elems@) =~= fields(names@, columns@, i as int, 0));
            while n < columns.len()
                invariant
                    n <= columns@.len(),
                    vals(elems@) == fields(names@, columns@, i as int, n as nat),
                decreases columns@.len() - n,
            {
                let ghost before = vals(elems@);
                proof {
                    lemma_all_ok(columns@, valid@.len(), columns@.len(), n as int);
                }
                assert(decreases_to!(columns => columns@));
                assert(decreases_to!(columns@ => columns@[n as int]));
                elems.push(Value::Name(names[n].as_str().to_owned()));
                let value = cell_value(&columns[n], i);
                elems.push(value);
                assert(vals(elems@) =~= fields(names@, columns@, i as int, (n + 1) as nat));
                n += 1;
            }
            Value::Compound(CompoundKind::Struct, elems)
        },
        Column::List { ranges, items } => match ranges[i] {
            Some((from, to)) => {
                assert(ranges@[i as int] == Some((from, to)));
                let mut elems: Vec<Value> = Vec::new();
                let mut k: usize = from;
                assert(vals(elems@) =~= cells(**items, from as int, from as int));
                while k < to
                    invariant
                        from <= k <= to,
                        to <= column_len(**items),
                        vals(elems@) == cells(**items, from as int, k as int),
                    decreases to - k,
                {
                    let value = cell_value(items, k);
                    elems.push(value);
                    assert(vals(elems@) =~= cells(**items, from as int, k + 1));
                    k += 1;
                }
                Value::Compound(CompoundKind::List, elems)
            },
            None => Value::Null,
        },
        Column::Other { texts, .. } => match texts {
            Some(v) => text(&v[i]),
            None => Value::String("<unsupported>".to_owned()),
        },
    }
}

/// The values of a column.
pub fn array_to_values(c: &Column) -> (r: Vec<Value>)
    requires
        column_ok(*c),
    ensures
        vals(r@) == Seq::new(column_len(*c), |i: int| cell(*c, i)),
{
    let mut r: Vec<Value> = Vec::new();
    let n = c.len();
    let mut i: usize = 0;
    while i < n
        invariant
            i <= n,
            n == column_len(*c),
            vals(r@) =~= Seq::new(i as nat, |j: int| cell(*c, j)),
        decreases n - i,
    {
        let ghost before = vals(r@);
        let value = cell_value(c, i);
        let ghost v = value@;
        r.push(value);
        assert(vals(r@) =~= before.push(v));
        i += 1;
    }
    r
}

/// Some rows of a table, column by column.
#[derive(Debug)]
pub struct Batch {
    pub num_rows: usize,
    pub columns: Vec<Column>,
}

/// Whether all columns are in order and have a cell for every row.
pub open spec fn batch_ok(b: Batch) -> bool {
    all_ok(b.columns@, b.num_rows as nat, b.columns@.len())
}

/// The first `n` values of a row.
pub open spec fn row_prefix(columns: Seq<Column>, i: int, n: nat) -> Seq<Val> {
    Seq::new(n, |k: int| cell(columns[k], i))
}

/// The rows of a batch.
pub open spec fn batch_rows(b: Batch) -> Seq<Seq<Val>> {
    Seq::new(b.num_rows as nat, |i: int| row_prefix(b.columns@, i, b.columns@.len()))
}

/// Whether all columns are in order and have a cell for every row.
pub fn batch_is_ok(b: &Batch) -> (r: bool)
    ensures
        r == batch_ok(*b),
{
    let mut n: usize = 0;
    while n < b.columns.len()
        invariant
            n <= b.columns@.len(),
            all_ok(b.columns@, b.num_rows as nat, n as nat),
        decreases b.columns@.len() - n,
    {
        if !column_is_ok(&b.columns[n]) || b.columns[n].len() != b.num_rows {
            proof {
                if all_ok(b.columns@, b.num_rows as nat, b.columns@.len()) {
                    lemma_all_ok(b.columns@, b.num_rows as nat, b.columns@.len(), n as int);
                }
            }
            return false;
        }
        n += 1;
    }
    true
}

/// The rows of a batch.
pub fn record_batch_to_values(batch: &Batch) -> (r: Vec<Row>)
    requires
        batch_ok(*batch),
    ensures
        row_vals(r@) == batch_rows(*batch),
{
    let mut rows: Vec<Row> = Vec::new();
    let mut i: usize = 0;
    while i < batch.num_rows
        invariant
            i <= batch.num_rows,
            row_vals(rows@) =~= Seq::new(
                i as nat,
                |j: int| row_prefix(batch.columns@, j, batch.columns@.len()),
            ),
        decreases batch.num_rows - i,
    {
        let mut row: Row = Vec::new();
        let mut k: usize = 0;
        while k < batch.columns.len()
            invariant
                k <= batch.columns@.len(),
                vals(row@) =~= row_prefix(batch.columns@, i as int, k as nat),
            decreases batch.columns@.len() - k,
        {
            proof {
                lemma_all_ok(batch.columns@, batch.num_rows as nat, batch.columns@.len(), k as int);
            }
            let ghost before = vals(row@);
            let value = cell_value(&batch.columns[k], i);
            let ghost v = value@;
            row.push(value);
            assert(vals(row@) =~= before.push(v));
            k += 1;
        }
        let ghost before = row_vals(rows@);
        let ghost one = vals(row@);
        rows.push(row);
        assert(row_vals(rows@) =~= before.push(one));
        i += 1;
    }
    rows
}

} // verus!
