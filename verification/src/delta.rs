//! Reading a partitioned table: which partitions are asked for, and which rows are kept.
use vstd::prelude::*;
use vstd::bytes::{spec_u64_to_le_bytes, u64_to_le_bytes};

use crate::source::{all_hold, pred_holds, filtered_rows, preds, Pred};
use crate::source::{filter_rows, ColumnPredicate, Fingerprint, PredicateOp, RelationInfo};
use crate::store::{named, row_vals};
use crate::store::{contains_name, Row};
use crate::text::str_eq;
use crate::calendar::{duration_text, time_text};
use crate::calendar::{format_duration_nanos, format_time_nanos};
use crate::value::{chars, glyphs, int_text, Glyph, Val};
use crate::value::{int_string, push_float, push_text, Piece, Value};

verus! {

/// What a partition is asked for.
#[derive(Debug, Clone, PartialEq, Eq)]
pub enum PartitionValue {
    Equal(String),
    NotEqual(String),
    GreaterThan(String),
    GreaterThanOrEqual(String),
    LessThan(String),
    LessThanOrEqual(String),
    In(Vec<String>),
    NotIn(Vec<String>),
}

/// A column by whose values a table is partitioned, and what is asked of them.
#[derive(Debug, Clone, PartialEq, Eq)]
pub struct PartitionFilter {
    pub key: String,
    pub value: PartitionValue,
}

/// The text of a value in the name of a partition. What has none is the empty text.
pub open spec fn partition_glyphs(v: Val) -> Seq<Glyph> {
    match v {
        Val::Number(n) => chars(int_text(n as int)),
        Val::Float(b) => seq![Glyph::Float(b)],
        Val::String(s) => chars(s),
        Val::Name(s) => chars(s),
        Val::Time(t) => chars(time_text(t as int)),
        Val::Duration(d) => chars(duration_text(d as int)),
        Val::Null => Seq::empty(),
        Val::Compound(_, _) => Seq::empty(),
    }
}

/// The text of a value in the name of a partition, in pieces: floating-point numbers are left
/// to be written.
pub fn value_to_partition_string(value: &Value) -> (r: Vec<Piece>)
    ensures
        glyphs(r@) == partition_glyphs(value@),
{
    let mut ps: Vec<Piece> = Vec::new();
    assert(glyphs(ps@) =~= Seq::<Glyph>::empty());
    match value {
        Value::Number(n) => push_text(&mut ps, int_string(*n)),
        Value::Float(b) => push_float(&mut ps, *b),
        Value::String(s) => push_text(&mut ps, s.as_str().to_owned()),
        Value::Name(s) => push_text(&mut ps, s.as_str().to_owned()),
        Value::Time(t) => push_text(&mut ps, format_time_nanos(*t)),
        Value::Duration(d) => push_text(&mut ps, format_duration_nanos(*d)),
        Value::Null => {},
        Value::Compound(_, _) => {},
    }
    assert(glyphs(ps@) =~= partition_glyphs(value@));
    ps
}

/// Whether the partition of a value has a name. That of no value has none, and a compound
/// value is in no partition's name.
pub open spec fn names_partition(v: Val) -> bool {
    !(v is Null) && !(v is Compound)
}

/// Whether a predicate asks for a value of a column by which the table is partitioned.
pub open spec fn prunes(p: Pred, columns: Seq<String>, partitions: Seq<String>) -> bool {
    p.op == PredicateOp::Eq && p.col < columns.len() && named(partitions, columns[p.col as int]@)
        && names_partition(p.value)
}

/// The columns and values that the first `n` predicates ask partitions for.
pub open spec fn pruning(ps: Seq<Pred>, columns: Seq<String>, partitions: Seq<String>, n: nat) -> Seq<
    (Seq<char>, Seq<Glyph>),
>
    decreases n,
{
    if n == 0 {
        Seq::empty()
    } else {
        let rest = pruning(ps, columns, partitions, (n - 1) as nat);
        let p = ps[n - 1];
        if prunes(p, columns, partitions) {
            rest.push((columns[p.col as int]@, partition_glyphs(p.value)))
        } else {
            rest
        }
    }
}

/// The model of columns and values.
pub open spec fn asked(v: Seq<(String, Vec<Piece>)>) -> Seq<(Seq<char>, Seq<Glyph>)> {
    Seq::new(v.len(), |i: int| (v[i].0@, glyphs(v[i].1@)))
}

/// The columns and values that predicates ask partitions for. Only equality does, and only
/// with a value whose partition has a name: rows without a value are not left out.
pub fn extract_partition_filters(
    predicates: &Vec<ColumnPredicate>,
    columns: &Vec<String>,
    partitions: &Vec<String>,
) -> (r: Vec<(String, Vec<Piece>)>)
    ensures
        asked(r@) == pruning(preds(predicates@), columns@, partitions@, predicates@.len()),
{
    let mut out: Vec<(String, Vec<Piece>)> = Vec::new();
    let mut n: usize = 0;
    assert(asked(out@) =~= Seq::<(Seq<char>, Seq<Glyph>)>::empty());
    while n < predicates.len()
        invariant
            n <= predicates@.len(),
            asked(out@) == pruning(preds(predicates@), columns@, partitions@, n as nat),
        decreases predicates@.len() - n,
    {
        let p = &predicates[n];
        assert(preds(predicates@)[n as int] == p@);
        let ghost before = asked(out@);
        if p.op == PredicateOp::Eq && p.col_idx < columns.len() {
            let name = columns[p.col_idx].as_str();
            let has_name = !matches!(&p.value, Value::Null | Value::Compound(_, _));
            if has_name && contains_name(partitions, name) {
                out.push((name.to_owned(), value_to_partition_string(&p.value)));
                assert(asked(out@) =~= before.push((name@, partition_glyphs(p@.value))));
            }
        }
        n += 1;
    }
    out
}

/// A text in single quotes.
pub open spec fn quoted(s: Seq<char>) -> Seq<char> {
    "'"@ + s + "'"@
}

/// The first `n` texts in single quotes, with commas between them.
pub open spec fn quoted_list(v: Seq<String>, n: nat) -> Seq<char>
    decreases n,
{
    if n == 0 {
        Seq::empty()
    } else if n == 1 {
        quoted(v[0]@)
    } else {
        quoted_list(v, (n - 1) as nat) + ", "@ + quoted(v[n - 1]@)
    }
}

/// The condition of a filter in a query.
pub open spec fn condition(f: PartitionFilter) -> Seq<char> {
    match f.value {
        PartitionValue::Equal(v) => f.key@ + " = "@ + quoted(v@),
        PartitionValue::NotEqual(v) => f.key@ + " != "@ + quoted(v@),
        PartitionValue::In(vs) => f.key@ + " IN ("@ + quoted_list(vs@, vs@.len()) + ")"@,
        PartitionValue::NotIn(vs) => f.key@ + " NOT IN ("@ + quoted_list(vs@, vs@.len()) + ")"@,
        PartitionValue::LessThanOrEqual(v) => f.key@ + " <= "@ + quoted(v@),
        PartitionValue::LessThan(v) => f.key@ + " < "@ + quoted(v@),
        PartitionValue::GreaterThanOrEqual(v) => f.key@ + " >= "@ + quoted(v@),
        PartitionValue::GreaterThan(v) => f.key@ + " > "@ + quoted(v@),
    }
}

/// The conditions of the first `n` filters, all of which have to hold.
pub open spec fn conditions(fs: Seq<PartitionFilter>, n: nat) -> Seq<char>
    decreases n,
{
    if n == 0 {
        Seq::empty()
    } else if n == 1 {
        condition(fs[0])
    } else {
        conditions(fs, (n - 1) as nat) + " AND "@ + condition(fs[n - 1])
    }
}

/// The query for the rows of a relation in the partitions that are asked for.
pub open spec fn query_text(relation: Seq<char>, fs: Seq<PartitionFilter>) -> Seq<char> {
    if fs.len() == 0 {
        "SELECT * FROM "@ + relation
    } else {
        "SELECT * FROM "@ + relation + " WHERE "@ + conditions(fs, fs.len())
    }
}

/// A text in single quotes.
fn quote(s: &str) -> (r: String)
    ensures
        r@ == quoted(s@),
{
    "'".to_owned().concat(s).concat("'")
}

/// Texts in single quotes, with commas between them.
fn quote_all(v: &Vec<String>) -> (r: String)
    ensures
        r@ == quoted_list(v@, v@.len()),
{
    let mut s = String::new();
    let mut n: usize = 0;
    assert(s@ =~= quoted_list(v@, 0));
    while n < v.len()
        invariant
            n <= v@.len(),
            s@ == quoted_list(v@, n as nat),
        decreases v@.len() - n,
    {
        let ghost before = s@;
        if n > 0 {
            s = s.concat(", ");
        }
        s = s.concat(quote(v[n].as_str()).as_str());
        assert(s@ =~= quoted_list(v@, (n + 1) as nat));
        n += 1;
    }
    s
}

/// The condition of a filter in a query.
fn write_condition(f: &PartitionFilter) -> (r: String)
    ensures
        r@ == condition(*f),
{
    let key = f.key.as_str().to_owned();
    match &f.value {
        PartitionValue::Equal(v) => key.concat(" = ").concat(quote(v.as_str()).as_str()),
        PartitionValue::NotEqual(v) => key.concat(" != ").concat(quote(v.as_str()).as_str()),
        PartitionValue::In(vs) => key.concat(" IN (").concat(quote_all(vs).as_str()).concat(")"),
        PartitionValue::NotIn(vs) => key.concat(" NOT IN (").concat(quote_all(vs).as_str()).concat(")"),
        PartitionValue::LessThanOrEqual(v) => key.concat(" <= ").concat(quote(v.as_str()).as_str()),
        PartitionValue::LessThan(v) => key.concat(" < ").concat(quote(v.as_str()).as_str()),
        PartitionValue::GreaterThanOrEqual(v) => key.concat(" >= ").concat(quote(v.as_str()).as_str()),
        PartitionValue::GreaterThan(v) => key.concat(" > ").concat(quote(v.as_str()).as_str()),
    }
}

/// The query for the rows of a relation in the partitions that are asked for.
pub fn partition_query(relation: &str, filters: &Vec<PartitionFilter>) -> (r: String)
    ensures
        r@ == query_text(relation@, filters@),
{
    let all = "SELECT * FROM ".to_owned().concat(relation);
    if filters.len() == 0 {
        return all;
    }
    let mut s = String::new();
    let mut n: usize = 0;
    assert(s@ =~= conditions(filters@, 0));
    while n < filters.len()
        invariant
            n <= filters@.len(),
            s@ == conditions(filters@, n as nat),
        decreases filters@.len() - n,
    {
        if n > 0 {
            s = s.concat(" AND ");
        }
        s = s.concat(write_condition(&filters[n]).as_str());
        assert(s@ =~= conditions(filters@, (n + 1) as nat));
        n += 1;
    }
    all.concat(" WHERE ").concat(s.as_str())
}

/// How a relation is read.
#[derive(Debug)]
pub enum ScanPlan {
    /// The relation is another one: it has no rows here.
    Nothing,
    /// All rows are read.
    All,
    /// The rows in these partitions are read, and those kept of which the predicates hold.
    Filtered(Vec<(String, Vec<Piece>)>),
}

/// How a relation of which predicates are to hold is read from a table.
pub fn plan_scan(
    own: &str,
    relation: &str,
    predicates: &Vec<ColumnPredicate>,
    columns: &Vec<String>,
    partitions: &Vec<String>,
) -> (r: ScanPlan)
    ensures
        match r {
            ScanPlan::Nothing => relation@ != own@,
            ScanPlan::All => relation@ == own@ && predicates@.len() == 0,
            ScanPlan::Filtered(filters) => relation@ == own@ && predicates@.len() > 0 && asked(filters@)
                == pruning(preds(predicates@), columns@, partitions@, predicates@.len()),
        },
{
    if !str_eq(relation, own) {
        ScanPlan::Nothing
    } else if predicates.len() == 0 {
        ScanPlan::All
    } else {
        ScanPlan::Filtered(extract_partition_filters(predicates, columns, partitions))
    }
}

/// The rows that are kept of those that were read: partitions are only asked for some of the
/// predicates.
pub fn recheck(rows: Vec<Row>, predicates: &Vec<ColumnPredicate>) -> (r: Vec<Row>)
    ensures
        row_vals(r@) == filtered_rows(row_vals(rows@), preds(predicates@)),
{
    filter_rows(rows, predicates)
}

/// The fingerprint of a version of a table; one without a version counts as the first.
pub fn version_fingerprint(version: Option<u64>) -> (r: Fingerprint)
    ensures
        r.0@ == spec_u64_to_le_bytes(
            match version {
                Some(v) => v,
                None => 0,
            },
        ),
{
    let v: u64 = match version {
        Some(v) => v,
        None => 0,
    };
    Fingerprint(u64_to_le_bytes(v))
}

/// A rough estimate of the rows of a table with that many files.
pub fn table_info(name: &str, files: usize) -> (r: RelationInfo)
    requires
        files * 100_000 <= usize::MAX,
    ensures
        r.name@ == name@,
        r.estimated_rows == files * 100_000,
{
    RelationInfo { name: name.to_owned(), estimated_rows: files * 100_000 }
}

/// A row of which all predicates hold is in the partitions that are asked for: in every column
/// that is asked about it has a value, with the text that is asked for.
pub proof fn a_matching_row_is_in_its_partitions(
    ps: Seq<Pred>,
    columns: Seq<String>,
    partitions: Seq<String>,
    row: Seq<Val>,
    n: nat,
    k: int,
)
    requires
        n <= ps.len(),
        all_hold(ps, row),
        0 <= k < pruning(ps, columns, partitions, n).len(),
    ensures
        exists|c: int|
            0 <= c < columns.len() && c < row.len() && (#[trigger] columns[c])@ == pruning(
                ps,
                columns,
                partitions,
                n,
            )[k].0 && names_partition(row[c]) && partition_glyphs(row[c]) == pruning(
                ps,
                columns,
                partitions,
                n,
            )[k].1,
    decreases n,
{
    let rest = pruning(ps, columns, partitions, (n - 1) as nat);
    if k < rest.len() {
        a_matching_row_is_in_its_partitions(ps, columns, partitions, row, (n - 1) as nat, k);
    } else {
        let p = ps[n - 1];
        assert(pred_holds(p, row));
        assert(columns[p.col as int]@ == pruning(ps, columns, partitions, n)[k].0);
    }
}

} // verus!
