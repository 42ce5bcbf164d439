//! Sources of base facts.
use vstd::prelude::*;

use crate::store::{row_vals, Row};
use crate::value::{compare, order_of, value_eq, vals, Order, Val, Value};

verus! {

/// Metadata about a relation that a source provides.
#[derive(Debug, Clone)]
pub struct RelationInfo {
    pub name: String,
    pub estimated_rows: usize,
}

/// A fingerprint for staleness detection.
#[derive(Debug, Clone, PartialEq, Eq)]
pub struct Fingerprint(pub Vec<u8>);

/// The comparison of a column-level predicate.
#[derive(Debug, Clone, Copy, PartialEq, Eq, Structural)]
pub enum PredicateOp {
    Eq,
    Neq,
    Lt,
    Le,
    Gt,
    Ge,
}

/// A comparison of a column with a constant. A source may use it to leave out rows for which it
/// does not hold.
#[derive(Debug, Clone, PartialEq, Eq)]
pub struct ColumnPredicate {
    pub col_idx: usize,
    pub op: PredicateOp,
    pub value: Value,
}

/// The model of a [`ColumnPredicate`].
pub struct Pred {
    pub col: usize,
    pub op: PredicateOp,
    pub value: Val,
}

impl View for ColumnPredicate {
    type V = Pred;

    open spec fn view(&self) -> Pred {
        Pred { col: self.col_idx, op: self.op, value: self.value@ }
    }
}

/// The models of predicates.
pub open spec fn preds(v: Seq<ColumnPredicate>) -> Seq<Pred> {
    Seq::new(v.len(), |i: int| v[i]@)
}

/// Whether a value compares with another as asked.
pub open spec fn compares(op: PredicateOp, a: Val, b: Val) -> bool {
    match op {
        PredicateOp::Eq => a == b,
        PredicateOp::Neq => a != b,
        PredicateOp::Lt => order_of(a, b) == Order::Less,
        PredicateOp::Le => order_of(a, b) != Order::Greater,
        PredicateOp::Gt => order_of(a, b) == Order::Greater,
        PredicateOp::Ge => order_of(a, b) != Order::Less,
    }
}

/// Whether a predicate holds of a row. It holds of no row without the column.
pub open spec fn pred_holds(p: Pred, row: Seq<Val>) -> bool {
    p.col < row.len() && compares(p.op, row[p.col as int], p.value)
}

/// Whether all predicates hold of a row.
pub open spec fn all_hold(ps: Seq<Pred>, row: Seq<Val>) -> bool {
    forall|i: int| 0 <= i < ps.len() ==> pred_holds(#[trigger] ps[i], row)
}

impl ColumnPredicate {
    /// A predicate on a column.
    pub fn new(col_idx: usize, op: PredicateOp, value: Value) -> (r: ColumnPredicate)
        ensures
            r@ == (Pred { col: col_idx, op, value: value@ }),
    {
        ColumnPredicate { col_idx, op, value }
    }

    /// Whether the predicate holds of a row.
    pub fn eval(&self, row: &[Value]) -> (r: bool)
        ensures
            r == pred_holds(self@, vals(row@)),
    {
        if self.col_idx >= row.len() {
            return false;
        }
        let value = &row[self.col_idx];
        assert(vals(row@)[self.col_idx as int] == value@);
        match self.op {
            PredicateOp::Eq => value_eq(value, &self.value),
            PredicateOp::Neq => !value_eq(value, &self.value),
            PredicateOp::Lt => compare(value, &self.value) == Order::Less,
            PredicateOp::Le => compare(value, &self.value) != Order::Greater,
            PredicateOp::Gt => compare(value, &self.value) == Order::Greater,
            PredicateOp::Ge => compare(value, &self.value) != Order::Less,
        }
    }
}

/// The rows of which all predicates hold, in order.
pub open spec fn filtered_rows(rows: Seq<Seq<Val>>, ps: Seq<Pred>) -> Seq<Seq<Val>> {
    rows.filter(|row: Seq<Val>| all_hold(ps, row))
}

/// Whether all predicates hold of a row.
fn all_eval(predicates: &Vec<ColumnPredicate>, row: &Row) -> (r: bool)
    ensures
        r == all_hold(preds(predicates@), vals(row@)),
{
    let mut i: usize = 0;
    while i < predicates.len()
        invariant
            i <= predicates@.len(),
            forall|j: int| 0 <= j < i ==> pred_holds(#[trigger] preds(predicates@)[j], vals(row@)),
        decreases predicates@.len() - i,
    {
        if !predicates[i].eval(row.as_slice()) {
            assert(!pred_holds(preds(predicates@)[i as int], vals(row@)));
            return false;
        }
        i += 1;
    }
    true
}

/// The rows of which all predicates hold, in order.
pub fn filter_rows(rows: Vec<Row>, predicates: &Vec<ColumnPredicate>) -> (r: Vec<Row>)
    ensures
        row_vals(r@) == filtered_rows(row_vals(rows@), preds(predicates@)),
{
    let ghost all = row_vals(rows@);
    let ghost ps = preds(predicates@);
    let ghost keep = |row: Seq<Val>| all_hold(ps, row);
    let mut r: Vec<Row> = Vec::new();
    let mut i: usize = 0;
    assert(row_vals(r@) =~= all.take(0).filter(keep)) by {
        reveal(Seq::filter);
        assert(all.take(0).len() == 0);
    }
    while i < rows.len()
        invariant
            i <= rows@.len(),
            row_vals(r@) == all.take(i as int).filter(keep),
        decreases rows@.len() - i,
    {
        let ghost before = row_vals(r@);
        let ghost row = all[i as int];
        proof {
            reveal(Seq::filter);
            assert(all.take(i + 1).drop_last() =~= all.take(i as int));
            assert(all.take(i + 1).last() == row);
        }
        if all_eval(predicates, &rows[i]) {
            let one = crate::value::copy_values(&rows[i]);
            r.push(one);
            assert(row_vals(r@) =~= before.push(row));
        }
        i += 1;
    }
    assert(all.take(all.len() as int) =~= all);
    r
}

/// Why a source cannot be read.
#[derive(Debug)]
pub struct SourceError {
    pub message: String,
}

/// Whether a result is what comes of reading a relation and leaving out the rows for which a
/// predicate does not hold: those of the rows that are left, in order, or the error.
pub open spec fn reads_as(
    all: Result<Vec<Row>, SourceError>,
    ps: Seq<Pred>,
    r: Result<Vec<Row>, SourceError>,
) -> bool {
    match all {
        Ok(rows) => r matches Ok(kept) && row_vals(kept@) == filtered_rows(row_vals(rows@), ps),
        Err(e) => r matches Err(f) && f == e,
    }
}

/// A provider of base facts.
pub trait EdbSource {
    /// The name of the source, for people.
    fn name(&self) -> String;

    /// The relations that the source provides.
    fn relations(&self) -> Result<Vec<RelationInfo>, SourceError>;

    /// All rows of a relation.
    fn scan(&self, relation: &str) -> Result<Vec<Row>, SourceError>;

    /// The rows of a relation. Rows for which a predicate does not hold may be left out; others
    /// may not. Unless a source does better, all rows are read, and exactly those for which all
    /// predicates hold are kept.
    fn scan_with_predicates(&self, relation: &str, predicates: &Vec<ColumnPredicate>) -> (r: Result<
        Vec<Row>,
        SourceError,
    >)
        default_ensures
            exists|all: Result<Vec<Row>, SourceError>| #[trigger]
                call_ensures(Self::scan, (self, relation), all) && reads_as(
                    all,
                    preds(predicates@),
                    r,
                ),
    {
        match self.scan(relation) {
            Ok(rows) => if predicates.len() == 0 {
                proof {
                    assert(preds(predicates@) =~= Seq::empty());
                    no_predicates_keep_all(row_vals(rows@));
                }
                Ok(rows)
            } else {
                Ok(filter_rows(rows, predicates))
            },
            Err(e) => Err(e),
        }
    }

    /// A fingerprint for staleness detection; without one, nothing can be cached.
    fn fingerprint(&self) -> Result<Option<Fingerprint>, SourceError>;
}

/// Whether a source may tell these relations.
pub open spec fn tells_relations<E: EdbSource>(
    source: E,
    r: Result<Vec<RelationInfo>, SourceError>,
) -> bool {
    call_ensures(E::relations, (&source,), r)
}

/// Whether a source may tell these rows of a relation.
pub open spec fn tells_rows<E: EdbSource>(
    source: E,
    relation: Seq<char>,
    r: Result<Vec<Row>, SourceError>,
) -> bool {
    exists|name: &str| name@ == relation && #[trigger] call_ensures(E::scan, (&source, name), r)
}

/// Whether a source may tell this fingerprint.
pub open spec fn tells_print<E: EdbSource>(
    source: E,
    r: Result<Option<Fingerprint>, SourceError>,
) -> bool {
    call_ensures(E::fingerprint, (&source,), r)
}

/// Without predicates, no row is left out.
pub proof fn no_predicates_keep_all(rows: Seq<Seq<Val>>)
    ensures
        filtered_rows(rows, Seq::empty()) == rows,
    decreases rows.len(),
{
    reveal(Seq::filter);
    if rows.len() > 0 {
        no_predicates_keep_all(rows.drop_last());
        assert(rows.drop_last().push(rows.last()) =~= rows);
    }
}

} // verus!
