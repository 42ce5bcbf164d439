//! The interface of stores of relations.
use vstd::prelude::*;

use crate::disk_names::Tier;
use crate::tables::StoreError;
use crate::text::str_eq;
use crate::value::{vals, Val, Value};

verus! {

/// A row of values.
pub type Row = Vec<Value>;

/// The models of rows.
pub open spec fn row_vals(rows: Seq<Row>) -> Seq<Seq<Val>> {
    Seq::new(rows.len(), |i: int| vals(rows[i]@))
}

/// Whether a name is in the list.
pub open spec fn named(names: Seq<String>, name: Seq<char>) -> bool {
    exists|i: int| 0 <= i < names.len() && (#[trigger] names[i])@ == name
}

/// Whether a name is in the list.
pub(crate) fn contains_name(names: &Vec<String>, name: &str) -> (r: bool)
    ensures
        r == named(names@, name@),
{
    let mut i: usize = 0;
    while i < names.len()
        invariant
            i <= names@.len(),
            forall|j: int| 0 <= j < i ==> (#[trigger] names@[j])@ != name@,
        decreases names@.len() - i,
    {
        if str_eq(names[i].as_str(), name) {
            assert(names@[i as int]@ == name@);
            return true;
        }
        i += 1;
    }
    false
}

/// What a store holds. The rows of a relation are settled, new, or being collected for the
/// next round.
pub trait Contents: Sized {
    /// The invariant of the store.
    spec fn valid(&self) -> bool;

    /// Whether a row is in a relation, in a tier.
    spec fn has(&self, t: Tier, rel: Seq<char>, row: Seq<Val>) -> bool;

    /// Whether a relation is known.
    spec fn knows(&self, rel: Seq<char>) -> bool;

    /// Whether no operation fails until `n` more rows were added.
    spec fn roomy(&self, n: nat) -> bool;

    /// Whether no row is twice in a relation.
    spec fn once(&self) -> bool;

    /// Where there is room for rows, there is room for fewer.
    proof fn room_for_fewer(&self, n: nat, m: nat)
        requires
            self.roomy(n),
            m <= n,
        ensures
            self.roomy(m),
    ;
}

/// Whether a row has a value in a column.
pub open spec fn has_at(row: Seq<Val>, col: nat, key: Val) -> bool {
    col < row.len() && row[col as int] == key
}

/// Whether a row is among the settled and the new ones of a relation.
pub open spec fn visible<S: Contents>(s: &S, rel: Seq<char>, row: Seq<Val>) -> bool {
    s.has(Tier::Stable, rel, row) || s.has(Tier::Delta, rel, row)
}

/// Whether a row is in a relation, in whatever tier.
pub open spec fn present<S: Contents>(s: &S, rel: Seq<char>, row: Seq<Val>) -> bool {
    visible(s, rel, row) || s.has(Tier::NextDelta, rel, row)
}

/// Whether a row is in a tier after a merge that was settled, new or collected before: in a
/// known relation the new rows become settled and the collected ones new.
pub open spec fn merged(known: bool, t: Tier, settled: bool, new: bool, collected: bool) -> bool {
    match t {
        Tier::Stable => settled || (known && new),
        Tier::Delta => if known {
            collected
        } else {
            new
        },
        Tier::NextDelta => collected && !known,
    }
}

/// Whether a row is in a tier after a merge.
pub open spec fn merged_has<S: Contents>(s: &S, t: Tier, rel: Seq<char>, row: Seq<Val>) -> bool {
    merged(
        s.knows(rel),
        t,
        s.has(Tier::Stable, rel, row),
        s.has(Tier::Delta, rel, row),
        s.has(Tier::NextDelta, rel, row),
    )
}

/// What comes of adding a row: it is collected where it was not there before, and nothing else
/// changes. It does not fail where there is room.
pub open spec fn row_collected<S: Contents>(
    before: &S,
    rel: Seq<char>,
    row: Seq<Val>,
    r: Result<bool, StoreError>,
    after: &S,
) -> bool {
    &&& r matches Ok(b) ==> b == !present(before, rel, row)
    &&& forall|t: Tier, q: Seq<char>, x: Seq<Val>| #[trigger]
        after.has(t, q, x) <==> before.has(t, q, x) || (r == Ok::<bool, StoreError>(true) && t
            == Tier::NextDelta && q == rel && x == row)
    &&& forall|q: Seq<char>| #[trigger] after.knows(q) == before.knows(q)
    &&& forall|n: nat| #![trigger after.roomy(n)] before.roomy(n + 1) ==> after.roomy(n)
    &&& before.roomy(1) ==> r is Ok
    &&& before.once() ==> after.once()
}

/// What comes of a merge: the new rows are settled and the collected ones new, where there is
/// room; in any case no row is lost, and none is added.
pub open spec fn round_ended<S: Contents>(before: &S, after: &S) -> bool {
    &&& forall|q: Seq<char>| #[trigger] after.knows(q) == before.knows(q)
    &&& before.roomy(0) ==> forall|t: Tier, q: Seq<char>, row: Seq<Val>| #[trigger]
        after.has(t, q, row) <==> merged_has(before, t, q, row)
    &&& before.roomy(0) && before.once() ==> after.once()
    &&& forall|n: nat| before.roomy(n) ==> #[trigger] after.roomy(n)
    &&& forall|q: Seq<char>, row: Seq<Val>| #[trigger]
        present(after, q, row) <==> present(before, q, row)
}

/// Storage of relations.
pub trait Store: Contents {
    /// The settled and the new rows of a relation. That of a relation that is not known is an
    /// error.
    fn scan(&self, relation: &str) -> (r: Result<Vec<Row>, StoreError>)
        requires
            self.valid(),
        ensures
            r matches Ok(out) ==> forall|row: Seq<Val>| #[trigger]
                row_vals(out@).contains(row) <==> visible(self, relation@, row),
            !self.knows(relation@) ==> r == Err::<Vec<Row>, StoreError>(StoreError::NoRelation),
            self.roomy(0) && self.knows(relation@) ==> r is Ok,
    ;

    /// The rows of a relation that the last round added.
    fn scan_delta(&self, relation: &str) -> (r: Result<Vec<Row>, StoreError>)
        requires
            self.valid(),
        ensures
            r matches Ok(out) ==> forall|row: Seq<Val>| #[trigger]
                row_vals(out@).contains(row) <==> self.has(Tier::Delta, relation@, row),
            self.roomy(0) ==> r is Ok,
    ;

    /// The rows of a relation that are being collected for the next round.
    fn scan_next_delta(&self, relation: &str) -> (r: Result<Vec<Row>, StoreError>)
        requires
            self.valid(),
        ensures
            r matches Ok(out) ==> forall|row: Seq<Val>| #[trigger]
                row_vals(out@).contains(row) <==> self.has(Tier::NextDelta, relation@, row),
            self.roomy(0) ==> r is Ok,
    ;

    /// The settled and the new rows of a relation with a value in a column.
    fn scan_index(&self, relation: &str, col_idx: usize, key: &Value) -> (r: Result<Vec<Row>, StoreError>)
        requires
            self.valid(),
        ensures
            r matches Ok(out) ==> forall|row: Seq<Val>| #[trigger]
                row_vals(out@).contains(row) <==> visible(self, relation@, row) && has_at(
                    row,
                    col_idx as nat,
                    key@,
                ),
            self.roomy(0) ==> r is Ok,
    ;

    /// The new rows of a relation with a value in a column.
    fn scan_delta_index(&self, relation: &str, col_idx: usize, key: &Value) -> (r: Result<Vec<Row>, StoreError>)
        requires
            self.valid(),
        ensures
            r matches Ok(out) ==> forall|row: Seq<Val>| #[trigger]
                row_vals(out@).contains(row) <==> self.has(Tier::Delta, relation@, row) && has_at(
                    row,
                    col_idx as nat,
                    key@,
                ),
            self.roomy(0) ==> r is Ok,
    ;

    /// Adds a row to those that are being collected. Whether it was not there before.
    fn insert(&mut self, relation: &str, tuple: Row) -> (r: Result<bool, StoreError>)
        requires
            old(self).valid(),
        ensures
            final(self).valid(),
            row_collected(old(self), relation@, vals(tuple@), r, final(self)),
    ;

    /// Settles the new rows and makes those that were collected the new ones. Whatever fails, no
    /// row is lost, and none is added.
    fn merge_deltas(&mut self)
        requires
            old(self).valid(),
        ensures
            final(self).valid(),
            round_ended(old(self), final(self)),
    ;

    /// Makes a relation known.
    fn create_relation(&mut self, relation: &str)
        requires
            old(self).valid(),
        ensures
            final(self).valid(),
            forall|t: Tier, q: Seq<char>, row: Seq<Val>| #[trigger]
                final(self).has(t, q, row) == old(self).has(t, q, row),
            forall|q: Seq<char>| #[trigger]
                final(self).knows(q) <==> old(self).knows(q) || q == relation@,
            forall|n: nat| old(self).roomy(n) ==> #[trigger] final(self).roomy(n),
            old(self).once() ==> final(self).once(),
    ;

    /// Removes a row. Whether it was there.
    fn retract(&mut self, relation: &str, tuple: &Row) -> (r: Result<bool, StoreError>)
        requires
            old(self).valid(),
        ensures
            final(self).valid(),
            r matches Ok(b) ==> b == present(old(self), relation@, vals(tuple@)),
            forall|t: Tier, q: Seq<char>, row: Seq<Val>| #[trigger]
                final(self).has(t, q, row) ==> old(self).has(t, q, row),
            forall|t: Tier, q: Seq<char>, row: Seq<Val>|
                old(self).has(t, q, row) && (q != relation@ || row != vals(tuple@))
                    ==> #[trigger] final(self).has(t, q, row),
            r is Ok && old(self).once() ==> !present(final(self), relation@, vals(tuple@)),
            forall|q: Seq<char>| #[trigger] final(self).knows(q) == old(self).knows(q),
            forall|n: nat| old(self).roomy(n) ==> #[trigger] final(self).roomy(n),
            old(self).roomy(0) ==> r is Ok,
            old(self).once() ==> final(self).once(),
    ;

    /// Removes all rows of a relation.
    fn clear(&mut self, relation: &str)
        requires
            old(self).valid(),
        ensures
            final(self).valid(),
            old(self).roomy(0) ==> forall|t: Tier, q: Seq<char>, row: Seq<Val>| #[trigger]
                final(self).has(t, q, row) <==> old(self).has(t, q, row) && q != relation@,
            forall|q: Seq<char>| #[trigger] final(self).knows(q) == old(self).knows(q),
            forall|n: nat| old(self).roomy(n) ==> #[trigger] final(self).roomy(n),
            old(self).once() ==> final(self).once(),
    ;

    /// The names of the relations.
    fn relation_names(&self) -> (r: Vec<String>)
        requires
            self.valid(),
        ensures
            forall|q: Seq<char>| #[trigger] named(r@, q) <==> self.knows(q),
    ;
}

} // verus!
