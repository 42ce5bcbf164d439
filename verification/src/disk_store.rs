//! A store that keeps its relations in tables.
//!
//! Every relation has a table of rows in every tier, and for every column a table of index
//! entries. Rows of the same bytes are not kept twice.
use vstd::prelude::*;

use crate::codec::{
    all_storable, lemma_storable, row_bytes, row_round_trips, storable, taken_row, value_bytes,
    value_bytes_tell_values_apart,
};
use crate::codec::{confirm_row_storable, confirm_storable, deserialize_tuple, encode_index_key, serialize_tuple};
use crate::disk_model::{
    adding_a_row_keeps_indices, db_ok, decoded, drop_changes, dropping_a_tier_keeps_indices, has_cell,
    has_entry, has_row, holds, is_index_of, key_table, lemma_changed_after, lemma_is_index_of,
    removing_a_row_keeps_indices, row_at, row_changes, row_ok, row_removal, row_table,
};
use crate::disk_names::row_tables_are_distinct;
use crate::disk_names::{index_table, index_table_prefix, primary_table_for, Tier};
use crate::mem_tables::{meta_kept, meta_wf, recorded, records};
use crate::mem_tables::bytes_eq;
use crate::row_counts::{
    count, lemma_count_fewer, lemma_count_listed, lemma_count_more, lemma_count_none,
};
use crate::store::{has_at, merged_has, named, present, row_vals, visible};
use crate::store::{contains_name, Contents, Row, Store};
use crate::tables::{
    all_changed, ascending_ids, changed, changes, ids_of, lists_meta, lists_name, Change, Db,
};
use crate::tables::{StoreError, Tables, Write};
use crate::text::{starts_with, str_eq};
use crate::value::{val_of, vals, Val, Value};

verus! {

/// The current version of the format of rows.
pub const TUPLE_FORMAT_VERSION: u64 = 1;

/// The number of the next row of a relation.
pub open spec fn next_id(next_ids: Seq<(String, u64)>, rel: Seq<char>) -> u64 {
    if records(next_ids, rel) {
        recorded(next_ids, rel)
    } else {
        0
    }
}

/// A store of relations in tables.
pub struct DiskStore<T: Tables> {
    pub tables: T,
    pub relations: Vec<String>,
    pub next_ids: Vec<(String, u64)>,
}

/// Every row of a relation has a number below the next.
pub open spec fn ids_used(db: Db, next_ids: Seq<(String, u64)>) -> bool {
    forall|t: Tier, rel: Seq<char>, id: u64| #[trigger]
        has_row(db, t, rel, id) ==> id < next_id(next_ids, rel)
}

/// Every row of a relation has a number below the one that the tables record as its next.
pub open spec fn ids_recorded(db: Db) -> bool {
    forall|t: Tier, rel: Seq<char>, id: u64| #[trigger]
        has_row(db, t, rel, id) ==> db.meta.contains_key(rel) && id < db.meta[rel]
}

/// What a relation needs of the numbers of rows: those that are used up, one for every new
/// row, which is settled next, and two for every collected one, which is new first.
pub open spec fn ids_needed(db: Db, next_ids: Seq<(String, u64)>, rel: Seq<char>) -> int {
    next_id(next_ids, rel) + count(db, Tier::Delta, rel) + 2 * count(db, Tier::NextDelta, rel)
}

impl<T: Tables> DiskStore<T> {
    /// What the tables hold.
    pub open spec fn db(&self) -> Db {
        self.tables.contents()
    }

    /// The tables are in order, every row number in use is below the next, also below the one
    /// that the tables record, and no relation is known twice.
    pub open spec fn wf(&self) -> bool {
        &&& self.tables.wf()
        &&& db_ok(self.db())
        &&& meta_wf(self.next_ids@)
        &&& ids_used(self.db(), self.next_ids@)
        &&& ids_recorded(self.db())
        &&& self.db().version == Some(TUPLE_FORMAT_VERSION)
        &&& forall|i: int, j: int|
            0 <= i < j < self.relations@.len() ==> self.relations@[i]@ != self.relations@[j]@
    }
}

/// Whether `ids` are the numbers of all rows of a relation in a tier, in order.
pub open spec fn listing(db: Db, t: Tier, rel: Seq<char>, ids: Seq<u64>) -> bool {
    &&& ascending_ids(ids)
    &&& forall|id: u64| #[trigger] has_row(db, t, rel, id) <==> ids.contains(id)
}

/// The rows under these numbers.
pub open spec fn rows_at(db: Db, t: Tier, rel: Seq<char>, ids: Seq<u64>) -> Seq<Seq<Val>> {
    Seq::new(ids.len(), |i: int| decoded(row_at(db, t, rel, ids[i])))
}

/// Whether `rows` are all rows of a relation in a tier, in the order of their numbers.
pub open spec fn lists_tier(db: Db, t: Tier, rel: Seq<char>, rows: Seq<Seq<Val>>) -> bool {
    exists|ids: Seq<u64>| #[trigger] listing(db, t, rel, ids) && rows == rows_at(db, t, rel, ids)
}

/// Whether `ids` are the numbers of the rows with a value in a column, in order.
pub open spec fn matching(db: Db, t: Tier, rel: Seq<char>, col: nat, key: Val, ids: Seq<u64>) -> bool {
    &&& ascending_ids(ids)
    &&& forall|id: u64| #[trigger]
        has_cell(db, t, rel, col, value_bytes(key), id) <==> ids.contains(id)
}

/// Whether `rows` are the rows of a relation in a tier with a value in a column.
pub open spec fn lists_matching(db: Db, t: Tier, rel: Seq<char>, col: nat, key: Val, rows: Seq<Seq<Val>>) -> bool {
    exists|ids: Seq<u64>| #[trigger]
        matching(db, t, rel, col, key, ids) && rows == rows_at(db, t, rel, ids)
}

/// An error of decoding as one of the store.
fn decode_error(detail: String) -> (e: StoreError)
    ensures
        e is Decode,
{
    StoreError::Decode(detail)
}

impl<T: Tables> DiskStore<T> {
    /// All rows of a relation in a tier, with their numbers.
    fn read_tier(&self, t: Tier, relation: &str) -> (r: Result<Vec<(u64, Row)>, StoreError>)
        requires
            self.wf(),
        ensures
            r matches Ok(rows) ==> {
                let ids = Seq::new(rows@.len(), |i: int| rows@[i].0);
                &&& listing(self.db(), t, relation@, ids)
                &&& forall|i: int|
                    0 <= i < rows@.len() ==> vals((#[trigger] rows@[i]).1@) == decoded(
                        row_at(self.db(), t, relation@, rows@[i].0),
                    )
            },
            self.tables.reliable() ==> r is Ok,
    {
        let table = primary_table_for(t.name(), relation);
        let ghost db = self.db();
        match self.tables.rows(table.as_str()) {
            Err(e) => Err(e),
            Ok(found) => {
                let mut out: Vec<(u64, Row)> = Vec::new();
                let mut i: usize = 0;
                while i < found.len()
                    invariant
                        i <= found@.len(),
                        out@.len() == i,
                        forall|j: int|
                            0 <= j < i ==> (#[trigger] out@[j]).0 == found@[j].0 && vals(out@[j].1@)
                                == decoded(found@[j].1@),
                    decreases found@.len() - i,
                {
                    proof {
                        assert(db.rows.contains_pair((table@, found@[i as int].0), found@[i as int].1@));
                        assert(has_row(db, t, relation@, found@[i as int].0));
                        assert(row_ok(row_at(db, t, relation@, found@[i as int].0)));
                    }
                    match deserialize_tuple(found[i].1.as_slice()) {
                        Ok(row) => {
                            out.push((found[i].0, row));
                        },
                        Err(e) => {
                            return Err(decode_error(e.message()));
                        },
                    }
                    i += 1;
                }
                proof {
                    let ids = Seq::new(out@.len(), |i: int| out@[i].0);
                    assert(ids =~= ids_of(found@));
                    assert forall|id: u64| #[trigger] has_row(db, t, relation@, id) <==> ids.contains(id) by {
                        if has_row(db, t, relation@, id) {
                            assert(db.rows.contains_key((table@, id)));
                            let k = choose|k: int| 0 <= k < found@.len() && found@[k].0 == id;
                            assert(ids[k] == id);
                        }
                        if ids.contains(id) {
                            let k = ids.index_of(id);
                            assert(db.rows.contains_pair((table@, found@[k].0), found@[k].1@));
                        }
                    }
                    assert forall|k: int| 0 <= k < out@.len() implies vals((#[trigger] out@[k]).1@)
                        == decoded(row_at(db, t, relation@, out@[k].0)) by {
                        assert(db.rows.contains_pair((table@, found@[k].0), found@[k].1@));
                    }
                }
                Ok(out)
            },
        }
    }

    /// The rows of a relation in a tier, appended to others.
    fn scan_tier(&self, t: Tier, relation: &str, out: &mut Vec<Row>) -> (r: Result<(), StoreError>)
        requires
            self.wf(),
        ensures
            r is Ok ==> exists|rows: Seq<Seq<Val>>| #[trigger]
                lists_tier(self.db(), t, relation@, rows) && row_vals(final(out)@) == row_vals(old(out)@)
                    + rows,
            self.tables.reliable() ==> r is Ok,
    {
        let ghost before = row_vals(out@);
        let ghost db = self.db();
        match self.read_tier(t, relation) {
            Err(e) => Err(e),
            Ok(found) => {
                let ghost all = found@;
                let ghost ids = Seq::new(all.len(), |i: int| all[i].0);
                let ghost rows = rows_at(db, t, relation@, ids);
                let mut i: usize = 0;
                assert(row_vals(out@) =~= before + rows.take(0));
                while i < found.len()
                    invariant
                        i <= found@.len(),
                        found@ == all,
                        row_vals(out@) == before + rows.take(i as int),
                    decreases found@.len() - i,
                {
                    let ghost so_far = row_vals(out@);
                    let row = crate::value::copy_values(&found[i].1);
                    out.push(row);
                    assert(row_vals(out@) =~= so_far.push(rows[i as int]));
                    assert(rows.take(i + 1) =~= rows.take(i as int).push(rows[i as int]));
                    assert(row_vals(out@) =~= before + rows.take(i + 1));
                    i += 1;
                }
                assert(rows.take(rows.len() as int) =~= rows);
                assert(lists_tier(db, t, relation@, rows));
                Ok(())
            },
        }
    }

    /// The numbers of the rows of a relation in a tier with a value in a column.
    fn index_lookup_row_ids(&self, t: Tier, relation: &str, col: usize, value: &Value) -> (r: Result<
        Vec<u64>,
        StoreError,
    >)
        requires
            self.wf(),
        ensures
            r matches Ok(ids) ==> matching(self.db(), t, relation@, col as nat, value@, ids@),
            self.tables.reliable() ==> r is Ok,
    {
        let table = index_table(t.name(), relation, col);
        let key = encode_index_key(value);
        let ghost db = self.db();
        match self.tables.entries(table.as_str(), &key) {
            Err(e) => Err(e),
            Ok(ids) => {
                proof {
                    assert forall|id: u64| #[trigger]
                        has_cell(db, t, relation@, col as nat, value_bytes(value@), id) <==> ids@.contains(
                        id,
                    ) by {
                        assert(has_entry(db, t, relation@, col as nat, key@, id) <==> has_cell(
                            db,
                            t,
                            relation@,
                            col as nat,
                            key@,
                            id,
                        ));
                        assert(db.entries.contains((table@, key@, id)) <==> ids@.contains(id));
                    }
                }
                Ok(ids)
            },
        }
    }

    /// The rows of a relation in a tier with a value in a column, appended to others.
    fn fetch_by_index(&self, t: Tier, relation: &str, col: usize, value: &Value, out: &mut Vec<Row>) -> (r: Result<
        (),
        StoreError,
    >)
        requires
            self.wf(),
        ensures
            r is Ok ==> exists|rows: Seq<Seq<Val>>| #[trigger]
                lists_matching(self.db(), t, relation@, col as nat, value@, rows) && row_vals(final(out)@)
                    == row_vals(old(out)@) + rows,
            self.tables.reliable() ==> r is Ok,
    {
        let ghost before = row_vals(out@);
        let ghost db = self.db();
        let table = primary_table_for(t.name(), relation);
        match self.index_lookup_row_ids(t, relation, col, value) {
            Err(e) => Err(e),
            Ok(ids) => {
                let ghost rows = rows_at(db, t, relation@, ids@);
                let mut i: usize = 0;
                assert(row_vals(out@) =~= before + rows.take(0));
                while i < ids.len()
                    invariant
                        i <= ids@.len(),
                        row_vals(out@) == before + rows.take(i as int),
                    decreases ids@.len() - i,
                {
                    let ghost so_far = row_vals(out@);
                    let id = ids[i];
                    proof {
                        assert(ids@.contains(id));
                        assert(has_cell(db, t, relation@, col as nat, value_bytes(value@), id));
                        assert(has_row(db, t, relation@, id));
                        assert(row_ok(row_at(db, t, relation@, id)));
                    }
                    match self.tables.row(table.as_str(), id) {
                        Err(e) => {
                            return Err(e);
                        },
                        Ok(found) => {
                            if let Some(data) = found {
                                match deserialize_tuple(data.as_slice()) {
                                    Ok(row) => {
                                        out.push(row);
                                    },
                                    Err(e) => {
                                        return Err(decode_error(e.message()));
                                    },
                                }
                            }
                        },
                    }
                    assert(row_vals(out@) =~= so_far.push(rows[i as int]));
                    assert(rows.take(i + 1) =~= rows.take(i as int).push(rows[i as int]));
                    assert(row_vals(out@) =~= before + rows.take(i + 1));
                    i += 1;
                }
                assert(rows.take(rows.len() as int) =~= rows);
                assert(lists_matching(db, t, relation@, col as nat, value@, rows));
                Ok(())
            },
        }
    }
}

/// Copies a text.
fn own(s: &str) -> (r: String)
    ensures
        r@ == s@,
{
    s.to_owned()
}

/// The next number is recorded, or there is none.
proof fn lemma_next_id(next_ids: Seq<(String, u64)>, i: int)
    requires
        meta_wf(next_ids),
        0 <= i < next_ids.len(),
    ensures
        next_id(next_ids, next_ids[i].0@) == next_ids[i].1,
{
    let j = choose|j: int| 0 <= j < next_ids.len() && (#[trigger] next_ids[j]).0@ == next_ids[i].0@;
    assert(next_ids[i].0@ == next_ids[i].0@);
    assert(records(next_ids, next_ids[i].0@));
    assert(0 <= j < next_ids.len() && next_ids[j].0@ == next_ids[i].0@);
}

/// Sets the number of the next row of a relation.
fn set_next_id(next_ids: &mut Vec<(String, u64)>, relation: &str, next: u64)
    requires
        meta_wf(old(next_ids)@),
    ensures
        meta_wf(final(next_ids)@),
        meta_kept(final(next_ids)@) == meta_kept(old(next_ids)@).insert(relation@, next),
        next_id(final(next_ids)@, relation@) == next,
        forall|q: Seq<char>|
            q != relation@ ==> #[trigger] next_id(final(next_ids)@, q) == next_id(old(next_ids)@, q),
{
    crate::mem_tables::put_recorded(next_ids, relation, next);
    proof {
        let before = meta_kept(old(next_ids)@);
        let after = meta_kept(next_ids@);
        assert(after.contains_key(relation@) && after[relation@] == next);
        assert forall|q: Seq<char>| q != relation@ implies #[trigger] next_id(next_ids@, q) == next_id(
            old(next_ids)@,
            q,
        ) by {
            assert(after.contains_key(q) == before.contains_key(q));
            assert(before.contains_key(q) ==> after[q] == before[q]);
        }
    }
}

/// The number of the next row of a relation.
fn get_next_id(next_ids: &Vec<(String, u64)>, relation: &str) -> (r: u64)
    requires
        meta_wf(next_ids@),
    ensures
        r == next_id(next_ids@, relation@),
{
    let mut i: usize = 0;
    while i < next_ids.len()
        invariant
            i <= next_ids@.len(),
            forall|j: int| 0 <= j < i ==> (#[trigger] next_ids@[j]).0@ != relation@,
        decreases next_ids@.len() - i,
    {
        if str_eq(next_ids[i].0.as_str(), relation) {
            proof {
                lemma_next_id(next_ids@, i as int);
            }
            return next_ids[i].1;
        }
        i += 1;
    }
    0
}

/// Appends the writes that add a row.
fn push_row_writes(writes: &mut Vec<Write>, t: Tier, relation: &str, id: u64, tuple: &Row)
    ensures
        changes(final(writes)@) == changes(old(writes)@) + row_changes(t, relation@, id, vals(tuple@)),
{
    let ghost start = changes(writes@);
    let ghost vs = vals(tuple@);
    let ghost all = row_changes(t, relation@, id, vs);
    writes.push(
        Write::PutRow {
            table: primary_table_for(t.name(), relation),
            id,
            data: serialize_tuple(tuple),
        },
    );
    assert(changes(writes@) =~= start + all.take(1));
    let mut c: usize = 0;
    while c < tuple.len()
        invariant
            c <= tuple@.len(),
            changes(writes@) == start + all.take(c + 1),
        decreases tuple@.len() - c,
    {
        let ghost so_far = changes(writes@);
        assert(vs[c as int] == val_of(tuple@[c as int]));
        writes.push(
            Write::PutEntry {
                table: index_table(t.name(), relation, c),
                key: encode_index_key(&tuple[c]),
                id,
            },
        );
        assert(changes(writes@) =~= so_far.push(all[c + 1]));
        assert(all.take(c + 2) =~= all.take(c + 1).push(all[c + 1]));
        assert(changes(writes@) =~= start + all.take(c + 2));
        c += 1;
    }
    assert(all.take(all.len() as int) =~= all);
}

/// Appends the writes that remove a row.
fn push_removal_writes(writes: &mut Vec<Write>, t: Tier, relation: &str, id: u64, tuple: &Row)
    ensures
        changes(final(writes)@) == changes(old(writes)@) + row_removal(t, relation@, id, vals(tuple@)),
{
    let ghost start = changes(writes@);
    let ghost vs = vals(tuple@);
    let ghost all = row_removal(t, relation@, id, vs);
    writes.push(Write::RemoveRow { table: primary_table_for(t.name(), relation), id });
    assert(changes(writes@) =~= start + all.take(1));
    let mut c: usize = 0;
    while c < tuple.len()
        invariant
            c <= tuple@.len(),
            changes(writes@) == start + all.take(c + 1),
        decreases tuple@.len() - c,
    {
        let ghost so_far = changes(writes@);
        assert(vs[c as int] == val_of(tuple@[c as int]));
        writes.push(
            Write::RemoveEntry {
                table: index_table(t.name(), relation, c),
                key: encode_index_key(&tuple[c]),
                id,
            },
        );
        assert(changes(writes@) =~= so_far.push(all[c + 1]));
        assert(all.take(c + 2) =~= all.take(c + 1).push(all[c + 1]));
        assert(changes(writes@) =~= start + all.take(c + 2));
        c += 1;
    }
    assert(all.take(all.len() as int) =~= all);
}

/// Whether a row is in a relation, in any tier.
pub open spec fn known_row(db: Db, rel: Seq<char>, data: Seq<u8>) -> bool {
    holds(db, Tier::Stable, rel, data) || holds(db, Tier::Delta, rel, data) || holds(
        db,
        Tier::NextDelta,
        rel,
        data,
    )
}

impl<T: Tables> DiskStore<T> {
    /// The number of a row, by the index of its first column.
    fn find_in_tier(&self, t: Tier, relation: &str, tuple: &Row) -> (r: Result<Option<u64>, StoreError>)
        requires
            self.wf(),
            all_storable(vals(tuple@), tuple@.len()),
        ensures
            r matches Ok(Some(id)) ==> has_row(self.db(), t, relation@, id) && row_at(
                self.db(),
                t,
                relation@,
                id,
            ) == row_bytes(vals(tuple@)),
            r matches Ok(None) ==> !holds(self.db(), t, relation@, row_bytes(vals(tuple@))),
            self.tables.reliable() ==> r is Ok,
    {
        let ghost db = self.db();
        let ghost data = row_bytes(vals(tuple@));
        if tuple.len() == 0 {
            return self.find_by_scan(t, relation, tuple);
        }
        let table = primary_table_for(t.name(), relation);
        let wanted = serialize_tuple(tuple);
        match self.index_lookup_row_ids(t, relation, 0, &tuple[0]) {
            Err(e) => Err(e),
            Ok(ids) => {
                let mut i: usize = 0;
                while i < ids.len()
                    invariant
                        i <= ids@.len(),
                        forall|j: int|
                            0 <= j < i ==> !(has_row(db, t, relation@, #[trigger] ids@[j]) && row_at(
                                db,
                                t,
                                relation@,
                                ids@[j],
                            ) == data),
                    decreases ids@.len() - i,
                {
                    match self.tables.row(table.as_str(), ids[i]) {
                        Err(e) => {
                            return Err(e);
                        },
                        Ok(found) => {
                            if let Some(bytes) = found {
                                if bytes_eq(&bytes, &wanted) {
                                    return Ok(Some(ids[i]));
                                }
                            }
                        },
                    }
                    i += 1;
                }
                proof {
                    if holds(db, t, relation@, data) {
                        let id = choose|id: u64| #[trigger]
                            has_row(db, t, relation@, id) && row_at(db, t, relation@, id) == data;
                        row_round_trips(vals(tuple@));
                        assert(vals(tuple@)[0] == val_of(tuple@[0]));
                        assert(has_cell(db, t, relation@, 0, value_bytes(tuple@[0]@), id));
                        let k = ids@.index_of(id);
                        assert(ids@[k] == id);
                    }
                }
                Ok(None)
            },
        }
    }

    /// The number of a row, by looking at all.
    fn find_by_scan(&self, t: Tier, relation: &str, tuple: &Row) -> (r: Result<Option<u64>, StoreError>)
        requires
            self.wf(),
        ensures
            r matches Ok(Some(id)) ==> has_row(self.db(), t, relation@, id) && row_at(
                self.db(),
                t,
                relation@,
                id,
            ) == row_bytes(vals(tuple@)),
            r matches Ok(None) ==> !holds(self.db(), t, relation@, row_bytes(vals(tuple@))),
            self.tables.reliable() ==> r is Ok,
    {
        let ghost db = self.db();
        let ghost data = row_bytes(vals(tuple@));
        let wanted = serialize_tuple(tuple);
        match self.read_tier(t, relation) {
            Err(e) => Err(e),
            Ok(rows) => {
                let ghost ids = Seq::new(rows@.len(), |i: int| rows@[i].0);
                let mut i: usize = 0;
                while i < rows.len()
                    invariant
                        i <= rows@.len(),
                        forall|j: int|
                            0 <= j < i ==> row_at(db, t, relation@, #[trigger] ids[j]) != data,
                    decreases rows@.len() - i,
                {
                    let bytes = serialize_tuple(&rows[i].1);
                    proof {
                        let id = rows@[i as int].0;
                        assert(ids[i as int] == id);
                        assert(ids.contains(id));
                        assert(has_row(db, t, relation@, id));
                        assert(row_ok(row_at(db, t, relation@, id)));
                    }
                    if bytes_eq(&bytes, &wanted) {
                        return Ok(Some(rows[i].0));
                    }
                    i += 1;
                }
                proof {
                    if holds(db, t, relation@, data) {
                        let id = choose|id: u64| #[trigger]
                            has_row(db, t, relation@, id) && row_at(db, t, relation@, id) == data;
                        let k = ids.index_of(id);
                        assert(ids[k] == id);
                    }
                }
                Ok(None)
            },
        }
    }

    /// Whether a row is in a relation, in a tier.
    fn tier_contains_tuple(&self, t: Tier, relation: &str, tuple: &Row) -> (r: Result<bool, StoreError>)
        requires
            self.wf(),
            all_storable(vals(tuple@), tuple@.len()),
        ensures
            r matches Ok(b) ==> b == holds(self.db(), t, relation@, row_bytes(vals(tuple@))),
            self.tables.reliable() ==> r is Ok,
    {
        match self.find_in_tier(t, relation, tuple) {
            Err(e) => Err(e),
            Ok(Some(_id)) => Ok(true),
            Ok(None) => Ok(false),
        }
    }

    /// Whether a row is in a relation.
    fn contains_tuple(&self, relation: &str, tuple: &Row) -> (r: Result<bool, StoreError>)
        requires
            self.wf(),
            all_storable(vals(tuple@), tuple@.len()),
        ensures
            r matches Ok(b) ==> b == known_row(self.db(), relation@, row_bytes(vals(tuple@))),
            self.tables.reliable() ==> r is Ok,
    {
        match self.tier_contains_tuple(Tier::Stable, relation, tuple) {
            Err(e) => Err(e),
            Ok(true) => Ok(true),
            Ok(false) => match self.tier_contains_tuple(Tier::Delta, relation, tuple) {
                Err(e) => Err(e),
                Ok(true) => Ok(true),
                Ok(false) => self.tier_contains_tuple(Tier::NextDelta, relation, tuple),
            },
        }
    }

    /// Adds a row to those that are being collected, unless it is in the relation already.
    fn add_row(&mut self, relation: &str, tuple: &Row) -> (r: Result<bool, StoreError>)
        requires
            old(self).wf(),
            all_storable(vals(tuple@), tuple@.len()),
        ensures
            final(self).wf(),
            final(self).relations == old(self).relations,
            final(self).tables.reliable() == old(self).tables.reliable(),
            final(self).db().version == old(self).db().version,
            r == Ok::<bool, StoreError>(true) ==> next_id(old(self).next_ids@, relation@) < u64::MAX,
            r == Ok::<bool, StoreError>(true) ==> final(self).db().meta == old(self).db().meta.insert(
                relation@,
                (next_id(old(self).next_ids@, relation@) + 1) as u64,
            ),
            r matches Ok(b) ==> b == !known_row(old(self).db(), relation@, row_bytes(vals(tuple@))),
            r == Ok::<bool, StoreError>(true) ==> final(self).db().rows == old(self).db().rows.insert(
                (row_table(Tier::NextDelta, relation@), next_id(old(self).next_ids@, relation@)),
                row_bytes(vals(tuple@)),
            ),
            r != Ok::<bool, StoreError>(true) ==> final(self).db() == old(self).db(),
            distinct(old(self).db()) ==> distinct(final(self).db()),
            old(self).tables.reliable() && next_id(old(self).next_ids@, relation@) < u64::MAX ==> r is Ok,
            forall|q: Seq<char>|
                q != relation@ ==> #[trigger] next_id(final(self).next_ids@, q) == next_id(
                    old(self).next_ids@,
                    q,
                ),
            next_id(final(self).next_ids@, relation@) <= next_id(old(self).next_ids@, relation@) + 1,
    {
        let ghost db = self.db();
        let ghost vs = vals(tuple@);
        let ghost ids = self.next_ids@;
        match self.contains_tuple(relation, tuple) {
            Err(e) => {
                return Err(e);
            },
            Ok(true) => {
                return Ok(false);
            },
            Ok(false) => {},
        }
        let id = get_next_id(&self.next_ids, relation);
        if id == u64::MAX {
            return Err(StoreError::Exhausted);
        }
        set_next_id(&mut self.next_ids, relation, id + 1);
        proof {
            assert forall|t: Tier, rel: Seq<char>, i: u64| #[trigger] has_row(db, t, rel, i) implies i < next_id(
                self.next_ids@,
                rel,
            ) by {
                assert(i < next_id(ids, rel));
            }
        }
        let mut writes: Vec<Write> = Vec::new();
        assert(changes(writes@) =~= Seq::<Change>::empty());
        push_row_writes(&mut writes, Tier::NextDelta, relation, id, tuple);
        proof {
            assert(changes(writes@) =~= row_changes(Tier::NextDelta, relation@, id, vs));
            assert(!has_row(db, Tier::NextDelta, relation@, id)) by {
                if has_row(db, Tier::NextDelta, relation@, id) {
                    assert(id < next_id(ids, relation@));
                }
            }
            assert(vs.len() == tuple.len());
            row_round_trips(vs);
            adding_a_row_keeps_indices(db, Tier::NextDelta, relation@, id, vs);
        }
        let ghost cs = changes(writes@);
        let ghost with_row = all_changed(db, cs, cs.len());
        writes.push(Write::PutMeta { relation: own(relation), next_id: id + 1 });
        proof {
            lemma_recorded_after(db, cs, relation@, (id + 1) as u64);
            assert(changes(writes@) =~= cs.push(Change::PutMeta { relation: relation@, next_id: (id + 1) as u64 }));
            lemma_same_tables(
                Db { meta: with_row.meta.insert(relation@, (id + 1) as u64), ..with_row },
                with_row,
            );
        }
        match self.tables.commit(&writes) {
            Err(e) => Err(e),
            Ok(_) => {
                proof {
                    let d = self.db();
                    assert forall|t: Tier, rel: Seq<char>, i: u64| #[trigger] has_row(d, t, rel, i) implies i
                        < next_id(self.next_ids@, rel) by {
                        if row_table(t, rel) == row_table(Tier::NextDelta, relation@) {
                            row_tables_are_distinct(t, rel, Tier::NextDelta, relation@);
                        }
                        if (row_table(t, rel), i) != (row_table(Tier::NextDelta, relation@), id) {
                            assert(has_row(db, t, rel, i));
                        }
                    }
                    assert forall|t: Tier, rel: Seq<char>, i: u64| #[trigger] has_row(d, t, rel, i) implies d.meta.contains_key(
                        rel,
                    ) && i < d.meta[rel] by {
                        if rel == relation@ {
                            assert(i < next_id(self.next_ids@, rel));
                        } else {
                            if row_table(t, rel) == row_table(Tier::NextDelta, relation@) {
                                row_tables_are_distinct(t, rel, Tier::NextDelta, relation@);
                            }
                            assert(has_row(db, t, rel, i));
                        }
                    }
                    if distinct(db) {
                        lemma_added_distinct(db, d, Tier::NextDelta, relation@, id, row_bytes(vs));
                    }
                }
                Ok(true)
            },
        }
    }
}

/// Changes with the number of a next row recorded after them.
proof fn lemma_recorded_after(db: Db, cs: Seq<Change>, rel: Seq<char>, next: u64)
    ensures
        ({
            let d = all_changed(db, cs, cs.len());
            all_changed(
                db,
                cs.push(Change::PutMeta { relation: rel, next_id: next }),
                cs.len() + 1,
            ) == (Db { meta: d.meta.insert(rel, next), ..d })
        }),
{
    let one = seq![Change::PutMeta { relation: rel, next_id: next }];
    let d = all_changed(db, cs, cs.len());
    lemma_changed_after(db, cs, one, 1);
    assert(cs + one =~= cs.push(Change::PutMeta { relation: rel, next_id: next }));
    assert(all_changed(d, one, 0) == d);
    assert(all_changed(d, one, 1) == changed(d, one[0]));
}

/// Whether a name is that of an index of a relation in a tier.
fn names_index(t: Tier, relation: &str, name: &str) -> (r: bool)
    ensures
        r == is_index_of(t, relation@, name@),
{
    let prefix = index_table_prefix(t.name(), relation);
    if !starts_with(name, prefix.as_str()) {
        return false;
    }
    let from = prefix.as_str().unicode_len();
    let to = name.unicode_len();
    let ghost rest = name@.skip(from as int);
    let mut i: usize = from;
    while i < to
        invariant
            from <= i <= to,
            to == name@.len(),
            from == prefix@.len(),
            rest == name@.skip(from as int),
            forall|j: int| 0 <= j < i - from ==> rest[j] != ':',
        decreases to - i,
    {
        if name.get_char(i) == ':' {
            assert(rest[i - from] == ':');
            return false;
        }
        i += 1;
    }
    true
}

/// The same rows in all tiers of all relations but one.
pub open spec fn same_but(d: Db, db: Db, t: Tier, rel: Seq<char>) -> bool {
    forall|u: Tier, q: Seq<char>, id: u64|
        (u != t || q != rel) ==> (#[trigger] has_row(d, u, q, id) == has_row(db, u, q, id)) && (has_row(
            d,
            u,
            q,
            id,
        ) ==> row_at(d, u, q, id) == row_at(db, u, q, id))
}

impl<T: Tables> DiskStore<T> {
    /// Drops the rows and the indices of a relation in a tier.
    fn drop_tier_tables(&mut self, t: Tier, relation: &str) -> (r: Result<(), StoreError>)
        requires
            old(self).wf(),
        ensures
            final(self).wf(),
            final(self).relations == old(self).relations,
            final(self).next_ids == old(self).next_ids,
            final(self).tables.reliable() == old(self).tables.reliable(),
            final(self).db().meta == old(self).db().meta,
            final(self).db().version == old(self).db().version,
            r is Ok ==> forall|id: u64| !#[trigger] has_row(final(self).db(), t, relation@, id),
            r is Ok ==> same_but(final(self).db(), old(self).db(), t, relation@),
            r is Err ==> final(self).db() == old(self).db(),
            distinct(old(self).db()) ==> distinct(final(self).db()),
            old(self).tables.reliable() ==> r is Ok,
    {
        let ghost db = self.db();
        let names = match self.tables.entry_tables() {
            Ok(names) => names,
            Err(e) => return Err(e),
        };
        let mut writes: Vec<Write> = Vec::new();
        let ghost mut dropped: Seq<Seq<char>> = Seq::empty();
        writes.push(Write::DropRows { table: primary_table_for(t.name(), relation) });
        assert(changes(writes@) =~= drop_changes(t, relation@, dropped));
        let mut i: usize = 0;
        while i < names.len()
            invariant
                i <= names@.len(),
                changes(writes@) == drop_changes(t, relation@, dropped),
                forall|j: int| 0 <= j < dropped.len() ==> is_index_of(t, relation@, #[trigger] dropped[j]),
                forall|j: int|
                    0 <= j < i && is_index_of(t, relation@, (#[trigger] names@[j])@) ==> dropped.contains(
                        names@[j]@,
                    ),
            decreases names@.len() - i,
        {
            if names_index(t, relation, names[i].as_str()) {
                let ghost before = changes(writes@);
                let ghost was = dropped;
                writes.push(Write::DropEntries { table: own(names[i].as_str()) });
                proof {
                    dropped = dropped.push(names@[i as int]@);
                    assert(changes(writes@) =~= before.push(
                        Change::DropEntries { table: names@[i as int]@ },
                    ));
                    assert(changes(writes@) =~= drop_changes(t, relation@, dropped));
                    assert forall|j: int|
                        0 <= j < i + 1 && is_index_of(t, relation@, (#[trigger] names@[j])@) implies dropped.contains(
                        names@[j]@,
                    ) by {
                        if j < i {
                            let k = was.index_of(names@[j]@);
                            assert(dropped[k] == names@[j]@);
                        } else {
                            assert(dropped[was.len() as int] == names@[j]@);
                        }
                    }
                }
            }
            i += 1;
        }
        proof {
            assert forall|col: nat, key: Seq<u8>, id: u64| #[trigger]
                has_entry(db, t, relation@, col, key, id) implies dropped.contains(
                key_table(t, relation@, col),
            ) by {
                assert(lists_name(names@, key_table(t, relation@, col)));
                let k = choose|k: int|
                    0 <= k < names@.len() && (#[trigger] names@[k])@ == key_table(t, relation@, col);
                lemma_is_index_of(t, relation@, col);
            }
            dropping_a_tier_keeps_indices(db, t, relation@, dropped);
        }
        match self.tables.commit(&writes) {
            Err(e) => Err(e),
            Ok(_) => {
                proof {
                    let d = self.db();
                    assert(d == all_changed(db, drop_changes(t, relation@, dropped), dropped.len() + 1));
                    assert forall|u: Tier, rel: Seq<char>, id: u64| #[trigger] has_row(d, u, rel, id) implies id
                        < next_id(self.next_ids@, rel) && d.meta.contains_key(rel) && id < d.meta[rel] by {
                        assert(has_row(db, u, rel, id));
                    }
                    if distinct(db) {
                        lemma_fewer_distinct(db, d);
                    }
                }
                Ok(())
            },
        }
    }

    /// Removes a row from a tier.
    fn retract_from_tier(&mut self, t: Tier, relation: &str, tuple: &Row) -> (r: Result<bool, StoreError>)
        requires
            old(self).wf(),
            all_storable(vals(tuple@), tuple@.len()),
        ensures
            final(self).wf(),
            final(self).relations == old(self).relations,
            final(self).next_ids == old(self).next_ids,
            final(self).tables.reliable() == old(self).tables.reliable(),
            final(self).db().meta == old(self).db().meta,
            final(self).db().version == old(self).db().version,
            r matches Ok(b) ==> b == holds(old(self).db(), t, relation@, row_bytes(vals(tuple@))),
            r == Ok::<bool, StoreError>(true) ==> exists|id: u64| #[trigger]
                has_row(old(self).db(), t, relation@, id) && row_at(old(self).db(), t, relation@, id)
                    == row_bytes(vals(tuple@)) && final(self).db().rows == old(self).db().rows.remove(
                    (row_table(t, relation@), id),
                ),
            r != Ok::<bool, StoreError>(true) ==> final(self).db() == old(self).db(),
            distinct(old(self).db()) ==> distinct(final(self).db()),
            old(self).tables.reliable() ==> r is Ok,
    {
        let ghost db = self.db();
        let ghost vs = vals(tuple@);
        let id = match self.find_in_tier(t, relation, tuple) {
            Err(e) => return Err(e),
            Ok(None) => return Ok(false),
            Ok(Some(id)) => id,
        };
        let mut writes: Vec<Write> = Vec::new();
        assert(changes(writes@) =~= Seq::<Change>::empty());
        push_removal_writes(&mut writes, t, relation, id, tuple);
        proof {
            assert(changes(writes@) =~= row_removal(t, relation@, id, vs));
            assert(vs.len() == tuple.len());
            row_round_trips(vs);
            removing_a_row_keeps_indices(db, t, relation@, id, vs);
        }
        match self.tables.commit(&writes) {
            Err(e) => Err(e),
            Ok(_) => {
                proof {
                    let d = self.db();
                    assert forall|u: Tier, rel: Seq<char>, i: u64| #[trigger] has_row(d, u, rel, i) implies i
                        < next_id(self.next_ids@, rel) && d.meta.contains_key(rel) && i < d.meta[rel] by {
                        assert(has_row(db, u, rel, i));
                    }
                    if distinct(db) {
                        lemma_fewer_distinct(db, d);
                    }
                }
                Ok(true)
            },
        }
    }
}

/// The tables once the rows of a relation have gone from one tier to another.
pub open spec fn promoted(db: Db, d: Db, src: Tier, dst: Tier, rel: Seq<char>) -> bool {
    &&& forall|id: u64| !#[trigger] has_row(d, src, rel, id)
    &&& forall|data: Seq<u8>| #[trigger]
        holds(d, dst, rel, data) <==> holds(db, dst, rel, data) || holds(db, src, rel, data)
    &&& forall|u: Tier, q: Seq<char>, id: u64|
        (q != rel || (u != src && u != dst)) ==> (#[trigger] has_row(d, u, q, id) == has_row(db, u, q, id))
            && (has_row(d, u, q, id) ==> row_at(d, u, q, id) == row_at(db, u, q, id))
}

/// The tables while rows are added under new numbers.
spec fn copying(
    db: Db,
    cur: Db,
    src: Tier,
    dst: Tier,
    rel: Seq<char>,
    ids: Seq<u64>,
    start: u64,
    n: int,
) -> bool {
    &&& db_ok(cur)
    &&& cur.version == db.version
    &&& same_but(cur, db, dst, rel)
    &&& forall|id: u64| #[trigger]
        has_row(cur, dst, rel, id) <==> has_row(db, dst, rel, id) || start <= id < start + n
    &&& forall|id: u64| #[trigger]
        has_row(db, dst, rel, id) ==> row_at(cur, dst, rel, id) == row_at(db, dst, rel, id)
    &&& forall|j: int|
        0 <= j < n ==> row_at(cur, dst, rel, (start + j) as u64) == row_at(db, src, rel, #[trigger] ids[j])
}

proof fn lemma_copied(
    db: Db,
    cur: Db,
    src: Tier,
    dst: Tier,
    rel: Seq<char>,
    ids: Seq<u64>,
    start: u64,
    data: Seq<u8>,
)
    requires
        src != dst,
        listing(db, src, rel, ids),
        start + ids.len() <= u64::MAX,
        copying(db, cur, src, dst, rel, ids, start, ids.len() as int),
    ensures
        holds(cur, dst, rel, data) <==> holds(db, dst, rel, data) || holds(db, src, rel, data),
{
    if holds(cur, dst, rel, data) {
        let id = choose|id: u64| #[trigger] has_row(cur, dst, rel, id) && row_at(cur, dst, rel, id) == data;
        if has_row(db, dst, rel, id) {
            assert(row_at(db, dst, rel, id) == data);
        } else {
            let j = id - start;
            assert((start + j) as u64 == id);
            assert(row_at(db, src, rel, ids[j]) == data);
            assert(ids.contains(ids[j]));
            assert(has_row(db, src, rel, ids[j]));
        }
    }
    if holds(db, dst, rel, data) {
        let id = choose|id: u64| #[trigger] has_row(db, dst, rel, id) && row_at(db, dst, rel, id) == data;
        assert(has_row(cur, dst, rel, id));
    }
    if holds(db, src, rel, data) {
        let id = choose|id: u64| #[trigger] has_row(db, src, rel, id) && row_at(db, src, rel, id) == data;
        let j = ids.index_of(id);
        assert(ids[j] == id);
        let new_id = (start + j) as u64;
        assert(has_row(cur, dst, rel, new_id));
        assert(row_at(cur, dst, rel, new_id) == data);
    }
}

/// Copying rows to a tier makes none known, and none unknown.
proof fn lemma_known_copied(
    db: Db,
    cur: Db,
    src: Tier,
    dst: Tier,
    rel: Seq<char>,
    ids: Seq<u64>,
    start: u64,
    q: Seq<char>,
    data: Seq<u8>,
)
    requires
        src != dst,
        listing(db, src, rel, ids),
        start + ids.len() <= u64::MAX,
        copying(db, cur, src, dst, rel, ids, start, ids.len() as int),
    ensures
        known_row(cur, q, data) == known_row(db, q, data),
{
    lemma_copied(db, cur, src, dst, rel, ids, start, data);
    assert forall|t: Tier| q != rel || t != dst implies #[trigger] holds(cur, t, q, data) == holds(
        db,
        t,
        q,
        data,
    ) by {
        lemma_same_tier(cur, db, t, q, data);
    }
    assert(q == rel ==> holds(db, src, rel, data) ==> known_row(db, q, data));
}

/// Dropping a tier whose rows are in another makes no row unknown.
proof fn lemma_known_promoted(db: Db, d: Db, src: Tier, dst: Tier, rel: Seq<char>, q: Seq<char>, data: Seq<u8>)
    requires
        src != dst,
        promoted(db, d, src, dst, rel),
    ensures
        known_row(d, q, data) == known_row(db, q, data),
{
    assert forall|t: Tier| q != rel || (t != dst && t != src) implies #[trigger] holds(d, t, q, data) == holds(
        db,
        t,
        q,
        data,
    ) by {
        lemma_promoted(db, d, src, dst, rel, t, q, data);
    }
    assert(!holds(d, src, rel, data));
    assert(q == rel ==> (known_row(d, q, data) <==> exists|t: Tier| #[trigger] holds(d, t, q, data)));
    assert(q == rel ==> (known_row(db, q, data) <==> exists|t: Tier| #[trigger] holds(db, t, q, data)));
}

proof fn lemma_copy_step(
    db: Db,
    cur: Db,
    src: Tier,
    dst: Tier,
    rel: Seq<char>,
    ids: Seq<u64>,
    start: u64,
    n: int,
    vs: Seq<Val>,
)
    requires
        src != dst,
        db_ok(db),
        0 <= n < ids.len(),
        listing(db, src, rel, ids),
        start + ids.len() <= u64::MAX,
        forall|id: u64| #[trigger] has_row(db, dst, rel, id) ==> id < start,
        copying(db, cur, src, dst, rel, ids, start, n),
        vs == decoded(row_at(db, src, rel, ids[n])),
    ensures
        copying(
            db,
            all_changed(cur, row_changes(dst, rel, (start + n) as u64, vs), vs.len() + 1),
            src,
            dst,
            rel,
            ids,
            start,
            n + 1,
        ),
        all_changed(cur, row_changes(dst, rel, (start + n) as u64, vs), vs.len() + 1).meta == cur.meta,
{
    let id = (start + n) as u64;
    let d = all_changed(cur, row_changes(dst, rel, id, vs), vs.len() + 1);
    assert(ids.contains(ids[n]));
    assert(has_row(db, src, rel, ids[n]));
    assert(row_ok(row_at(db, src, rel, ids[n])));
    assert(!has_row(cur, dst, rel, id));
    adding_a_row_keeps_indices(cur, dst, rel, id, vs);
    assert forall|u: Tier, q: Seq<char>, i: u64| (u != dst || q != rel) implies (#[trigger] has_row(
        d,
        u,
        q,
        i,
    ) == has_row(db, u, q, i)) && (has_row(d, u, q, i) ==> row_at(d, u, q, i) == row_at(db, u, q, i)) by {
        if row_table(u, q) == row_table(dst, rel) {
            row_tables_are_distinct(u, q, dst, rel);
        }
        assert(has_row(cur, u, q, i) == has_row(db, u, q, i));
    }
    assert forall|i: u64| #[trigger] has_row(d, dst, rel, i) <==> has_row(db, dst, rel, i) || start <= i < start
        + n + 1 by {
        assert(has_row(cur, dst, rel, i) <==> has_row(db, dst, rel, i) || start <= i < start + n);
    }
    assert forall|i: u64| #[trigger] has_row(db, dst, rel, i) implies row_at(d, dst, rel, i) == row_at(
        db,
        dst,
        rel,
        i,
    ) by {
        assert(i < start);
    }
    assert forall|j: int| 0 <= j < n + 1 implies row_at(d, dst, rel, (start + j) as u64) == row_at(
        db,
        src,
        rel,
        #[trigger] ids[j],
    ) by {
        if j < n {
            assert((start + j) as u64 != id);
        }
    }
}

/// No row is twice in a relation, whatever the tiers.
pub open spec fn distinct(db: Db) -> bool {
    forall|t: Tier, u: Tier, rel: Seq<char>, i: u64, j: u64|
        #[trigger] has_row(db, t, rel, i) && #[trigger] has_row(db, u, rel, j) && (t != u || i != j)
            ==> row_at(db, t, rel, i) != row_at(db, u, rel, j)
}

/// Where a row of a tier that was filled up comes from.
spec fn origin(db: Db, t: Tier, src: Tier, dst: Tier, rel: Seq<char>, ids: Seq<u64>, start: u64, i: u64) -> (Tier, u64) {
    if t == dst && !has_row(db, dst, rel, i) {
        (src, ids[i - start])
    } else {
        (t, i)
    }
}

/// Moving rows from one tier to another makes none that is there twice.
proof fn lemma_promoted_distinct(
    db: Db,
    cur: Db,
    d: Db,
    src: Tier,
    dst: Tier,
    rel: Seq<char>,
    ids: Seq<u64>,
    start: u64,
)
    requires
        src != dst,
        distinct(db),
        listing(db, src, rel, ids),
        start + ids.len() <= u64::MAX,
        forall|id: u64| #[trigger] has_row(db, dst, rel, id) ==> id < start,
        copying(db, cur, src, dst, rel, ids, start, ids.len() as int),
        same_but(d, cur, src, rel),
        forall|id: u64| !#[trigger] has_row(d, src, rel, id),
    ensures
        distinct(d),
{
    assert forall|t: Tier, u: Tier, q: Seq<char>, i: u64, j: u64|
        #[trigger] has_row(d, t, q, i) && #[trigger] has_row(d, u, q, j) && (t != u || i != j) implies row_at(
        d,
        t,
        q,
        i,
    ) != row_at(d, u, q, j) by {
        assert(has_row(cur, t, q, i) && has_row(cur, u, q, j));
        if q != rel {
            assert(has_row(db, t, q, i) && has_row(db, u, q, j));
        } else {
            let a = origin(db, t, src, dst, rel, ids, start, i);
            let b = origin(db, u, src, dst, rel, ids, start, j);
            lemma_origin(db, cur, t, src, dst, rel, ids, start, i);
            lemma_origin(db, cur, u, src, dst, rel, ids, start, j);
            assert(t != src && u != src);
            if a == b {
                if t == dst && !has_row(db, dst, rel, i) {
                    let x = i - start;
                    let y = j - start;
                    assert(u == dst && !has_row(db, dst, rel, j));
                    assert(ids[x] == ids[y]);
                    if x < y {
                        assert(ids[x] < ids[y]);
                    } else if y < x {
                        assert(ids[y] < ids[x]);
                    }
                }
            }
        }
    }
}

proof fn lemma_origin(
    db: Db,
    cur: Db,
    t: Tier,
    src: Tier,
    dst: Tier,
    rel: Seq<char>,
    ids: Seq<u64>,
    start: u64,
    i: u64,
)
    requires
        src != dst,
        listing(db, src, rel, ids),
        start + ids.len() <= u64::MAX,
        copying(db, cur, src, dst, rel, ids, start, ids.len() as int),
        has_row(cur, t, rel, i),
    ensures
        ({
            let (u, j) = origin(db, t, src, dst, rel, ids, start, i);
            has_row(db, u, rel, j) && row_at(db, u, rel, j) == row_at(cur, t, rel, i)
        }),
{
    if t == dst {
        if !has_row(db, dst, rel, i) {
            let x = i - start;
            assert(ids.contains(ids[x]));
            assert(has_row(db, src, rel, ids[x]));
            assert((start + x) as u64 == i);
        }
    } else {
        assert(has_row(cur, t, rel, i) == has_row(db, t, rel, i));
    }
}

/// Fewer rows leave none that is there twice.
proof fn lemma_fewer_distinct(db: Db, d: Db)
    requires
        distinct(db),
        forall|t: Tier, rel: Seq<char>, i: u64| #[trigger]
            has_row(d, t, rel, i) ==> has_row(db, t, rel, i) && row_at(d, t, rel, i) == row_at(db, t, rel, i),
    ensures
        distinct(d),
{
    assert forall|t: Tier, u: Tier, q: Seq<char>, i: u64, j: u64|
        #[trigger] has_row(d, t, q, i) && #[trigger] has_row(d, u, q, j) && (t != u || i != j) implies row_at(
        d,
        t,
        q,
        i,
    ) != row_at(d, u, q, j) by {
        assert(has_row(db, t, q, i) && has_row(db, u, q, j));
    }
}

/// A row that was not there before does not make one that is there twice.
proof fn lemma_added_distinct(db: Db, d: Db, t: Tier, rel: Seq<char>, id: u64, data: Seq<u8>)
    requires
        distinct(db),
        !known_row(db, rel, data),
        !has_row(db, t, rel, id),
        d.rows == db.rows.insert((row_table(t, rel), id), data),
    ensures
        distinct(d),
{
    assert forall|u: Tier, q: Seq<char>, i: u64| #[trigger] has_row(d, u, q, i) implies (u == t && q == rel
        && i == id && row_at(d, u, q, i) == data) || (has_row(db, u, q, i) && row_at(d, u, q, i) == row_at(
        db,
        u,
        q,
        i,
    )) by {
        if row_table(u, q) == row_table(t, rel) {
            row_tables_are_distinct(u, q, t, rel);
        }
    }
    assert forall|u: Tier, i: u64| #[trigger] has_row(db, u, rel, i) implies row_at(db, u, rel, i) != data by {
        if row_at(db, u, rel, i) == data {
            assert(holds(db, u, rel, data));
        }
    }
    assert forall|a: Tier, b: Tier, q: Seq<char>, i: u64, j: u64|
        #[trigger] has_row(d, a, q, i) && #[trigger] has_row(d, b, q, j) && (a != b || i != j) implies row_at(
        d,
        a,
        q,
        i,
    ) != row_at(d, b, q, j) by {}
}

impl<T: Tables> DiskStore<T> {
    /// Moves the rows of a relation from one tier to another, under new numbers.
    #[verifier::rlimit(60)]
    fn promote_tier(&mut self, src: Tier, dst: Tier, relation: &str) -> (r: Result<(), StoreError>)
        requires
            old(self).wf(),
            src != dst,
        ensures
            final(self).wf(),
            final(self).relations == old(self).relations,
            final(self).tables.reliable() == old(self).tables.reliable(),
            final(self).db().version == old(self).db().version,
            forall|q: Seq<char>|
                q != relation@ ==> #[trigger] next_id(final(self).next_ids@, q) == next_id(
                    old(self).next_ids@,
                    q,
                ),
            next_id(final(self).next_ids@, relation@) <= next_id(old(self).next_ids@, relation@) + count(
                old(self).db(),
                src,
                relation@,
            ),
            r is Ok ==> promoted(old(self).db(), final(self).db(), src, dst, relation@),
            r is Ok ==> count(final(self).db(), dst, relation@) <= count(old(self).db(), dst, relation@)
                + count(old(self).db(), src, relation@),
            r is Ok && distinct(old(self).db()) ==> distinct(final(self).db()),
            forall|q: Seq<char>, data: Seq<u8>| #[trigger]
                known_row(final(self).db(), q, data) == known_row(old(self).db(), q, data),
            old(self).tables.reliable() && next_id(old(self).next_ids@, relation@) + count(
                old(self).db(),
                src,
                relation@,
            ) <= u64::MAX ==> r is Ok,
    {
        let ghost db = self.db();
        let ghost old_ids = self.next_ids@;
        let ghost rel = relation@;
        let rows = match self.read_tier(src, relation) {
            Ok(rows) => rows,
            Err(e) => return Err(e),
        };
        let ghost ids = Seq::new(rows@.len(), |i: int| rows@[i].0);
        if rows.len() == 0 {
            let r = self.drop_tier_tables(src, relation);
            proof {
                if r is Ok {
                    let d = self.db();
                    assert forall|data: Seq<u8>| #[trigger]
                        holds(d, dst, rel, data) <==> holds(db, dst, rel, data) || holds(db, src, rel, data) by {
                        lemma_same_tier(d, db, dst, rel, data);
                        if holds(db, src, rel, data) {
                            let id = choose|id: u64| #[trigger]
                                has_row(db, src, rel, id) && row_at(db, src, rel, id) == data;
                            assert(ids.contains(id));
                        }
                    }
                    assert(promoted(db, d, src, dst, rel));
                    assert forall|t: Tier, q: Seq<char>, i: u64| #[trigger] has_row(d, t, q, i) implies has_row(
                        db,
                        t,
                        q,
                        i,
                    ) && row_at(d, t, q, i) == row_at(db, t, q, i) by {
                        assert(t != src || q != rel);
                    }
                    if distinct(db) {
                        lemma_fewer_distinct(db, d);
                    }
                    lemma_count_fewer(db, d, dst, rel, (u64::MAX + 1) as nat);
                    assert forall|q: Seq<char>, data: Seq<u8>| #[trigger] known_row(d, q, data) == known_row(
                        db,
                        q,
                        data,
                    ) by {
                        lemma_known_promoted(db, d, src, dst, rel, q, data);
                    }
                }
            }
            return r;
        }
        let many: u64 = rows.len() as u64;
        let start = get_next_id(&self.next_ids, relation);
        proof {
            assert forall|k: int| 0 <= k < ids.len() implies has_row(db, src, rel, #[trigger] ids[k]) by {
                assert(ids.contains(ids[k]));
            }
            lemma_count_listed(db, src, rel, ids, ids.len() as int);
        }
        if start > u64::MAX - many {
            return Err(StoreError::Exhausted);
        }
        set_next_id(&mut self.next_ids, relation, start + many);
        let mut writes: Vec<Write> = Vec::new();
        let ghost mut cur = db;
        let mut i: usize = 0;
        assert(changes(writes@) =~= Seq::<Change>::empty());
        assert(copying(db, cur, src, dst, rel, ids, start, 0));
        while i < rows.len()
            invariant
                i <= rows@.len(),
                self.tables == old(self).tables,
                self.relations == old(self).relations,
                cur == all_changed(db, changes(writes@), changes(writes@).len()),
                copying(db, cur, src, dst, rel, ids, start, i as int),
                cur.meta == db.meta,
            decreases rows@.len() - i,
        {
            let id: u64 = start + i as u64;
            let ghost before = changes(writes@);
            let ghost vs = vals(rows@[i as int].1@);
            push_row_writes(&mut writes, dst, relation, id, &rows[i].1);
            proof {
                assert(ids[i as int] == rows@[i as int].0);
                let cs = row_changes(dst, rel, id, vs);
                lemma_changed_after(db, before, cs, cs.len());
                lemma_copy_step(db, cur, src, dst, rel, ids, start, i as int, vs);
                cur = all_changed(cur, cs, cs.len());
            }
            i += 1;
        }
        proof {
            assert forall|t: Tier, q: Seq<char>, id: u64| #[trigger] has_row(cur, t, q, id) implies id < next_id(
                self.next_ids@,
                q,
            ) by {
                if t == dst && q == rel {
                    if has_row(db, dst, rel, id) {
                        assert(id < next_id(old_ids, rel));
                    }
                } else {
                    assert(has_row(cur, t, q, id) == has_row(db, t, q, id));
                    assert(id < next_id(old_ids, q));
                }
            }
            assert forall|t: Tier, q: Seq<char>, id: u64| #[trigger] has_row(db, t, q, id) implies id < next_id(
                self.next_ids@,
                q,
            ) by {
                assert(id < next_id(old_ids, q));
            }
        }
        let ghost cs = changes(writes@);
        let next: u64 = start + many;
        writes.push(Write::PutMeta { relation: own(relation), next_id: next });
        proof {
            lemma_recorded_after(db, cs, rel, next);
            assert(changes(writes@) =~= cs.push(Change::PutMeta { relation: rel, next_id: next }));
        }
        match self.tables.commit(&writes) {
            Err(e) => {
                return Err(e);
            },
            Ok(_) => {},
        }
        let ghost kept = cur;
        proof {
            cur = self.db();
            lemma_same_tables(cur, kept);
            assert(copying(db, cur, src, dst, rel, ids, start, ids.len() as int));
            assert forall|t: Tier, q: Seq<char>, id: u64| #[trigger] has_row(cur, t, q, id) implies id < next_id(
                self.next_ids@,
                q,
            ) && cur.meta.contains_key(q) && id < cur.meta[q] by {
                assert(has_row(kept, t, q, id));
                if q != rel {
                    assert(has_row(kept, t, q, id) == has_row(db, t, q, id));
                }
            }
            assert forall|q: Seq<char>, data: Seq<u8>| #[trigger] known_row(cur, q, data) == known_row(
                db,
                q,
                data,
            ) by {
                lemma_known_copied(db, cur, src, dst, rel, ids, start, q, data);
            }
        }
        let r = self.drop_tier_tables(src, relation);
        proof {
            if r is Ok {
                let d = self.db();
                assert forall|data: Seq<u8>| #[trigger]
                    holds(d, dst, rel, data) <==> holds(db, dst, rel, data) || holds(db, src, rel, data) by {
                    lemma_same_tier(d, cur, dst, rel, data);
                    lemma_copied(db, cur, src, dst, rel, ids, start, data);
                }
                assert forall|u: Tier, q: Seq<char>, id: u64| (q != rel || (u != src && u != dst)) implies (
                #[trigger] has_row(d, u, q, id) == has_row(db, u, q, id)) && (has_row(d, u, q, id) ==> row_at(
                    d,
                    u,
                    q,
                    id,
                ) == row_at(db, u, q, id)) by {
                    assert(has_row(d, u, q, id) == has_row(cur, u, q, id));
                    assert(has_row(cur, u, q, id) == has_row(db, u, q, id));
                }
                if distinct(db) {
                    assert forall|id: u64| #[trigger] has_row(db, dst, rel, id) implies id < start by {
                        assert(id < next_id(old_ids, rel));
                    }
                    lemma_promoted_distinct(db, cur, d, src, dst, rel, ids, start);
                }
                lemma_count_more(db, d, dst, rel, start, ids.len(), (u64::MAX + 1) as nat);
                assert(promoted(db, d, src, dst, rel));
                assert forall|q: Seq<char>, data: Seq<u8>| #[trigger] known_row(d, q, data) == known_row(
                    db,
                    q,
                    data,
                ) by {
                    lemma_known_promoted(db, d, src, dst, rel, q, data);
                }
            }
        }
        r
    }
}

/// Where rows are the same, the same rows are held.
proof fn lemma_same_tier(d: Db, db: Db, t: Tier, rel: Seq<char>, data: Seq<u8>)
    requires
        forall|id: u64| #[trigger] has_row(d, t, rel, id) == has_row(db, t, rel, id),
        forall|id: u64| #[trigger]
            has_row(d, t, rel, id) ==> row_at(d, t, rel, id) == row_at(db, t, rel, id),
    ensures
        holds(d, t, rel, data) == holds(db, t, rel, data),
{
    if holds(d, t, rel, data) {
        let id = choose|id: u64| #[trigger] has_row(d, t, rel, id) && row_at(d, t, rel, id) == data;
        assert(has_row(db, t, rel, id));
    }
    if holds(db, t, rel, data) {
        let id = choose|id: u64| #[trigger] has_row(db, t, rel, id) && row_at(db, t, rel, id) == data;
        assert(has_row(d, t, rel, id));
    }
}

/// The changes that record the numbers of next rows.
pub open spec fn meta_changes(next_ids: Seq<(String, u64)>) -> Seq<Change> {
    Seq::new(
        next_ids.len(),
        |i: int| Change::PutMeta { relation: next_ids[i].0@, next_id: next_ids[i].1 },
    )
}

proof fn lemma_meta_changes(db: Db, next_ids: Seq<(String, u64)>, n: nat)
    requires
        n <= next_ids.len(),
    ensures
        ({
            let d = all_changed(db, meta_changes(next_ids), n);
            d.rows == db.rows && d.entries == db.entries && d.version == db.version
        }),
    decreases n,
{
    if n > 0 {
        lemma_meta_changes(db, next_ids, (n - 1) as nat);
    }
}

proof fn lemma_meta_recorded(db: Db, next_ids: Seq<(String, u64)>, n: nat, i: int)
    requires
        meta_wf(next_ids),
        n <= next_ids.len(),
        0 <= i < n,
    ensures
        all_changed(db, meta_changes(next_ids), n).meta.contains_pair(next_ids[i].0@, next_ids[i].1),
    decreases n,
{
    if i < n - 1 {
        lemma_meta_recorded(db, next_ids, (n - 1) as nat, i);
        assert(next_ids[i].0@ != next_ids[n - 1].0@);
    }
}

/// Whether the tables record the number of the next row of every relation.
pub open spec fn meta_saved(db: Db, next_ids: Seq<(String, u64)>) -> bool {
    forall|i: int|
        0 <= i < next_ids.len() ==> db.meta.contains_pair((#[trigger] next_ids[i]).0@, next_ids[i].1)
}

/// The same rows and index entries.
proof fn lemma_same_tables(d: Db, db: Db)
    requires
        d.rows == db.rows,
        d.entries == db.entries,
    ensures
        db_ok(db) ==> db_ok(d),
        distinct(db) ==> distinct(d),
        forall|t: Tier, q: Seq<char>, id: u64| #[trigger] has_row(d, t, q, id) == has_row(db, t, q, id),
        forall|t: Tier, q: Seq<char>, id: u64| #[trigger] row_at(d, t, q, id) == row_at(db, t, q, id),
        forall|t: Tier, q: Seq<char>, data: Seq<u8>| #[trigger] holds(d, t, q, data) == holds(db, t, q, data),
{
    assert forall|t: Tier, q: Seq<char>, data: Seq<u8>| #[trigger] holds(d, t, q, data) == holds(
        db,
        t,
        q,
        data,
    ) by {
        lemma_same_tier(d, db, t, q, data);
    }
    if db_ok(db) {
        assert forall|t: Tier, q: Seq<char>, id: u64| #[trigger] has_row(d, t, q, id) implies row_ok(
            row_at(d, t, q, id),
        ) by {
            assert(has_row(db, t, q, id));
        }
        assert forall|t: Tier, q: Seq<char>, col: nat, key: Seq<u8>, id: u64| #[trigger]
            has_entry(d, t, q, col, key, id) <==> has_cell(d, t, q, col, key, id) by {
            assert(has_entry(db, t, q, col, key, id) <==> has_cell(db, t, q, col, key, id));
        }
    }
    if distinct(db) {
        lemma_fewer_distinct(db, d);
    }
}

/// The tables once the new rows of a relation are settled and the collected ones are new.
pub open spec fn merged(db: Db, d: Db, rel: Seq<char>) -> bool {
    &&& forall|data: Seq<u8>| #[trigger]
        holds(d, Tier::Stable, rel, data) <==> holds(db, Tier::Stable, rel, data) || holds(
            db,
            Tier::Delta,
            rel,
            data,
        )
    &&& forall|data: Seq<u8>| #[trigger]
        holds(d, Tier::Delta, rel, data) <==> holds(db, Tier::NextDelta, rel, data)
    &&& forall|data: Seq<u8>| !#[trigger] holds(d, Tier::NextDelta, rel, data)
}

/// A relation that has the same rows in all tiers.
pub open spec fn untouched(db: Db, d: Db, rel: Seq<char>) -> bool {
    forall|t: Tier, data: Seq<u8>| #[trigger] holds(d, t, rel, data) == holds(db, t, rel, data)
}

/// What promotion leaves as it was.
proof fn lemma_promoted(db: Db, d: Db, src: Tier, dst: Tier, rel: Seq<char>, t: Tier, q: Seq<char>, data: Seq<u8>)
    requires
        promoted(db, d, src, dst, rel),
    ensures
        (q != rel || (t != src && t != dst)) ==> holds(d, t, q, data) == holds(db, t, q, data),
        !holds(d, src, rel, data),
{
    if q != rel || (t != src && t != dst) {
        lemma_same_tier(d, db, t, q, data);
    }
}

/// What comes of opening a store in tables: those of another format are refused, those without
/// a format and without relations are given one, and nothing else changes.
pub open spec fn opens<T: Tables>(tables: T, r: Result<DiskStore<T>, StoreError>) -> bool {
    &&& (tables.contents().version matches Some(v) ==> (v != TUPLE_FORMAT_VERSION ==> r is Err))
    &&& tables.contents().version is None && tables.contents().meta.dom() != Set::<Seq<char>>::empty()
        ==> r is Err
    &&& tables.reliable() ==> match tables.contents().version {
        Some(v) => if v == TUPLE_FORMAT_VERSION {
            r is Ok
        } else {
            r matches Err(e) && e == StoreError::Version(v)
        },
        None => if tables.contents().meta.dom() == Set::<Seq<char>>::empty() {
            r is Ok
        } else {
            r matches Err(e) && e == StoreError::Legacy
        },
    }
    &&& r matches Ok(s) ==> {
        &&& s.db() == (Db { version: Some(TUPLE_FORMAT_VERSION), ..tables.contents() })
        &&& s.tables.reliable() == tables.reliable()
        &&& lists_meta(tables.contents(), s.next_ids@)
        &&& s.relations@.len() == s.next_ids@.len()
        &&& forall|i: int|
            0 <= i < s.relations@.len() ==> (#[trigger] s.relations@[i])@ == s.next_ids@[i].0@
        &&& db_ok(tables.contents()) && ids_recorded(tables.contents()) ==> s.wf()
    }
}

impl<T: Tables> DiskStore<T> {
    /// Opens a store in tables. A database with another format is refused.
    pub fn open(tables: T) -> (r: Result<DiskStore<T>, StoreError>)
        requires
            tables.wf(),
        ensures
            opens(tables, r),
    {
        let mut tables = tables;
        let ghost db = tables.contents();
        let meta = match tables.version() {
            Err(e) => return Err(e),
            Ok(Some(v)) => {
                if v != TUPLE_FORMAT_VERSION {
                    return Err(StoreError::Version(v));
                }
                match tables.meta() {
                    Err(e) => return Err(e),
                    Ok(meta) => {
                        assert(tables.contents() =~= Db { version: Some(TUPLE_FORMAT_VERSION), ..db });
                        meta
                    },
                }
            },
            Ok(None) => {
                match tables.meta() {
                    Err(e) => return Err(e),
                    Ok(meta) => {
                        if meta.len() > 0 {
                            assert(db.meta.dom().contains(meta@[0].0@));
                            return Err(StoreError::Legacy);
                        }
                        assert(db.meta.dom() =~= Set::<Seq<char>>::empty()) by {
                            assert forall|n: Seq<char>| !db.meta.dom().contains(n) by {
                                if db.meta.contains_key(n) {
                                    let i = choose|i: int| 0 <= i < meta@.len() && meta@[i].0@ == n;
                                    assert(false);
                                }
                            }
                        }
                        let mut writes: Vec<Write> = Vec::new();
                        writes.push(Write::PutVersion { version: TUPLE_FORMAT_VERSION });
                        proof {
                            let cs = changes(writes@);
                            assert(cs[0] == (Change::PutVersion { version: TUPLE_FORMAT_VERSION }));
                            assert(all_changed(db, cs, 0) == db);
                            assert(all_changed(db, cs, 1) == (Db {
                                version: Some(TUPLE_FORMAT_VERSION),
                                ..db
                            }));
                        }
                        match tables.commit(&writes) {
                            Err(e) => return Err(e),
                            Ok(_) => meta,
                        }
                    },
                }
            },
        };
        let mut relations: Vec<String> = Vec::new();
        let mut i: usize = 0;
        while i < meta.len()
            invariant
                i <= meta@.len(),
                relations@.len() == i,
                forall|j: int| 0 <= j < i ==> (#[trigger] relations@[j])@ == meta@[j].0@,
            decreases meta@.len() - i,
        {
            relations.push(own(meta[i].0.as_str()));
            i += 1;
        }
        let s = DiskStore { tables, relations, next_ids: meta };
        proof {
            lemma_same_tables(s.db(), db);
            assert(meta_wf(meta@));
            if ids_recorded(db) {
                assert forall|t: Tier, rel: Seq<char>, id: u64| #[trigger] has_row(s.db(), t, rel, id) implies id
                    < next_id(meta@, rel) && s.db().meta.contains_key(rel) && id < s.db().meta[rel] by {
                    assert(has_row(db, t, rel, id));
                    let k = choose|k: int| 0 <= k < meta@.len() && meta@[k].0@ == rel;
                    assert(db.meta.contains_pair(meta@[k].0@, meta@[k].1));
                    lemma_next_id(meta@, k);
                }
            }
            assert forall|a: int, b: int| 0 <= a < b < s.relations@.len() implies s.relations@[a]@
                != s.relations@[b]@ by {
                assert(meta@[a].0@ != meta@[b].0@);
            }
        }
        Ok(s)
    }

    /// Records the numbers of next rows.
    fn save_meta(&mut self) -> (r: Result<(), StoreError>)
        requires
            old(self).wf(),
        ensures
            final(self).wf(),
            final(self).relations == old(self).relations,
            final(self).next_ids == old(self).next_ids,
            final(self).tables.reliable() == old(self).tables.reliable(),
            final(self).db().rows == old(self).db().rows,
            final(self).db().entries == old(self).db().entries,
            final(self).db().version == old(self).db().version,
            r is Ok ==> meta_saved(final(self).db(), final(self).next_ids@),
            old(self).tables.reliable() ==> r is Ok,
    {
        let ghost db = self.db();
        let mut writes: Vec<Write> = Vec::new();
        let mut i: usize = 0;
        while i < self.next_ids.len()
            invariant
                *self == *old(self),
                i <= self.next_ids@.len(),
                writes@.len() == i,
                forall|j: int|
                    0 <= j < i ==> (#[trigger] writes@[j])@ == (Change::PutMeta {
                        relation: self.next_ids@[j].0@,
                        next_id: self.next_ids@[j].1,
                    }),
            decreases self.next_ids@.len() - i,
        {
            writes.push(
                Write::PutMeta {
                    relation: own(self.next_ids[i].0.as_str()),
                    next_id: self.next_ids[i].1,
                },
            );
            i += 1;
        }
        let ghost ids = self.next_ids@;
        proof {
            assert(changes(writes@) =~= meta_changes(ids));
            lemma_meta_changes(db, ids, ids.len());
            lemma_same_tables(all_changed(db, meta_changes(ids), ids.len()), db);
            assert forall|k: int| 0 <= k < ids.len() implies all_changed(
                db,
                meta_changes(ids),
                ids.len(),
            ).meta.contains_pair((#[trigger] ids[k]).0@, ids[k].1) by {
                lemma_meta_recorded(db, ids, ids.len(), k);
            }
            let d = all_changed(db, meta_changes(ids), ids.len());
            assert forall|t: Tier, rel: Seq<char>, id: u64| #[trigger] has_row(d, t, rel, id) implies id < next_id(
                ids,
                rel,
            ) && d.meta.contains_key(rel) && id < d.meta[rel] by {
                assert(has_row(db, t, rel, id));
                assert(id < next_id(ids, rel));
                let k = choose|k: int| 0 <= k < ids.len() && (#[trigger] ids[k]).0@ == rel;
                assert(d.meta.contains_pair(ids[k].0@, ids[k].1));
                lemma_next_id(ids, k);
            }
        }
        self.tables.commit(&writes)
    }

    /// Settles the new rows of a relation and makes the collected ones new.
    fn merge_relation(&mut self, relation: &str) -> (r: Result<(), StoreError>)
        requires
            old(self).wf(),
        ensures
            final(self).wf(),
            final(self).relations == old(self).relations,
            final(self).tables.reliable() == old(self).tables.reliable(),
            forall|q: Seq<char>|
                q != relation@ ==> #[trigger] next_id(final(self).next_ids@, q) == next_id(
                    old(self).next_ids@,
                    q,
                ),
            old(self).tables.reliable() && ids_needed(old(self).db(), old(self).next_ids@, relation@)
                <= u64::MAX ==> r is Ok,
            r is Ok ==> forall|q: Seq<char>| #[trigger]
                ids_needed(final(self).db(), final(self).next_ids@, q) <= ids_needed(
                    old(self).db(),
                    old(self).next_ids@,
                    q,
                ),
            forall|q: Seq<char>, data: Seq<u8>| #[trigger]
                known_row(final(self).db(), q, data) == known_row(old(self).db(), q, data),
            r is Ok ==> merged(old(self).db(), final(self).db(), relation@),
            r is Ok ==> forall|q: Seq<char>| q != relation@ ==> #[trigger] untouched(
                old(self).db(),
                final(self).db(),
                q,
            ),
            r is Ok && distinct(old(self).db()) ==> distinct(final(self).db()),
    {
        let ghost db = self.db();
        let ghost rel = relation@;
        let first = self.promote_tier(Tier::Delta, Tier::Stable, relation);
        let ghost mid = self.db();
        proof {
            if first is Ok {
                lemma_count_fewer(mid, db, Tier::NextDelta, rel, (u64::MAX + 1) as nat);
                lemma_count_fewer(db, mid, Tier::NextDelta, rel, (u64::MAX + 1) as nat);
                lemma_count_none(mid, Tier::Delta, rel);
            }
        }
        let second = self.promote_tier(Tier::NextDelta, Tier::Delta, relation);
        let ghost d = self.db();
        proof {
            assert forall|q: Seq<char>, data: Seq<u8>| #[trigger] known_row(d, q, data) == known_row(
                db,
                q,
                data,
            ) by {
                assert(known_row(d, q, data) == known_row(mid, q, data));
                assert(known_row(mid, q, data) == known_row(db, q, data));
            }
            if first is Ok && second is Ok {
                lemma_count_none(d, Tier::NextDelta, rel);
                assert forall|q: Seq<char>| #[trigger] ids_needed(d, self.next_ids@, q) <= ids_needed(
                    db,
                    old(self).next_ids@,
                    q,
                ) by {
                    if q != rel {
                        assert forall|t: Tier, id: u64| #[trigger] has_row(d, t, q, id) implies has_row(
                            db,
                            t,
                            q,
                            id,
                        ) by {
                            assert(has_row(d, t, q, id) == has_row(mid, t, q, id));
                            assert(has_row(mid, t, q, id) == has_row(db, t, q, id));
                        }
                        lemma_count_fewer(db, d, Tier::Delta, q, (u64::MAX + 1) as nat);
                        lemma_count_fewer(db, d, Tier::NextDelta, q, (u64::MAX + 1) as nat);
                    }
                }
            }
        }
        match first {
            Err(e) => Err(e),
            Ok(_) => {
                proof {
                    if second is Ok {
                        assert forall|data: Seq<u8>|
                            #![trigger holds(d, Tier::Stable, rel, data)]
                            #![trigger holds(d, Tier::Delta, rel, data)]
                            #![trigger holds(d, Tier::NextDelta, rel, data)]
                            (holds(d, Tier::Stable, rel, data) <==> holds(db, Tier::Stable, rel, data) || holds(
                                db,
                                Tier::Delta,
                                rel,
                                data,
                            )) && (holds(d, Tier::Delta, rel, data) <==> holds(db, Tier::NextDelta, rel, data))
                                && !holds(d, Tier::NextDelta, rel, data) by {
                            lemma_promoted(mid, d, Tier::NextDelta, Tier::Delta, rel, Tier::Stable, rel, data);
                            lemma_promoted(db, mid, Tier::Delta, Tier::Stable, rel, Tier::NextDelta, rel, data);
                        }
                        assert forall|q: Seq<char>| q != rel implies #[trigger] untouched(db, d, q) by {
                            assert forall|t: Tier, data: Seq<u8>| #[trigger] holds(d, t, q, data) == holds(
                                db,
                                t,
                                q,
                                data,
                            ) by {
                                lemma_promoted(mid, d, Tier::NextDelta, Tier::Delta, rel, t, q, data);
                                lemma_promoted(db, mid, Tier::Delta, Tier::Stable, rel, t, q, data);
                            }
                        }
                    }
                }
                second
            },
        }
    }
}

/// Whether a relation has a row with these values, in a tier.
pub open spec fn has_vals(db: Db, t: Tier, rel: Seq<char>, row: Seq<Val>) -> bool {
    exists|id: u64| #[trigger] has_row(db, t, rel, id) && decoded(row_at(db, t, rel, id)) == row
}

/// A row is in a tier under its values if it is under its bytes.
proof fn lemma_has_vals(db: Db, t: Tier, rel: Seq<char>, row: Seq<Val>)
    requires
        db_ok(db),
        row.len() <= usize::MAX,
        all_storable(row, row.len()),
    ensures
        has_vals(db, t, rel, row) == holds(db, t, rel, row_bytes(row)),
{
    row_round_trips(row);
    if has_vals(db, t, rel, row) {
        let id = choose|id: u64| #[trigger]
            has_row(db, t, rel, id) && decoded(row_at(db, t, rel, id)) == row;
        assert(row_ok(row_at(db, t, rel, id)));
    }
    if holds(db, t, rel, row_bytes(row)) {
        let id = choose|id: u64| #[trigger]
            has_row(db, t, rel, id) && row_at(db, t, rel, id) == row_bytes(row);
        assert(decoded(row_at(db, t, rel, id)) == row);
    }
}

/// Rows with the same bytes in two tiers have the same values.
proof fn lemma_held_vals(db: Db, d: Db, t: Tier, u: Tier, rel: Seq<char>, row: Seq<Val>)
    requires
        forall|data: Seq<u8>| #[trigger] holds(db, t, rel, data) ==> holds(d, u, rel, data),
        has_vals(db, t, rel, row),
    ensures
        has_vals(d, u, rel, row),
{
    let id = choose|id: u64| #[trigger]
        has_row(db, t, rel, id) && decoded(row_at(db, t, rel, id)) == row;
    let data = row_at(db, t, rel, id);
    assert(holds(db, t, rel, data));
    let i = choose|i: u64| #[trigger] has_row(d, u, rel, i) && row_at(d, u, rel, i) == data;
    assert(decoded(row_at(d, u, rel, i)) == row);
}

/// What a listing of a tier contains.
proof fn lemma_listed(db: Db, t: Tier, rel: Seq<char>, rows: Seq<Seq<Val>>, row: Seq<Val>)
    requires
        lists_tier(db, t, rel, rows),
    ensures
        rows.contains(row) <==> has_vals(db, t, rel, row),
{
    let ids = choose|ids: Seq<u64>| #[trigger]
        listing(db, t, rel, ids) && rows == rows_at(db, t, rel, ids);
    if rows.contains(row) {
        let i = choose|i: int| 0 <= i < rows.len() && rows[i] == row;
        assert(ids.contains(ids[i]));
        assert(has_row(db, t, rel, ids[i]));
    }
    if has_vals(db, t, rel, row) {
        let id = choose|id: u64| #[trigger]
            has_row(db, t, rel, id) && decoded(row_at(db, t, rel, id)) == row;
        assert(ids.contains(id));
        let i = choose|i: int| 0 <= i < ids.len() && ids[i] == id;
        assert(rows[i] == row);
    }
}

/// What a listing of the rows with a value in a column contains.
proof fn lemma_matched(db: Db, t: Tier, rel: Seq<char>, col: nat, key: Val, rows: Seq<Seq<Val>>, row: Seq<Val>)
    requires
        db_ok(db),
        storable(key),
        lists_matching(db, t, rel, col, key, rows),
    ensures
        rows.contains(row) <==> has_vals(db, t, rel, row) && has_at(row, col, key),
{
    let ids = choose|ids: Seq<u64>| #[trigger]
        matching(db, t, rel, col, key, ids) && rows == rows_at(db, t, rel, ids);
    if rows.contains(row) {
        let i = choose|i: int| 0 <= i < rows.len() && rows[i] == row;
        assert(ids.contains(ids[i]));
        assert(has_cell(db, t, rel, col, value_bytes(key), ids[i]));
        lemma_cell(db, t, rel, col, key, ids[i]);
    }
    if has_vals(db, t, rel, row) && has_at(row, col, key) {
        let id = choose|id: u64| #[trigger]
            has_row(db, t, rel, id) && decoded(row_at(db, t, rel, id)) == row;
        assert(has_cell(db, t, rel, col, value_bytes(key), id));
        assert(ids.contains(id));
        let i = choose|i: int| 0 <= i < ids.len() && ids[i] == id;
        assert(rows[i] == row);
    }
}

/// A cell with the bytes of a value holds that value.
proof fn lemma_cell(db: Db, t: Tier, rel: Seq<char>, col: nat, key: Val, id: u64)
    requires
        db_ok(db),
        storable(key),
        has_cell(db, t, rel, col, value_bytes(key), id),
    ensures
        has_at(decoded(row_at(db, t, rel, id)), col, key),
{
    let data = row_at(db, t, rel, id);
    let row = decoded(data);
    assert(row_ok(data));
    lemma_storable(row, row.len(), col as int);
    value_bytes_tell_values_apart(row[col as int], key);
}

/// What two lists contain one after the other.
proof fn lemma_in_either(a: Seq<Seq<Val>>, b: Seq<Seq<Val>>, row: Seq<Val>)
    ensures
        (a + b).contains(row) <==> a.contains(row) || b.contains(row),
{
    if a.contains(row) {
        let i = choose|i: int| 0 <= i < a.len() && a[i] == row;
        assert((a + b)[i] == row);
    }
    if b.contains(row) {
        let i = choose|i: int| 0 <= i < b.len() && b[i] == row;
        assert((a + b)[a.len() + i] == row);
    }
}

/// A row is known if it is in one of the three tiers.
proof fn lemma_held_somewhere(db: Db, rel: Seq<char>, data: Seq<u8>)
    ensures
        known_row(db, rel, data) <==> holds(db, Tier::Stable, rel, data) || holds(
            db,
            Tier::Delta,
            rel,
            data,
        ) || holds(db, Tier::NextDelta, rel, data),
{
}

/// What tables hold after a row was added.
proof fn lemma_row_added(db: Db, d: Db, t: Tier, rel: Seq<char>, id: u64, vs: Seq<Val>)
    requires
        !has_row(db, t, rel, id),
        taken_row(row_bytes(vs)) == Some(vs),
        d.rows == db.rows.insert((row_table(t, rel), id), row_bytes(vs)),
    ensures
        forall|u: Tier, q: Seq<char>, row: Seq<Val>| #[trigger]
            has_vals(d, u, q, row) <==> has_vals(db, u, q, row) || (u == t && q == rel && row == vs),
{
    assert forall|u: Tier, q: Seq<char>, row: Seq<Val>| #[trigger]
        has_vals(d, u, q, row) <==> has_vals(db, u, q, row) || (u == t && q == rel && row == vs) by {
        if has_vals(d, u, q, row) {
            let i = choose|i: u64| #[trigger] has_row(d, u, q, i) && decoded(row_at(d, u, q, i)) == row;
            if (row_table(u, q), i) == (row_table(t, rel), id) {
                row_tables_are_distinct(u, q, t, rel);
            } else {
                assert(has_row(db, u, q, i) && decoded(row_at(db, u, q, i)) == row);
            }
        }
        if has_vals(db, u, q, row) {
            let i = choose|i: u64| #[trigger] has_row(db, u, q, i) && decoded(row_at(db, u, q, i)) == row;
            if (row_table(u, q), i) == (row_table(t, rel), id) {
                row_tables_are_distinct(u, q, t, rel);
            }
            assert(has_row(d, u, q, i) && decoded(row_at(d, u, q, i)) == row);
        }
        if u == t && q == rel && row == vs {
            assert(has_row(d, u, q, id) && decoded(row_at(d, u, q, id)) == row);
        }
    }
}

/// What tables hold after a row was removed.
proof fn lemma_row_removed(db: Db, d: Db, t: Tier, rel: Seq<char>, id: u64)
    requires
        has_row(db, t, rel, id),
        d.rows == db.rows.remove((row_table(t, rel), id)),
    ensures
        forall|u: Tier, q: Seq<char>, row: Seq<Val>| #[trigger]
            has_vals(d, u, q, row) ==> has_vals(db, u, q, row),
        forall|u: Tier, q: Seq<char>, row: Seq<Val>|
            has_vals(db, u, q, row) && (q != rel || row != decoded(row_at(db, t, rel, id)))
                ==> #[trigger] has_vals(d, u, q, row),
{
    assert forall|u: Tier, q: Seq<char>, row: Seq<Val>| #[trigger] has_vals(d, u, q, row) implies has_vals(
        db,
        u,
        q,
        row,
    ) by {
        let i = choose|i: u64| #[trigger] has_row(d, u, q, i) && decoded(row_at(d, u, q, i)) == row;
        assert(has_row(db, u, q, i) && decoded(row_at(db, u, q, i)) == row);
    }
    assert forall|u: Tier, q: Seq<char>, row: Seq<Val>|
        has_vals(db, u, q, row) && (q != rel || row != decoded(row_at(db, t, rel, id)))
            implies #[trigger] has_vals(d, u, q, row) by {
        let i = choose|i: u64| #[trigger] has_row(db, u, q, i) && decoded(row_at(db, u, q, i)) == row;
        if (row_table(u, q), i) == (row_table(t, rel), id) {
            row_tables_are_distinct(u, q, t, rel);
        }
        assert(has_row(d, u, q, i) && decoded(row_at(d, u, q, i)) == row);
    }
}

/// What tables hold after a merge.
proof fn lemma_merged_vals(db: Db, d: Db, rel: Seq<char>, row: Seq<Val>)
    requires
        merged(db, d, rel),
    ensures
        has_vals(d, Tier::Stable, rel, row) <==> has_vals(db, Tier::Stable, rel, row) || has_vals(
            db,
            Tier::Delta,
            rel,
            row,
        ),
        has_vals(d, Tier::Delta, rel, row) <==> has_vals(db, Tier::NextDelta, rel, row),
        !has_vals(d, Tier::NextDelta, rel, row),
{
    if has_vals(d, Tier::Stable, rel, row) {
        let id = choose|id: u64| #[trigger]
            has_row(d, Tier::Stable, rel, id) && decoded(row_at(d, Tier::Stable, rel, id)) == row;
        let data = row_at(d, Tier::Stable, rel, id);
        assert(holds(d, Tier::Stable, rel, data));
        if holds(db, Tier::Stable, rel, data) {
            let i = choose|i: u64| #[trigger]
                has_row(db, Tier::Stable, rel, i) && row_at(db, Tier::Stable, rel, i) == data;
            assert(decoded(row_at(db, Tier::Stable, rel, i)) == row);
        } else {
            let i = choose|i: u64| #[trigger]
                has_row(db, Tier::Delta, rel, i) && row_at(db, Tier::Delta, rel, i) == data;
            assert(decoded(row_at(db, Tier::Delta, rel, i)) == row);
        }
    }
    if has_vals(db, Tier::Stable, rel, row) {
        lemma_held_vals(db, d, Tier::Stable, Tier::Stable, rel, row);
    }
    if has_vals(db, Tier::Delta, rel, row) {
        lemma_held_vals(db, d, Tier::Delta, Tier::Stable, rel, row);
    }
    if has_vals(d, Tier::Delta, rel, row) {
        lemma_held_vals(d, db, Tier::Delta, Tier::NextDelta, rel, row);
    }
    if has_vals(db, Tier::NextDelta, rel, row) {
        lemma_held_vals(db, d, Tier::NextDelta, Tier::Delta, rel, row);
    }
    if has_vals(d, Tier::NextDelta, rel, row) {
        let id = choose|id: u64| #[trigger]
            has_row(d, Tier::NextDelta, rel, id) && decoded(row_at(d, Tier::NextDelta, rel, id)) == row;
        assert(holds(d, Tier::NextDelta, rel, row_at(d, Tier::NextDelta, rel, id)));
    }
}

/// A row that is known in tables is known in others that know the same bytes.
proof fn lemma_known_vals(db: Db, d: Db, rel: Seq<char>, row: Seq<Val>)
    requires
        forall|data: Seq<u8>| #[trigger] known_row(db, rel, data) ==> known_row(d, rel, data),
    ensures
        (has_vals(db, Tier::Stable, rel, row) || has_vals(db, Tier::Delta, rel, row) || has_vals(
            db,
            Tier::NextDelta,
            rel,
            row,
        )) ==> has_vals(d, Tier::Stable, rel, row) || has_vals(d, Tier::Delta, rel, row) || has_vals(
            d,
            Tier::NextDelta,
            rel,
            row,
        ),
{
    if exists|t: Tier| #[trigger] has_vals(db, t, rel, row) {
        let t = choose|t: Tier| #[trigger] has_vals(db, t, rel, row);
        let id = choose|id: u64| #[trigger]
            has_row(db, t, rel, id) && decoded(row_at(db, t, rel, id)) == row;
        let data = row_at(db, t, rel, id);
        assert(holds(db, t, rel, data));
        assert(known_row(db, rel, data));
        let u = choose|u: Tier| #[trigger] holds(d, u, rel, data);
        assert(holds(d, u, rel, data)) by {
            assert(holds(d, Tier::Stable, rel, data) || holds(d, Tier::Delta, rel, data) || holds(
                d,
                Tier::NextDelta,
                rel,
                data,
            ));
        }
        let i = choose|i: u64| #[trigger] has_row(d, u, rel, i) && row_at(d, u, rel, i) == data;
        assert(decoded(row_at(d, u, rel, i)) == row);
        assert(has_vals(d, u, rel, row));
    }
}

/// Tables that hold the same rows of a relation hold the same values.
proof fn lemma_untouched_vals(db: Db, d: Db, t: Tier, rel: Seq<char>, row: Seq<Val>)
    requires
        untouched(db, d, rel),
    ensures
        has_vals(d, t, rel, row) == has_vals(db, t, rel, row),
{
    if has_vals(d, t, rel, row) {
        lemma_held_vals(d, db, t, t, rel, row);
    }
    if has_vals(db, t, rel, row) {
        lemma_held_vals(db, d, t, t, rel, row);
    }
}

/// Tables with the same rows hold the same values.
proof fn lemma_same_vals(db: Db, d: Db)
    requires
        d.rows == db.rows,
    ensures
        forall|t: Tier, q: Seq<char>, row: Seq<Val>| #[trigger]
            has_vals(d, t, q, row) == has_vals(db, t, q, row),
{
    assert forall|t: Tier, q: Seq<char>, row: Seq<Val>| #[trigger]
        has_vals(d, t, q, row) == has_vals(db, t, q, row) by {
        if has_vals(d, t, q, row) {
            let i = choose|i: u64| #[trigger] has_row(d, t, q, i) && decoded(row_at(d, t, q, i)) == row;
            assert(has_row(db, t, q, i) && decoded(row_at(db, t, q, i)) == row);
        }
        if has_vals(db, t, q, row) {
            let i = choose|i: u64| #[trigger] has_row(db, t, q, i) && decoded(row_at(db, t, q, i)) == row;
            assert(has_row(d, t, q, i) && decoded(row_at(d, t, q, i)) == row);
        }
    }
}

impl<T: Tables> Contents for DiskStore<T> {
    open spec fn valid(&self) -> bool {
        self.wf()
    }

    open spec fn has(&self, t: Tier, rel: Seq<char>, row: Seq<Val>) -> bool {
        has_vals(self.db(), t, rel, row)
    }

    open spec fn knows(&self, rel: Seq<char>) -> bool {
        named(self.relations@, rel)
    }

    open spec fn roomy(&self, n: nat) -> bool {
        self.tables.reliable() && forall|q: Seq<char>| #[trigger]
            ids_needed(self.db(), self.next_ids@, q) + 3 * n <= u64::MAX
    }

    open spec fn once(&self) -> bool {
        distinct(self.db())
    }

    proof fn room_for_fewer(&self, n: nat, m: nat) {
        assert forall|q: Seq<char>| #[trigger] ids_needed(self.db(), self.next_ids@, q) + 3 * m
            <= u64::MAX by {
            assert(ids_needed(self.db(), self.next_ids@, q) + 3 * n <= u64::MAX);
        }
    }
}

/// Where no row is added and no number used, there is as much room as before.
proof fn lemma_room_kept<T: Tables>(a: &DiskStore<T>, b: &DiskStore<T>)
    requires
        a.tables.reliable() == b.tables.reliable(),
        forall|q: Seq<char>| #[trigger] next_id(b.next_ids@, q) == next_id(a.next_ids@, q),
        forall|t: Tier, q: Seq<char>, id: u64| #[trigger]
            has_row(b.db(), t, q, id) ==> has_row(a.db(), t, q, id),
    ensures
        forall|n: nat| a.roomy(n) ==> #[trigger] b.roomy(n),
{
    assert forall|n: nat| a.roomy(n) implies #[trigger] b.roomy(n) by {
        assert forall|q: Seq<char>| #[trigger] ids_needed(b.db(), b.next_ids@, q) + 3 * n <= u64::MAX by {
            lemma_count_fewer(a.db(), b.db(), Tier::Delta, q, (u64::MAX + 1) as nat);
            lemma_count_fewer(a.db(), b.db(), Tier::NextDelta, q, (u64::MAX + 1) as nat);
            assert(ids_needed(a.db(), a.next_ids@, q) + 3 * n <= u64::MAX);
        }
    }
}

/// Dropping the tiers of a relation one after the other adds no row.
proof fn lemma_cleared(db: Db, one: Db, two: Db, d: Db, rel: Seq<char>)
    requires
        forall|id: u64| !#[trigger] has_row(one, Tier::Stable, rel, id),
        same_but(one, db, Tier::Stable, rel),
        forall|id: u64| !#[trigger] has_row(two, Tier::Delta, rel, id),
        same_but(two, one, Tier::Delta, rel),
        forall|id: u64| !#[trigger] has_row(d, Tier::NextDelta, rel, id),
        same_but(d, two, Tier::NextDelta, rel),
    ensures
        forall|t: Tier, q: Seq<char>, id: u64| #[trigger] has_row(d, t, q, id) ==> has_row(db, t, q, id),
{
    assert forall|t: Tier, q: Seq<char>, id: u64| #[trigger] has_row(d, t, q, id) implies has_row(
        db,
        t,
        q,
        id,
    ) by {
        assert(has_row(two, t, q, id));
        assert(has_row(one, t, q, id));
    }
}

impl<T: Tables> Store for DiskStore<T> {
    fn scan(&self, relation: &str) -> (r: Result<Vec<Row>, StoreError>)
        ensures
            r matches Ok(out) ==> exists|a: Seq<Seq<Val>>, b: Seq<Seq<Val>>|
                #[trigger] lists_tier(self.db(), Tier::Stable, relation@, a) && #[trigger] lists_tier(
                    self.db(),
                    Tier::Delta,
                    relation@,
                    b,
                ) && row_vals(out@) == a + b,
            self.tables.reliable() && self.knows(relation@) ==> r is Ok,
    {
        if !contains_name(&self.relations, relation) {
            return Err(StoreError::NoRelation);
        }
        let mut out: Vec<Row> = Vec::new();
        assert(row_vals(out@) =~= Seq::<Seq<Val>>::empty());
        match self.scan_tier(Tier::Stable, relation, &mut out) {
            Err(e) => {
                return Err(e);
            },
            Ok(_) => {},
        }
        let ghost a = row_vals(out@);
        match self.scan_tier(Tier::Delta, relation, &mut out) {
            Err(e) => {
                return Err(e);
            },
            Ok(_) => {},
        }
        proof {
            let first = choose|rows: Seq<Seq<Val>>| #[trigger]
                lists_tier(self.db(), Tier::Stable, relation@, rows) && a == Seq::<Seq<Val>>::empty() + rows;
            assert(a =~= first);
            let second = choose|rows: Seq<Seq<Val>>| #[trigger]
                lists_tier(self.db(), Tier::Delta, relation@, rows) && row_vals(out@) == a + rows;
            assert forall|row: Seq<Val>| #[trigger] row_vals(out@).contains(row) <==> visible(self, relation@, row) by {
                lemma_listed(self.db(), Tier::Stable, relation@, a, row);
                lemma_listed(self.db(), Tier::Delta, relation@, second, row);
                lemma_in_either(a, second, row);
            }
        }
        Ok(out)
    }

    fn scan_delta(&self, relation: &str) -> (r: Result<Vec<Row>, StoreError>)
        ensures
            r matches Ok(out) ==> lists_tier(self.db(), Tier::Delta, relation@, row_vals(out@)),
            self.tables.reliable() ==> r is Ok,
    {
        let mut out: Vec<Row> = Vec::new();
        assert(row_vals(out@) =~= Seq::<Seq<Val>>::empty());
        match self.scan_tier(Tier::Delta, relation, &mut out) {
            Err(e) => Err(e),
            Ok(_) => {
                proof {
                    let rows = choose|rows: Seq<Seq<Val>>| #[trigger]
                        lists_tier(self.db(), Tier::Delta, relation@, rows) && row_vals(out@) == Seq::<
                            Seq<Val>,
                        >::empty() + rows;
                    assert(row_vals(out@) =~= rows);
                    assert forall|row: Seq<Val>| #[trigger] row_vals(out@).contains(row) <==> self.has(
                        Tier::Delta,
                        relation@,
                        row,
                    ) by {
                        lemma_listed(self.db(), Tier::Delta, relation@, rows, row);
                    }
                }
                Ok(out)
            },
        }
    }

    fn scan_next_delta(&self, relation: &str) -> (r: Result<Vec<Row>, StoreError>)
        ensures
            r matches Ok(out) ==> lists_tier(self.db(), Tier::NextDelta, relation@, row_vals(out@)),
            self.tables.reliable() ==> r is Ok,
    {
        let mut out: Vec<Row> = Vec::new();
        assert(row_vals(out@) =~= Seq::<Seq<Val>>::empty());
        match self.scan_tier(Tier::NextDelta, relation, &mut out) {
            Err(e) => Err(e),
            Ok(_) => {
                proof {
                    let rows = choose|rows: Seq<Seq<Val>>| #[trigger]
                        lists_tier(self.db(), Tier::NextDelta, relation@, rows) && row_vals(out@) == Seq::<
                            Seq<Val>,
                        >::empty() + rows;
                    assert(row_vals(out@) =~= rows);
                    assert forall|row: Seq<Val>| #[trigger] row_vals(out@).contains(row) <==> self.has(
                        Tier::NextDelta,
                        relation@,
                        row,
                    ) by {
                        lemma_listed(self.db(), Tier::NextDelta, relation@, rows, row);
                    }
                }
                Ok(out)
            },
        }
    }

    fn scan_index(&self, relation: &str, col_idx: usize, key: &Value) -> (r: Result<Vec<Row>, StoreError>)
        ensures
            r matches Ok(out) ==> exists|a: Seq<Seq<Val>>, b: Seq<Seq<Val>>|
                #[trigger] lists_matching(self.db(), Tier::Stable, relation@, col_idx as nat, key@, a)
                    && #[trigger] lists_matching(
                    self.db(),
                    Tier::Delta,
                    relation@,
                    col_idx as nat,
                    key@,
                    b,
                ) && row_vals(out@) == a + b,
            self.tables.reliable() ==> r is Ok,
    {
        let mut out: Vec<Row> = Vec::new();
        assert(row_vals(out@) =~= Seq::<Seq<Val>>::empty());
        confirm_storable(key);
        match self.fetch_by_index(Tier::Stable, relation, col_idx, key, &mut out) {
            Err(e) => {
                return Err(e);
            },
            Ok(_) => {},
        }
        let ghost a = row_vals(out@);
        match self.fetch_by_index(Tier::Delta, relation, col_idx, key, &mut out) {
            Err(e) => {
                return Err(e);
            },
            Ok(_) => {},
        }
        proof {
            let first = choose|rows: Seq<Seq<Val>>| #[trigger]
                lists_matching(self.db(), Tier::Stable, relation@, col_idx as nat, key@, rows) && a == Seq::<
                    Seq<Val>,
                >::empty() + rows;
            assert(a =~= first);
            let second = choose|rows: Seq<Seq<Val>>| #[trigger]
                lists_matching(self.db(), Tier::Delta, relation@, col_idx as nat, key@, rows) && row_vals(out@)
                    == a + rows;
            assert forall|row: Seq<Val>| #[trigger] row_vals(out@).contains(row) <==> visible(self, relation@, row)
                && has_at(row, col_idx as nat, key@) by {
                lemma_matched(self.db(), Tier::Stable, relation@, col_idx as nat, key@, a, row);
                lemma_matched(self.db(), Tier::Delta, relation@, col_idx as nat, key@, second, row);
                lemma_in_either(a, second, row);
            }
        }
        Ok(out)
    }

    fn scan_delta_index(&self, relation: &str, col_idx: usize, key: &Value) -> (r: Result<Vec<Row>, StoreError>)
        ensures
            r matches Ok(out) ==> lists_matching(
                self.db(),
                Tier::Delta,
                relation@,
                col_idx as nat,
                key@,
                row_vals(out@),
            ),
            self.tables.reliable() ==> r is Ok,
    {
        let mut out: Vec<Row> = Vec::new();
        assert(row_vals(out@) =~= Seq::<Seq<Val>>::empty());
        confirm_storable(key);
        match self.fetch_by_index(Tier::Delta, relation, col_idx, key, &mut out) {
            Err(e) => Err(e),
            Ok(_) => {
                proof {
                    let rows = choose|rows: Seq<Seq<Val>>| #[trigger]
                        lists_matching(self.db(), Tier::Delta, relation@, col_idx as nat, key@, rows)
                            && row_vals(out@) == Seq::<Seq<Val>>::empty() + rows;
                    assert(row_vals(out@) =~= rows);
                    assert forall|row: Seq<Val>| #[trigger] row_vals(out@).contains(row) <==> self.has(
                        Tier::Delta,
                        relation@,
                        row,
                    ) && has_at(row, col_idx as nat, key@) by {
                        lemma_matched(self.db(), Tier::Delta, relation@, col_idx as nat, key@, rows, row);
                    }
                }
                Ok(out)
            },
        }
    }

    fn insert(&mut self, relation: &str, tuple: Row) -> (r: Result<bool, StoreError>)
        ensures
            final(self).relations == old(self).relations,
            final(self).tables.reliable() == old(self).tables.reliable(),
            final(self).db().version == old(self).db().version,
            r == Ok::<bool, StoreError>(true) ==> final(self).db().meta == old(self).db().meta.insert(
                relation@,
                (next_id(old(self).next_ids@, relation@) + 1) as u64,
            ),
            r == Ok::<bool, StoreError>(true) ==> next_id(old(self).next_ids@, relation@) < u64::MAX,
            r matches Ok(b) ==> b == !known_row(old(self).db(), relation@, row_bytes(vals(tuple@))),
            r == Ok::<bool, StoreError>(true) ==> final(self).db().rows == old(self).db().rows.insert(
                (row_table(Tier::NextDelta, relation@), next_id(old(self).next_ids@, relation@)),
                row_bytes(vals(tuple@)),
            ),
            r != Ok::<bool, StoreError>(true) ==> final(self).db() == old(self).db(),
            distinct(old(self).db()) ==> distinct(final(self).db()),
            old(self).tables.reliable() && next_id(old(self).next_ids@, relation@) < u64::MAX ==> r is Ok,
    {
        confirm_row_storable(&tuple);
        let r = self.add_row(relation, &tuple);
        proof {
            let vs = vals(tuple@);
            let before = old(self).db();
            lemma_has_vals(before, Tier::Stable, relation@, vs);
            lemma_has_vals(before, Tier::Delta, relation@, vs);
            lemma_has_vals(before, Tier::NextDelta, relation@, vs);
            lemma_held_somewhere(before, relation@, row_bytes(vs));
            if r == Ok::<bool, StoreError>(true) {
                row_round_trips(vs);
                lemma_row_added(
                    before,
                    self.db(),
                    Tier::NextDelta,
                    relation@,
                    next_id(old(self).next_ids@, relation@),
                    vs,
                );
            }
            assert(old(self).roomy(1) ==> ids_needed(before, old(self).next_ids@, relation@) + 3 * 1
                <= u64::MAX);
            let start = next_id(old(self).next_ids@, relation@);
            assert forall|q: Seq<char>| #[trigger] ids_needed(self.db(), self.next_ids@, q) <= ids_needed(
                before,
                old(self).next_ids@,
                q,
            ) + 3 by {
                assert forall|t: Tier, id: u64| #[trigger] has_row(self.db(), t, q, id) implies has_row(
                    before,
                    t,
                    q,
                    id,
                ) || (t == Tier::NextDelta && q == relation@ && start <= id < start + 1) by {
                    if row_table(t, q) == row_table(Tier::NextDelta, relation@) {
                        row_tables_are_distinct(t, q, Tier::NextDelta, relation@);
                    }
                }
                lemma_count_fewer(before, self.db(), Tier::Delta, q, (u64::MAX + 1) as nat);
                lemma_count_more(before, self.db(), Tier::NextDelta, q, start, 1, (u64::MAX + 1) as nat);
            }
            assert forall|n: nat| #![trigger self.roomy(n)] old(self).roomy(n + 1) implies self.roomy(n) by {
                assert forall|q: Seq<char>| #[trigger] ids_needed(self.db(), self.next_ids@, q) + 3 * n
                    <= u64::MAX by {
                    assert(ids_needed(before, old(self).next_ids@, q) + 3 * (n + 1) <= u64::MAX);
                }
            }
        }
        r
    }

    fn merge_deltas(&mut self)
        ensures
            final(self).relations == old(self).relations,
            final(self).tables.reliable() == old(self).tables.reliable(),
            final(self).db().version == old(self).db().version,
            old(self).roomy(0) ==> {
                &&& forall|q: Seq<char>| named(old(self).relations@, q) ==> #[trigger] merged(
                    old(self).db(),
                    final(self).db(),
                    q,
                )
                &&& forall|q: Seq<char>| !named(old(self).relations@, q) ==> #[trigger] untouched(
                    old(self).db(),
                    final(self).db(),
                    q,
                )
                &&& distinct(old(self).db()) ==> distinct(final(self).db())
                &&& meta_saved(final(self).db(), final(self).next_ids@)
            },
    {
        let ghost db = self.db();
        let ghost known = self.relations@;
        let ghost start = self.next_ids@;
        let ghost sure = self.roomy(0);
        let mut i: usize = 0;
        while i < self.relations.len()
            invariant
                self.wf(),
                self.relations@ == known,
                self.relations == old(self).relations,
                self.tables.reliable() == old(self).tables.reliable(),
                i <= known.len(),
                sure ==> forall|q: Seq<char>| #[trigger]
                    ids_needed(self.db(), self.next_ids@, q) <= ids_needed(db, start, q),
                forall|q: Seq<char>, data: Seq<u8>| #[trigger]
                    known_row(self.db(), q, data) == known_row(db, q, data),
                sure ==> forall|j: int| 0 <= j < i ==> merged(db, self.db(), (#[trigger] known[j])@),
                sure ==> forall|q: Seq<char>| !named(known.take(i as int), q) ==> #[trigger] untouched(
                    db,
                    self.db(),
                    q,
                ),
                sure ==> distinct(db) ==> distinct(self.db()),
            decreases known.len() - i,
        {
            let relation = own(self.relations[i].as_str());
            let ghost before = self.db();
            let ghost ids = self.next_ids@;
            let r = self.merge_relation(relation.as_str());
            proof {
                let rel = known[i as int]@;
                let d = self.db();
                assert forall|q: Seq<char>, data: Seq<u8>| #[trigger] known_row(d, q, data) == known_row(
                    db,
                    q,
                    data,
                ) by {
                    assert(known_row(d, q, data) == known_row(before, q, data));
                    assert(known_row(before, q, data) == known_row(db, q, data));
                }
                if sure {
                    assert(ids_needed(before, ids, rel) <= ids_needed(db, start, rel));
                    assert(ids_needed(db, start, rel) + 3 * 0 <= u64::MAX);
                    assert forall|q: Seq<char>| #[trigger] ids_needed(d, self.next_ids@, q) <= ids_needed(
                        db,
                        start,
                        q,
                    ) by {
                        assert(ids_needed(before, ids, q) <= ids_needed(db, start, q));
                    }
                    assert(!named(known.take(i as int), rel)) by {
                        if named(known.take(i as int), rel) {
                            let k = choose|k: int|
                                0 <= k < i && (#[trigger] known.take(i as int)[k])@ == rel;
                            assert(known[k]@ != known[i as int]@);
                        }
                    }
                    assert(untouched(db, before, rel));
                    lemma_merged_after(db, before, d, rel);
                    assert forall|j: int| 0 <= j < i + 1 implies merged(db, d, (#[trigger] known[j])@) by {
                        if j < i {
                            assert(known[j]@ != known[i as int]@);
                            assert(untouched(before, d, known[j]@));
                            lemma_merged_before(db, before, d, known[j]@);
                        }
                    }
                    assert forall|q: Seq<char>| !named(known.take(i + 1), q) implies #[trigger] untouched(db, d, q) by {
                        assert(known.take(i + 1)[i as int]@ == rel);
                        if named(known.take(i as int), q) {
                            let k = choose|k: int|
                                0 <= k < i && (#[trigger] known.take(i as int)[k])@ == q;
                            assert(known.take(i + 1)[k]@ == q);
                        }
                        assert(untouched(db, before, q));
                        assert(untouched(before, d, q));
                    }
                }
            }
            i += 1;
        }
        let ghost done = self.db();
        let saved = self.save_meta();
        proof {
            lemma_same_tables(self.db(), done);
            assert forall|q: Seq<char>, row: Seq<Val>| #[trigger] present(self, q, row) <==> present(
                old(self),
                q,
                row,
            ) by {
                assert forall|data: Seq<u8>| #[trigger] known_row(self.db(), q, data) == known_row(db, q, data) by {
                    assert(known_row(self.db(), q, data) == known_row(done, q, data));
                    assert(known_row(done, q, data) == known_row(db, q, data));
                }
                lemma_known_vals(db, self.db(), q, row);
                lemma_known_vals(self.db(), db, q, row);
            }
            assert forall|n: nat| old(self).roomy(n) implies #[trigger] self.roomy(n) by {
                old(self).room_for_fewer(n, 0);
                assert forall|q: Seq<char>| #[trigger] ids_needed(self.db(), self.next_ids@, q) + 3 * n
                    <= u64::MAX by {
                    lemma_count_fewer(done, self.db(), Tier::Delta, q, (u64::MAX + 1) as nat);
                    lemma_count_fewer(done, self.db(), Tier::NextDelta, q, (u64::MAX + 1) as nat);
                    assert(ids_needed(done, self.next_ids@, q) <= ids_needed(db, start, q));
                    assert(ids_needed(db, start, q) + 3 * n <= u64::MAX);
                }
            }
            if sure {
                assert(known.take(known.len() as int) =~= known);
                assert forall|q: Seq<char>| named(known, q) implies #[trigger] merged(db, self.db(), q) by {
                    let k = choose|k: int| 0 <= k < known.len() && (#[trigger] known[k])@ == q;
                    assert(merged(db, done, known[k]@));
                }
                assert forall|q: Seq<char>| !named(known, q) implies #[trigger] untouched(db, self.db(), q) by {
                    assert(untouched(db, done, q));
                }
                assert forall|t: Tier, q: Seq<char>, row: Seq<Val>| #[trigger] self.has(t, q, row) <==> merged_has(
                    old(self),
                    t,
                    q,
                    row,
                ) by {
                    if named(known, q) {
                        assert(merged(db, self.db(), q));
                        lemma_merged_vals(db, self.db(), q, row);
                    } else {
                        assert(untouched(db, self.db(), q));
                        lemma_untouched_vals(db, self.db(), t, q, row);
                    }
                }
            }
        }
    }

    fn create_relation(&mut self, relation: &str)
        ensures
            final(self).db().rows == old(self).db().rows,
            final(self).db().entries == old(self).db().entries,
            final(self).db().version == old(self).db().version,
            final(self).tables.reliable() == old(self).tables.reliable(),
            forall|q: Seq<char>| #[trigger]
                named(final(self).relations@, q) <==> named(old(self).relations@, q) || q == relation@,
            forall|q: Seq<char>| #[trigger]
                next_id(final(self).next_ids@, q) == next_id(old(self).next_ids@, q),
            old(self).tables.reliable() && !named(old(self).relations@, relation@) ==> meta_saved(
                final(self).db(),
                final(self).next_ids@,
            ),
    {
        let ghost known = self.relations@;
        if contains_name(&self.relations, relation) {
            return ;
        }
        self.relations.push(own(relation));
        let next = get_next_id(&self.next_ids, relation);
        set_next_id(&mut self.next_ids, relation, next);
        proof {
            let after = self.relations@;
            assert forall|q: Seq<char>| #[trigger] named(after, q) <==> named(known, q) || q == relation@ by {
                if named(after, q) {
                    let k = choose|k: int| 0 <= k < after.len() && (#[trigger] after[k])@ == q;
                    if k < known.len() {
                        assert(known[k]@ == q);
                    }
                }
                if named(known, q) {
                    let k = choose|k: int| 0 <= k < known.len() && (#[trigger] known[k])@ == q;
                    assert(after[k]@ == q);
                }
                assert(after[known.len() as int]@ == relation@);
            }
            assert forall|t: Tier, rel: Seq<char>, id: u64| #[trigger] has_row(self.db(), t, rel, id) implies id
                < next_id(self.next_ids@, rel) by {
                assert(id < next_id(old(self).next_ids@, rel));
            }
        }
        let _saved = self.save_meta();
        proof {
            lemma_same_vals(old(self).db(), self.db());
            lemma_same_tables(self.db(), old(self).db());
            lemma_room_kept(old(self), self);
            if distinct(old(self).db()) {
                lemma_fewer_distinct(old(self).db(), self.db());
            }
        }
    }

    fn retract(&mut self, relation: &str, tuple: &Row) -> (r: Result<bool, StoreError>)
        ensures
            final(self).relations == old(self).relations,
            final(self).next_ids == old(self).next_ids,
            final(self).tables.reliable() == old(self).tables.reliable(),
            final(self).db().version == old(self).db().version,
            r matches Ok(b) ==> b == known_row(old(self).db(), relation@, row_bytes(vals(tuple@))),
            r == Ok::<bool, StoreError>(true) ==> exists|t: Tier, id: u64| #[trigger]
                has_row(old(self).db(), t, relation@, id) && row_at(old(self).db(), t, relation@, id)
                    == row_bytes(vals(tuple@)) && final(self).db().rows == old(self).db().rows.remove(
                    (row_table(t, relation@), id),
                ),
            r != Ok::<bool, StoreError>(true) ==> final(self).db() == old(self).db(),
            distinct(old(self).db()) ==> distinct(final(self).db()),
            r == Ok::<bool, StoreError>(true) && distinct(old(self).db()) ==> !known_row(
                final(self).db(),
                relation@,
                row_bytes(vals(tuple@)),
            ),
            old(self).tables.reliable() ==> r is Ok,
    {
        let ghost db = self.db();
        let ghost data = row_bytes(vals(tuple@));
        confirm_row_storable(tuple);
        let mut r = self.retract_from_tier(Tier::Stable, relation, tuple);
        let mut gone = matches!(r, Ok(true));
        let ghost mut tier = Tier::Stable;
        if matches!(r, Ok(false)) {
            r = self.retract_from_tier(Tier::Delta, relation, tuple);
            gone = matches!(r, Ok(true));
            proof {
                tier = Tier::Delta;
            }
            if matches!(r, Ok(false)) {
                r = self.retract_from_tier(Tier::NextDelta, relation, tuple);
                gone = matches!(r, Ok(true));
                proof {
                    tier = Tier::NextDelta;
                }
            }
        }
        proof {
            if gone && distinct(db) {
                let d = self.db();
                let id = choose|id: u64| #[trigger]
                    has_row(db, tier, relation@, id) && row_at(db, tier, relation@, id) == data && d.rows
                        == db.rows.remove((row_table(tier, relation@), id));
                assert forall|t: Tier| !#[trigger] holds(d, t, relation@, data) by {
                    if holds(d, t, relation@, data) {
                        let i = choose|i: u64| #[trigger]
                            has_row(d, t, relation@, i) && row_at(d, t, relation@, i) == data;
                        assert(has_row(db, t, relation@, i));
                        assert(row_at(db, t, relation@, i) == data);
                        assert(t == tier && i == id);
                    }
                }
            }
            let vs = vals(tuple@);
            lemma_has_vals(db, Tier::Stable, relation@, vs);
            lemma_has_vals(db, Tier::Delta, relation@, vs);
            lemma_has_vals(db, Tier::NextDelta, relation@, vs);
            lemma_has_vals(self.db(), Tier::Stable, relation@, vs);
            lemma_has_vals(self.db(), Tier::Delta, relation@, vs);
            lemma_has_vals(self.db(), Tier::NextDelta, relation@, vs);
            lemma_held_somewhere(db, relation@, data);
            lemma_held_somewhere(self.db(), relation@, data);
            lemma_room_kept(old(self), self);
            if gone {
                row_round_trips(vs);
                let id = choose|id: u64| #[trigger]
                    has_row(db, tier, relation@, id) && row_at(db, tier, relation@, id) == data && self.db().rows
                        == db.rows.remove((row_table(tier, relation@), id));
                lemma_row_removed(db, self.db(), tier, relation@, id);
            }
        }
        r
    }

    fn clear(&mut self, relation: &str)
        ensures
            final(self).relations == old(self).relations,
            final(self).next_ids == old(self).next_ids,
            final(self).tables.reliable() == old(self).tables.reliable(),
            final(self).db().version == old(self).db().version,
            distinct(old(self).db()) ==> distinct(final(self).db()),
            old(self).tables.reliable() ==> {
                &&& forall|t: Tier, id: u64| !#[trigger] has_row(final(self).db(), t, relation@, id)
                &&& forall|t: Tier, q: Seq<char>, id: u64|
                    q != relation@ ==> (#[trigger] has_row(final(self).db(), t, q, id) == has_row(
                        old(self).db(),
                        t,
                        q,
                        id,
                    ))
                &&& forall|t: Tier, q: Seq<char>, id: u64| #[trigger]
                    has_row(final(self).db(), t, q, id) ==> row_at(final(self).db(), t, q, id) == row_at(
                        old(self).db(),
                        t,
                        q,
                        id,
                    )
            },
    {
        let ghost db = self.db();
        let _stable = self.drop_tier_tables(Tier::Stable, relation);
        let ghost one = self.db();
        let _delta = self.drop_tier_tables(Tier::Delta, relation);
        let ghost two = self.db();
        let _next = self.drop_tier_tables(Tier::NextDelta, relation);
        proof {
            let d = self.db();
            if self.tables.reliable() {
                lemma_cleared(db, one, two, d, relation@);
                lemma_room_kept(old(self), self);
                assert forall|t: Tier, q: Seq<char>, id: u64| q != relation@ implies (#[trigger] has_row(
                    d,
                    t,
                    q,
                    id,
                ) == has_row(db, t, q, id)) && (has_row(d, t, q, id) ==> row_at(d, t, q, id) == row_at(
                    db,
                    t,
                    q,
                    id,
                )) by {
                    assert(has_row(d, t, q, id) == has_row(two, t, q, id));
                    assert(has_row(two, t, q, id) == has_row(one, t, q, id));
                    assert(has_row(one, t, q, id) == has_row(db, t, q, id));
                }
                assert forall|t: Tier, id: u64| !#[trigger] has_row(d, t, relation@, id) by {
                    assert(t == Tier::Stable || t == Tier::Delta || t == Tier::NextDelta);
                    if t != Tier::NextDelta {
                        assert(has_row(d, t, relation@, id) == has_row(two, t, relation@, id));
                        if t != Tier::Delta {
                            assert(has_row(two, t, relation@, id) == has_row(one, t, relation@, id));
                        }
                    }
                }
                assert forall|t: Tier, q: Seq<char>, row: Seq<Val>| #[trigger] self.has(t, q, row) <==> (has_vals(db, t, q, row)
                    && q != relation@) by {
                    if has_vals(d, t, q, row) {
                        let i = choose|i: u64| #[trigger]
                            has_row(d, t, q, i) && decoded(row_at(d, t, q, i)) == row;
                        assert(has_row(db, t, q, i) && decoded(row_at(db, t, q, i)) == row);
                    }
                    if has_vals(db, t, q, row) && q != relation@ {
                        let i = choose|i: u64| #[trigger]
                            has_row(db, t, q, i) && decoded(row_at(db, t, q, i)) == row;
                        assert(has_row(d, t, q, i));
                        assert(row_at(d, t, q, i) == row_at(db, t, q, i));
                    }
                }
            }
        }
    }

    fn relation_names(&self) -> (r: Vec<String>)
        ensures
            r@.len() == self.relations@.len(),
            forall|i: int| 0 <= i < r@.len() ==> (#[trigger] r@[i])@ == self.relations@[i]@,
    {
        let mut r: Vec<String> = Vec::new();
        let mut i: usize = 0;
        while i < self.relations.len()
            invariant
                i <= self.relations@.len(),
                r@.len() == i,
                forall|j: int| 0 <= j < i ==> (#[trigger] r@[j])@ == self.relations@[j]@,
            decreases self.relations@.len() - i,
        {
            r.push(own(self.relations[i].as_str()));
            i += 1;
        }
        assert forall|q: Seq<char>| #[trigger] named(r@, q) <==> self.knows(q) by {
            if named(r@, q) {
                let k = choose|k: int| 0 <= k < r@.len() && (#[trigger] r@[k])@ == q;
                assert(self.relations@[k]@ == q);
            }
            if named(self.relations@, q) {
                let k = choose|k: int| 0 <= k < self.relations@.len() && (#[trigger] self.relations@[k])@ == q;
                assert(r@[k]@ == q);
            }
        }
        r
    }
}

proof fn lemma_merged_after(db: Db, mid: Db, d: Db, rel: Seq<char>)
    requires
        untouched(db, mid, rel),
        merged(mid, d, rel),
    ensures
        merged(db, d, rel),
{
    assert forall|data: Seq<u8>| #[trigger] holds(d, Tier::Stable, rel, data) <==> holds(
        db,
        Tier::Stable,
        rel,
        data,
    ) || holds(db, Tier::Delta, rel, data) by {
        assert(holds(mid, Tier::Stable, rel, data) == holds(db, Tier::Stable, rel, data));
        assert(holds(mid, Tier::Delta, rel, data) == holds(db, Tier::Delta, rel, data));
    }
    assert forall|data: Seq<u8>| #[trigger] holds(d, Tier::Delta, rel, data) <==> holds(
        db,
        Tier::NextDelta,
        rel,
        data,
    ) by {
        assert(holds(mid, Tier::NextDelta, rel, data) == holds(db, Tier::NextDelta, rel, data));
    }
}

proof fn lemma_merged_before(db: Db, mid: Db, d: Db, rel: Seq<char>)
    requires
        merged(db, mid, rel),
        untouched(mid, d, rel),
    ensures
        merged(db, d, rel),
{
    assert forall|data: Seq<u8>| #[trigger] holds(d, Tier::Stable, rel, data) <==> holds(
        db,
        Tier::Stable,
        rel,
        data,
    ) || holds(db, Tier::Delta, rel, data) by {
        assert(holds(d, Tier::Stable, rel, data) == holds(mid, Tier::Stable, rel, data));
    }
    assert forall|data: Seq<u8>| #[trigger] holds(d, Tier::Delta, rel, data) <==> holds(
        db,
        Tier::NextDelta,
        rel,
        data,
    ) by {
        assert(holds(d, Tier::Delta, rel, data) == holds(mid, Tier::Delta, rel, data));
    }
    assert forall|data: Seq<u8>| !#[trigger] holds(d, Tier::NextDelta, rel, data) by {
        assert(holds(d, Tier::NextDelta, rel, data) == holds(mid, Tier::NextDelta, rel, data));
    }
}

/// An index finds the rows that a filter over all rows finds: those with the value in the
/// column.
pub proof fn index_agrees_with_scan(
    db: Db,
    t: Tier,
    rel: Seq<char>,
    col: nat,
    key: Val,
    all: Seq<u64>,
    found: Seq<u64>,
)
    requires
        db_ok(db),
        storable(key),
        listing(db, t, rel, all),
        matching(db, t, rel, col, key, found),
    ensures
        forall|id: u64| #[trigger]
            found.contains(id) <==> all.contains(id) && has_at(decoded(row_at(db, t, rel, id)), col, key),
{
    assert forall|id: u64| #[trigger]
        found.contains(id) <==> all.contains(id) && has_at(decoded(row_at(db, t, rel, id)), col, key) by {
        assert(has_cell(db, t, rel, col, value_bytes(key), id) <==> found.contains(id));
        assert(has_row(db, t, rel, id) <==> all.contains(id));
        if has_cell(db, t, rel, col, value_bytes(key), id) {
            lemma_cell(db, t, rel, col, key, id);
        }
    }
}

/// Of numbers in order, those that an index finds give the rows that a filter keeps.
proof fn lemma_filtered(
    db: Db,
    t: Tier,
    rel: Seq<char>,
    col: nat,
    key: Val,
    all: Seq<u64>,
    found: Seq<u64>,
)
    requires
        ascending_ids(all),
        ascending_ids(found),
        forall|id: u64| #[trigger]
            found.contains(id) <==> all.contains(id) && has_at(decoded(row_at(db, t, rel, id)), col, key),
    ensures
        rows_at(db, t, rel, found) == rows_at(db, t, rel, all).filter(
            |row: Seq<Val>| has_at(row, col, key),
        ),
    decreases all.len(),
{
    reveal(Seq::filter);
    let keep = |row: Seq<Val>| has_at(row, col, key);
    let rows = rows_at(db, t, rel, all);
    if all.len() == 0 {
        if found.len() > 0 {
            assert(found.contains(found[0]));
        }
        assert(rows_at(db, t, rel, found) =~= rows.filter(keep));
    } else {
        let last = all.last();
        let rest = all.drop_last();
        assert(rows.drop_last() =~= rows_at(db, t, rel, rest));
        assert(rows.last() == decoded(row_at(db, t, rel, last)));
        assert forall|id: u64| #[trigger] rest.contains(id) <==> all.contains(id) && id != last by {
            if all.contains(id) && id != last {
                let i = all.index_of(id);
                assert(rest[i] == id);
            }
            if rest.contains(id) {
                let i = rest.index_of(id);
                assert(all[i] == id);
                assert(all[i] < all[all.len() - 1]);
            }
        }
        if keep(rows.last()) {
            assert(all.contains(last));
            assert(found.contains(last));
            let j = found.index_of(last);
            if j < found.len() - 1 {
                assert(found[j] < found[found.len() - 1]);
                assert(found.contains(found.last()));
                assert(all.contains(found.last()));
                let i = all.index_of(found.last());
                assert(false);
            }
            let fewer = found.drop_last();
            assert forall|id: u64| #[trigger]
                fewer.contains(id) <==> rest.contains(id) && has_at(decoded(row_at(db, t, rel, id)), col, key) by {
                if fewer.contains(id) {
                    let i = fewer.index_of(id);
                    assert(found[i] == id);
                    assert(found[i] < found[found.len() - 1]);
                    assert(found.contains(id));
                }
                if rest.contains(id) && has_at(decoded(row_at(db, t, rel, id)), col, key) {
                    assert(found.contains(id));
                    let i = found.index_of(id);
                    assert(fewer[i] == id);
                }
            }
            lemma_filtered(db, t, rel, col, key, rest, fewer);
            assert(rows_at(db, t, rel, found) =~= rows_at(db, t, rel, fewer).push(rows.last()));
        } else {
            assert forall|id: u64| #[trigger]
                found.contains(id) <==> rest.contains(id) && has_at(decoded(row_at(db, t, rel, id)), col, key) by {
            }
            lemma_filtered(db, t, rel, col, key, rest, found);
        }
    }
}

/// An index lists just the rows that a scan lists and a filter on the column keeps, each as
/// often and in the same order.
pub proof fn an_index_lists_what_a_filter_keeps(
    db: Db,
    t: Tier,
    rel: Seq<char>,
    col: nat,
    key: Val,
    all: Seq<Seq<Val>>,
    found: Seq<Seq<Val>>,
)
    requires
        db_ok(db),
        storable(key),
        lists_tier(db, t, rel, all),
        lists_matching(db, t, rel, col, key, found),
    ensures
        found == all.filter(|row: Seq<Val>| has_at(row, col, key)),
        found.to_multiset() == all.to_multiset().filter(|row: Seq<Val>| has_at(row, col, key)),
{
    let keep = |row: Seq<Val>| has_at(row, col, key);
    let a = choose|ids: Seq<u64>| #[trigger] listing(db, t, rel, ids) && all == rows_at(db, t, rel, ids);
    let b = choose|ids: Seq<u64>| #[trigger]
        matching(db, t, rel, col, key, ids) && found == rows_at(db, t, rel, ids);
    index_agrees_with_scan(db, t, rel, col, key, a, b);
    lemma_filtered(db, t, rel, col, key, a, b);
    lemma_filter_multiset(all, keep);
}

/// A filter keeps what it keeps, each as often as it was there.
proof fn lemma_filter_multiset(rows: Seq<Seq<Val>>, keep: spec_fn(Seq<Val>) -> bool)
    ensures
        rows.filter(keep).to_multiset() == rows.to_multiset().filter(keep),
    decreases rows.len(),
{
    broadcast use vstd::seq_lib::group_to_multiset_ensures;

    reveal(Seq::filter);
    if rows.len() == 0 {
        assert(rows.to_multiset() =~= vstd::multiset::Multiset::empty());
        assert(rows.filter(keep).to_multiset() =~= rows.to_multiset().filter(keep));
    } else {
        let rest = rows.drop_last();
        lemma_filter_multiset(rest, keep);
        assert(rows =~= rest.push(rows.last()));
        assert(rows.to_multiset() =~= rest.to_multiset().insert(rows.last()));
        assert(rows.filter(keep).to_multiset() =~= rows.to_multiset().filter(keep));
    }
}

/// The number of the next row of a relation that the tables record.
pub open spec fn recorded_next(db: Db, rel: Seq<char>) -> u64 {
    if db.meta.contains_key(rel) {
        db.meta[rel]
    } else {
        0
    }
}

/// The tables of a valid store open again, where they do not fail, and the store that opens is
/// valid and has the same rows in every tier. It knows the relations that the tables record,
/// and goes on with the numbers that they record.
pub proof fn a_store_opens_again<T: Tables>(s: &DiskStore<T>, r: Result<DiskStore<T>, StoreError>)
    requires
        s.wf(),
        opens(s.tables, r),
    ensures
        s.tables.reliable() ==> r is Ok,
        r matches Ok(o) ==> {
            &&& o.wf()
            &&& o.db() == s.db()
            &&& o.tables.reliable() == s.tables.reliable()
            &&& forall|t: Tier, q: Seq<char>, row: Seq<Val>| #[trigger] o.has(t, q, row) == s.has(t, q, row)
            &&& forall|q: Seq<char>| #[trigger] o.knows(q) <==> s.db().meta.contains_key(q)
            &&& forall|q: Seq<char>| #[trigger] next_id(o.next_ids@, q) == recorded_next(s.db(), q)
        },
{
    if let Ok(o) = r {
        let db = s.db();
        assert(o.db() =~= db);
        let meta = o.next_ids@;
        assert forall|q: Seq<char>| #[trigger] o.knows(q) <==> db.meta.contains_key(q) by {
            if o.knows(q) {
                let i = choose|i: int| 0 <= i < o.relations@.len() && (#[trigger] o.relations@[i])@ == q;
                assert(db.meta.contains_pair(meta[i].0@, meta[i].1));
            }
            if db.meta.contains_key(q) {
                let k = choose|k: int| 0 <= k < meta.len() && meta[k].0@ == q;
                assert(o.relations@[k]@ == q);
            }
        }
        assert forall|q: Seq<char>| #[trigger] next_id(meta, q) == recorded_next(db, q) by {
            if db.meta.contains_key(q) {
                let k = choose|k: int| 0 <= k < meta.len() && meta[k].0@ == q;
                assert(db.meta.contains_pair(meta[k].0@, meta[k].1));
                lemma_next_id(meta, k);
            } else if records(meta, q) {
                let k = choose|k: int| 0 <= k < meta.len() && (#[trigger] meta[k]).0@ == q;
                assert(db.meta.contains_pair(meta[k].0@, meta[k].1));
            }
        }
    }
}

/// Whether adding a row left these tables: those of `DiskStore::insert`.
pub open spec fn row_written<T: Tables>(before: &DiskStore<T>, rel: Seq<char>, row: Seq<Val>, after: &DiskStore<T>) -> bool {
    &&& next_id(before.next_ids@, rel) < u64::MAX
    &&& after.db().meta == before.db().meta.insert(rel, (next_id(before.next_ids@, rel) + 1) as u64)
    &&& after.db().rows == before.db().rows.insert(
        (row_table(Tier::NextDelta, rel), next_id(before.next_ids@, rel)),
        row_bytes(row),
    )
}

/// A row that was written is still there when the store is opened again without a merge, the
/// relation is known, and the next row gets the next number, so that no row takes its place.
pub proof fn a_row_survives_reopening<T: Tables>(
    before: &DiskStore<T>,
    rel: Seq<char>,
    row: Seq<Val>,
    after: &DiskStore<T>,
    opened: &DiskStore<T>,
)
    requires
        before.wf(),
        row.len() <= usize::MAX,
        all_storable(row, row.len()),
        row_written(before, rel, row, after),
        after.wf(),
        opens(after.tables, Ok(*opened)),
    ensures
        opened.has(Tier::NextDelta, rel, row),
        opened.knows(rel),
        next_id(opened.next_ids@, rel) == next_id(before.next_ids@, rel) + 1,
{
    a_store_opens_again(after, Ok(*opened));
    let id = next_id(before.next_ids@, rel);
    row_round_trips(row);
    assert(has_row(after.db(), Tier::NextDelta, rel, id));
    assert(row_at(after.db(), Tier::NextDelta, rel, id) == row_bytes(row));
    assert(after.has(Tier::NextDelta, rel, row));
    assert(opened.has(Tier::NextDelta, rel, row) == after.has(Tier::NextDelta, rel, row));
}

} // verus!
