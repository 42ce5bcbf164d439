//! Tables that a store keeps its rows and indices in.
use vstd::prelude::*;

verus! {

/// What tables hold. A row is known by its table and number, an index entry by its table,
/// key and row number. Relations have the number of their next row recorded, and the
/// database the version of its format.
#[verifier::ext_equal]
pub struct Db {
    pub rows: Map<(Seq<char>, u64), Seq<u8>>,
    pub entries: Set<(Seq<char>, Seq<u8>, u64)>,
    pub meta: Map<Seq<char>, u64>,
    pub version: Option<u64>,
}

/// A change to tables.
#[derive(Debug)]
pub enum Write {
    PutRow { table: String, id: u64, data: Vec<u8> },
    RemoveRow { table: String, id: u64 },
    PutEntry { table: String, key: Vec<u8>, id: u64 },
    RemoveEntry { table: String, key: Vec<u8>, id: u64 },
    DropRows { table: String },
    DropEntries { table: String },
    PutMeta { relation: String, next_id: u64 },
    PutVersion { version: u64 },
}

/// The model of a [`Write`].
pub enum Change {
    PutRow { table: Seq<char>, id: u64, data: Seq<u8> },
    RemoveRow { table: Seq<char>, id: u64 },
    PutEntry { table: Seq<char>, key: Seq<u8>, id: u64 },
    RemoveEntry { table: Seq<char>, key: Seq<u8>, id: u64 },
    DropRows { table: Seq<char> },
    DropEntries { table: Seq<char> },
    PutMeta { relation: Seq<char>, next_id: u64 },
    PutVersion { version: u64 },
}

impl View for Write {
    type V = Change;

    open spec fn view(&self) -> Change {
        match self {
            Write::PutRow { table, id, data } => Change::PutRow { table: table@, id: *id, data: data@ },
            Write::RemoveRow { table, id } => Change::RemoveRow { table: table@, id: *id },
            Write::PutEntry { table, key, id } => Change::PutEntry {
                table: table@,
                key: key@,
                id: *id,
            },
            Write::RemoveEntry { table, key, id } => Change::RemoveEntry {
                table: table@,
                key: key@,
                id: *id,
            },
            Write::DropRows { table } => Change::DropRows { table: table@ },
            Write::DropEntries { table } => Change::DropEntries { table: table@ },
            Write::PutMeta { relation, next_id } => Change::PutMeta {
                relation: relation@,
                next_id: *next_id,
            },
            Write::PutVersion { version } => Change::PutVersion { version: *version },
        }
    }
}

/// The models of writes.
pub open spec fn changes(ws: Seq<Write>) -> Seq<Change> {
    Seq::new(ws.len(), |i: int| ws[i]@)
}

/// The tables after a change.
pub open spec fn changed(db: Db, c: Change) -> Db {
    match c {
        Change::PutRow { table, id, data } => Db { rows: db.rows.insert((table, id), data), ..db },
        Change::RemoveRow { table, id } => Db { rows: db.rows.remove((table, id)), ..db },
        Change::PutEntry { table, key, id } => Db { entries: db.entries.insert((table, key, id)), ..db },
        Change::RemoveEntry { table, key, id } => Db {
            entries: db.entries.remove((table, key, id)),
            ..db
        },
        Change::DropRows { table } => Db {
            rows: db.rows.restrict(db.rows.dom().filter(|k: (Seq<char>, u64)| k.0 != table)),
            ..db
        },
        Change::DropEntries { table } => Db {
            entries: db.entries.filter(|e: (Seq<char>, Seq<u8>, u64)| e.0 != table),
            ..db
        },
        Change::PutMeta { relation, next_id } => Db { meta: db.meta.insert(relation, next_id), ..db },
        Change::PutVersion { version } => Db { version: Some(version), ..db },
    }
}

/// The tables after the first `n` changes.
pub open spec fn all_changed(db: Db, cs: Seq<Change>, n: nat) -> Db
    decreases n,
{
    if n == 0 {
        db
    } else {
        changed(all_changed(db, cs, (n - 1) as nat), cs[n - 1])
    }
}

/// Why an operation on tables failed.
#[derive(Debug)]
pub enum StoreError {
    /// Reading or writing failed, with what is known about it.
    Tables(String),
    /// A row cannot be read, with what is known about it.
    Decode(String),
    /// The format of the database is not the current one.
    Version(u64),
    /// The database was written before formats had versions.
    Legacy,
    /// A relation has no more row numbers.
    Exhausted,
    /// A relation is not known.
    NoRelation,
}

/// Row numbers in ascending order, none twice.
pub open spec fn ascending_ids(ids: Seq<u64>) -> bool {
    forall|i: int, j: int| 0 <= i < j < ids.len() ==> ids[i] < ids[j]
}

/// The numbers of rows.
pub open spec fn ids_of(rows: Seq<(u64, Vec<u8>)>) -> Seq<u64> {
    Seq::new(rows.len(), |i: int| rows[i].0)
}

/// Whether `rows` are all rows of a table, in the order of their numbers.
pub open spec fn lists_rows(db: Db, table: Seq<char>, rows: Seq<(u64, Vec<u8>)>) -> bool {
    &&& ascending_ids(ids_of(rows))
    &&& forall|i: int|
        0 <= i < rows.len() ==> db.rows.contains_pair((table, (#[trigger] rows[i]).0), rows[i].1@)
    &&& forall|id: u64| #[trigger]
        db.rows.contains_key((table, id)) ==> exists|i: int| 0 <= i < rows.len() && rows[i].0 == id
}

/// Whether `ids` are all row numbers under a key of an index, in order.
pub open spec fn lists_entries(db: Db, table: Seq<char>, key: Seq<u8>, ids: Seq<u64>) -> bool {
    &&& ascending_ids(ids)
    &&& forall|id: u64| #[trigger] db.entries.contains((table, key, id)) <==> ids.contains(id)
}

/// Whether `meta` is what is recorded of relations, each once.
pub open spec fn lists_meta(db: Db, meta: Seq<(String, u64)>) -> bool {
    &&& forall|i: int, j: int| 0 <= i < j < meta.len() ==> meta[i].0@ != meta[j].0@
    &&& forall|i: int| 0 <= i < meta.len() ==> db.meta.contains_pair((#[trigger] meta[i]).0@, meta[i].1)
    &&& forall|name: Seq<char>| #[trigger]
        db.meta.contains_key(name) ==> exists|i: int| 0 <= i < meta.len() && meta[i].0@ == name
}

/// Whether a name is in the list.
pub open spec fn lists_name(names: Seq<String>, name: Seq<char>) -> bool {
    exists|i: int| 0 <= i < names.len() && (#[trigger] names[i])@ == name
}

/// Whether every table with an index entry is in the list.
pub open spec fn lists_tables(db: Db, names: Seq<String>) -> bool {
    forall|t: Seq<char>, key: Seq<u8>, id: u64| #[trigger]
        db.entries.contains((t, key, id)) ==> lists_name(names, t)
}

/// Tables of rows and index entries. A table that was not written to is empty.
pub trait Tables: Sized {
    /// What the tables hold.
    spec fn contents(&self) -> Db;

    /// The invariant of the tables.
    spec fn wf(&self) -> bool;

    /// Whether no operation can fail.
    spec fn reliable(&self) -> bool;

    /// The version of the format, if one is recorded.
    fn version(&self) -> (r: Result<Option<u64>, StoreError>)
        requires
            self.wf(),
        ensures
            r matches Ok(v) ==> v == self.contents().version,
            self.reliable() ==> r is Ok,
    ;

    /// What is recorded of relations.
    fn meta(&self) -> (r: Result<Vec<(String, u64)>, StoreError>)
        requires
            self.wf(),
        ensures
            r matches Ok(v) ==> lists_meta(self.contents(), v@),
            self.reliable() ==> r is Ok,
    ;

    /// All rows of a table, in the order of their numbers.
    fn rows(&self, table: &str) -> (r: Result<Vec<(u64, Vec<u8>)>, StoreError>)
        requires
            self.wf(),
        ensures
            r matches Ok(v) ==> lists_rows(self.contents(), table@, v@),
            self.reliable() ==> r is Ok,
    ;

    /// A row of a table.
    fn row(&self, table: &str, id: u64) -> (r: Result<Option<Vec<u8>>, StoreError>)
        requires
            self.wf(),
        ensures
            r matches Ok(v) ==> match v {
                Some(data) => self.contents().rows.contains_pair((table@, id), data@),
                None => !self.contents().rows.contains_key((table@, id)),
            },
            self.reliable() ==> r is Ok,
    ;

    /// The row numbers under a key of an index, in order.
    fn entries(&self, table: &str, key: &Vec<u8>) -> (r: Result<Vec<u64>, StoreError>)
        requires
            self.wf(),
        ensures
            r matches Ok(v) ==> lists_entries(self.contents(), table@, key@, v@),
            self.reliable() ==> r is Ok,
    ;

    /// The names of all tables of index entries that are not empty, and maybe others.
    fn entry_tables(&self) -> (r: Result<Vec<String>, StoreError>)
        requires
            self.wf(),
        ensures
            r matches Ok(v) ==> lists_tables(self.contents(), v@),
            self.reliable() ==> r is Ok,
    ;

    /// Makes changes, all of them or none.
    fn commit(&mut self, writes: &Vec<Write>) -> (r: Result<(), StoreError>)
        requires
            old(self).wf(),
        ensures
            final(self).wf(),
            final(self).reliable() == old(self).reliable(),
            r is Ok ==> final(self).contents() == all_changed(
                old(self).contents(),
                changes(writes@),
                writes@.len(),
            ),
            r is Err ==> final(self).contents() == old(self).contents(),
            old(self).reliable() ==> r is Ok,
    ;
}

} // verus!
