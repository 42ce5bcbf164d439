//! What a store keeps in its tables: the rows of relations in tiers, and an index of every
//! column.
use vstd::prelude::*;

use crate::codec::{all_storable, row_bytes, taken_row, value_bytes};
use crate::disk_names::{
    index_name, index_prefix, index_tables_are_distinct, lemma_decimal_plain, lemma_index_prefix,
    primary_name, row_tables_are_distinct, tier_text, Tier,
};
use crate::tables::{all_changed, changed, Change, Db};
use crate::text::decimal;
use crate::value::Val;

verus! {

/// The table of the rows of a relation in a tier.
pub open spec fn row_table(t: Tier, rel: Seq<char>) -> Seq<char> {
    primary_name(tier_text(t), rel)
}

/// The table of the index of a column.
pub open spec fn key_table(t: Tier, rel: Seq<char>, col: nat) -> Seq<char> {
    index_name(tier_text(t), rel, col)
}

/// Whether bytes are those of a row that memory can hold.
pub open spec fn row_ok(data: Seq<u8>) -> bool {
    taken_row(data) matches Some(vs) && row_bytes(vs) == data && all_storable(vs, vs.len())
}

/// The row that bytes hold.
pub open spec fn decoded(data: Seq<u8>) -> Seq<Val> {
    match taken_row(data) {
        Some(vs) => vs,
        None => Seq::empty(),
    }
}

/// Whether a row is in a relation, in a tier, under a number.
pub open spec fn has_row(db: Db, t: Tier, rel: Seq<char>, id: u64) -> bool {
    db.rows.contains_key((row_table(t, rel), id))
}

/// The bytes of a row.
pub open spec fn row_at(db: Db, t: Tier, rel: Seq<char>, id: u64) -> Seq<u8> {
    db.rows[(row_table(t, rel), id)]
}

/// Whether the index of a column has an entry.
pub open spec fn has_entry(db: Db, t: Tier, rel: Seq<char>, col: nat, key: Seq<u8>, id: u64) -> bool {
    db.entries.contains((key_table(t, rel, col), key, id))
}

/// Whether a row has a value with these bytes in a column.
pub open spec fn has_cell(db: Db, t: Tier, rel: Seq<char>, col: nat, key: Seq<u8>, id: u64) -> bool {
    &&& has_row(db, t, rel, id)
    &&& col < decoded(row_at(db, t, rel, id)).len()
    &&& value_bytes(decoded(row_at(db, t, rel, id))[col as int]) == key
}

/// Every row can be read, and the index of every column has an entry for every row, and no
/// other.
pub open spec fn db_ok(db: Db) -> bool {
    &&& forall|t: Tier, rel: Seq<char>, id: u64| #[trigger]
        has_row(db, t, rel, id) ==> row_ok(row_at(db, t, rel, id))
    &&& forall|t: Tier, rel: Seq<char>, col: nat, key: Seq<u8>, id: u64| #[trigger]
        has_entry(db, t, rel, col, key, id) <==> has_cell(db, t, rel, col, key, id)
}

/// Whether a row with these bytes is in a relation, in a tier.
pub open spec fn holds(db: Db, t: Tier, rel: Seq<char>, data: Seq<u8>) -> bool {
    exists|id: u64| #[trigger] has_row(db, t, rel, id) && row_at(db, t, rel, id) == data
}

/// The changes that add a row: the row, and an entry in the index of every column.
pub open spec fn row_changes(t: Tier, rel: Seq<char>, id: u64, vs: Seq<Val>) -> Seq<Change> {
    seq![Change::PutRow { table: row_table(t, rel), id, data: row_bytes(vs) }] + Seq::new(
        vs.len(),
        |c: int|
            Change::PutEntry { table: key_table(t, rel, c as nat), key: value_bytes(vs[c]), id },
    )
}

/// The changes that remove a row and its index entries.
pub open spec fn row_removal(t: Tier, rel: Seq<char>, id: u64, vs: Seq<Val>) -> Seq<Change> {
    seq![Change::RemoveRow { table: row_table(t, rel), id }] + Seq::new(
        vs.len(),
        |c: int|
            Change::RemoveEntry { table: key_table(t, rel, c as nat), key: value_bytes(vs[c]), id },
    )
}

/// Changes after others.
pub proof fn lemma_changed_after(db: Db, a: Seq<Change>, b: Seq<Change>, n: nat)
    requires
        n <= b.len(),
    ensures
        all_changed(db, a + b, a.len() + n) == all_changed(all_changed(db, a, a.len()), b, n),
    decreases n,
{
    if n == 0 {
        lemma_changed_prefix(db, a, b, a.len());
    } else {
        lemma_changed_after(db, a, b, (n - 1) as nat);
        assert((a + b)[a.len() + n - 1] == b[n - 1]);
    }
}

proof fn lemma_changed_prefix(db: Db, a: Seq<Change>, b: Seq<Change>, n: nat)
    requires
        n <= a.len(),
    ensures
        all_changed(db, a + b, n) == all_changed(db, a, n),
    decreases n,
{
    if n > 0 {
        lemma_changed_prefix(db, a, b, (n - 1) as nat);
        assert((a + b)[n - 1] == a[n - 1]);
    }
}

/// Whether an index entry is one of the first `n` of a row.
spec fn new_entry(t: Tier, rel: Seq<char>, id: u64, vs: Seq<Val>, n: int, e: (Seq<char>, Seq<u8>, u64)) -> bool {
    exists|c: int|
        0 <= c < n && e == (#[trigger] key_table(t, rel, c as nat), value_bytes(vs[c]), id)
}

proof fn lemma_row_put(db: Db, t: Tier, rel: Seq<char>, id: u64, vs: Seq<Val>, n: nat)
    requires
        n <= vs.len(),
    ensures
        ({
            let d = all_changed(db, row_changes(t, rel, id, vs), n + 1);
            &&& d.rows == db.rows.insert((row_table(t, rel), id), row_bytes(vs))
            &&& d.meta == db.meta
            &&& d.version == db.version
            &&& forall|e: (Seq<char>, Seq<u8>, u64)| #[trigger]
                d.entries.contains(e) <==> db.entries.contains(e) || new_entry(t, rel, id, vs, n as int, e)
        }),
    decreases n,
{
    let cs = row_changes(t, rel, id, vs);
    let d = all_changed(db, cs, n + 1);
    if n == 0 {
        assert(all_changed(db, cs, 0) == db);
        assert(cs[0] == (Change::PutRow { table: row_table(t, rel), id, data: row_bytes(vs) }));
    } else {
        lemma_row_put(db, t, rel, id, vs, (n - 1) as nat);
        let before = all_changed(db, cs, n);
        let c = n - 1;
        let added = (key_table(t, rel, c as nat), value_bytes(vs[c]), id);
        assert(cs[n as int] == (Change::PutEntry {
            table: key_table(t, rel, c as nat),
            key: value_bytes(vs[c]),
            id,
        }));
        assert forall|e: (Seq<char>, Seq<u8>, u64)| #[trigger]
            d.entries.contains(e) <==> db.entries.contains(e) || new_entry(t, rel, id, vs, n as int, e) by {
            if new_entry(t, rel, id, vs, n as int, e) {
                let k = choose|k: int|
                    0 <= k < n && e == (#[trigger] key_table(t, rel, k as nat), value_bytes(vs[k]), id);
                if k < n - 1 {
                    assert(new_entry(t, rel, id, vs, n - 1, e));
                }
            }
            if new_entry(t, rel, id, vs, n - 1, e) {
                let k = choose|k: int|
                    0 <= k < n - 1 && e == (#[trigger] key_table(t, rel, k as nat), value_bytes(vs[k]), id);
                assert(new_entry(t, rel, id, vs, n as int, e));
            }
            if e == added {
                assert(new_entry(t, rel, id, vs, n as int, e));
            }
        }
    }
}

/// A row added under a new number, with its index entries, keeps the tables in order.
pub proof fn adding_a_row_keeps_indices(db: Db, t: Tier, rel: Seq<char>, id: u64, vs: Seq<Val>)
    requires
        db_ok(db),
        !has_row(db, t, rel, id),
        taken_row(row_bytes(vs)) == Some(vs),
        all_storable(vs, vs.len()),
    ensures
        ({
            let d = all_changed(db, row_changes(t, rel, id, vs), vs.len() + 1);
            &&& db_ok(d)
            &&& d.rows == db.rows.insert((row_table(t, rel), id), row_bytes(vs))
            &&& d.meta == db.meta
            &&& d.version == db.version
        }),
{
    let d = all_changed(db, row_changes(t, rel, id, vs), vs.len() + 1);
    lemma_row_put(db, t, rel, id, vs, vs.len());
    assert forall|u: Tier, q: Seq<char>, i: u64| #[trigger] has_row(d, u, q, i) implies row_ok(
        row_at(d, u, q, i),
    ) by {
        if (row_table(u, q), i) != (row_table(t, rel), id) {
            assert(has_row(db, u, q, i));
        }
    }
    assert forall|u: Tier, q: Seq<char>, col: nat, key: Seq<u8>, i: u64| #[trigger]
        has_entry(d, u, q, col, key, i) <==> has_cell(d, u, q, col, key, i) by {
        let e = (key_table(u, q, col), key, i);
        assert(has_entry(db, u, q, col, key, i) <==> has_cell(db, u, q, col, key, i));
        if row_table(u, q) == row_table(t, rel) {
            row_tables_are_distinct(u, q, t, rel);
        }
        if new_entry(t, rel, id, vs, vs.len() as int, e) {
            let c = choose|c: int|
                0 <= c < vs.len() && e == (#[trigger] key_table(t, rel, c as nat), value_bytes(vs[c]), id);
            index_tables_are_distinct(u, q, col, t, rel, c as nat);
        }
        if u == t && q == rel && i == id {
            if has_cell(d, u, q, col, key, i) {
                let c = col as int;
                assert(0 <= c < vs.len() && e == (key_table(t, rel, c as nat), value_bytes(vs[c]), id));
                assert(new_entry(t, rel, id, vs, vs.len() as int, e));
            }
        } else {
            assert(has_row(d, u, q, i) == has_row(db, u, q, i));
            assert(has_cell(d, u, q, col, key, i) == has_cell(db, u, q, col, key, i));
        }
    }
}

proof fn lemma_row_removed(db: Db, t: Tier, rel: Seq<char>, id: u64, vs: Seq<Val>, n: nat)
    requires
        n <= vs.len(),
    ensures
        ({
            let d = all_changed(db, row_removal(t, rel, id, vs), n + 1);
            &&& d.rows == db.rows.remove((row_table(t, rel), id))
            &&& d.meta == db.meta
            &&& d.version == db.version
            &&& forall|e: (Seq<char>, Seq<u8>, u64)| #[trigger]
                d.entries.contains(e) <==> db.entries.contains(e) && !new_entry(t, rel, id, vs, n as int, e)
        }),
    decreases n,
{
    let cs = row_removal(t, rel, id, vs);
    let d = all_changed(db, cs, n + 1);
    if n == 0 {
        assert(all_changed(db, cs, 0) == db);
        assert(cs[0] == (Change::RemoveRow { table: row_table(t, rel), id }));
    } else {
        lemma_row_removed(db, t, rel, id, vs, (n - 1) as nat);
        let c = n - 1;
        let gone = (key_table(t, rel, c as nat), value_bytes(vs[c]), id);
        assert(cs[n as int] == (Change::RemoveEntry {
            table: key_table(t, rel, c as nat),
            key: value_bytes(vs[c]),
            id,
        }));
        assert forall|e: (Seq<char>, Seq<u8>, u64)| #[trigger]
            d.entries.contains(e) <==> db.entries.contains(e) && !new_entry(t, rel, id, vs, n as int, e) by {
            if new_entry(t, rel, id, vs, n as int, e) {
                let k = choose|k: int|
                    0 <= k < n && e == (#[trigger] key_table(t, rel, k as nat), value_bytes(vs[k]), id);
                if k < n - 1 {
                    assert(new_entry(t, rel, id, vs, n - 1, e));
                }
            }
            if new_entry(t, rel, id, vs, n - 1, e) {
                let k = choose|k: int|
                    0 <= k < n - 1 && e == (#[trigger] key_table(t, rel, k as nat), value_bytes(vs[k]), id);
                assert(new_entry(t, rel, id, vs, n as int, e));
            }
            if e == gone {
                assert(new_entry(t, rel, id, vs, n as int, e));
            }
        }
    }
}

/// A row removed together with its index entries keeps the tables in order.
pub proof fn removing_a_row_keeps_indices(db: Db, t: Tier, rel: Seq<char>, id: u64, vs: Seq<Val>)
    requires
        db_ok(db),
        has_row(db, t, rel, id),
        decoded(row_at(db, t, rel, id)) == vs,
    ensures
        ({
            let d = all_changed(db, row_removal(t, rel, id, vs), vs.len() + 1);
            &&& db_ok(d)
            &&& d.rows == db.rows.remove((row_table(t, rel), id))
            &&& d.meta == db.meta
            &&& d.version == db.version
        }),
{
    let d = all_changed(db, row_removal(t, rel, id, vs), vs.len() + 1);
    lemma_row_removed(db, t, rel, id, vs, vs.len());
    assert forall|u: Tier, q: Seq<char>, i: u64| #[trigger] has_row(d, u, q, i) implies row_ok(
        row_at(d, u, q, i),
    ) by {
        assert(has_row(db, u, q, i));
    }
    assert forall|u: Tier, q: Seq<char>, col: nat, key: Seq<u8>, i: u64| #[trigger]
        has_entry(d, u, q, col, key, i) <==> has_cell(d, u, q, col, key, i) by {
        let e = (key_table(u, q, col), key, i);
        assert(has_entry(db, u, q, col, key, i) <==> has_cell(db, u, q, col, key, i));
        if row_table(u, q) == row_table(t, rel) {
            row_tables_are_distinct(u, q, t, rel);
        }
        if new_entry(t, rel, id, vs, vs.len() as int, e) {
            let c = choose|c: int|
                0 <= c < vs.len() && e == (#[trigger] key_table(t, rel, c as nat), value_bytes(vs[c]), id);
            index_tables_are_distinct(u, q, col, t, rel, c as nat);
        }
        if u == t && q == rel && i == id {
            assert(!has_row(d, u, q, i));
            if has_cell(db, u, q, col, key, i) {
                let c = col as int;
                assert(0 <= c < vs.len() && e == (key_table(t, rel, c as nat), value_bytes(vs[c]), id));
                assert(new_entry(t, rel, id, vs, vs.len() as int, e));
            }
        } else {
            assert(has_row(d, u, q, i) == has_row(db, u, q, i));
            assert(has_cell(d, u, q, col, key, i) == has_cell(db, u, q, col, key, i));
        }
    }
}

/// The changes that drop a table of rows and tables of index entries.
pub open spec fn drop_changes(t: Tier, rel: Seq<char>, names: Seq<Seq<char>>) -> Seq<Change> {
    seq![Change::DropRows { table: row_table(t, rel) }] + Seq::new(
        names.len(),
        |i: int| Change::DropEntries { table: names[i] },
    )
}

/// Whether a name is that of an index of a relation in a tier: it begins as such, and no colon
/// follows.
pub open spec fn is_index_of(t: Tier, rel: Seq<char>, name: Seq<char>) -> bool {
    let prefix = index_prefix(tier_text(t), rel);
    &&& prefix.is_prefix_of(name)
    &&& !name.skip(prefix.len() as int).contains(':')
}

proof fn lemma_dropped(db: Db, t: Tier, rel: Seq<char>, names: Seq<Seq<char>>, n: nat)
    requires
        n <= names.len(),
    ensures
        ({
            let d = all_changed(db, drop_changes(t, rel, names), n + 1);
            &&& d.rows == changed(db, Change::DropRows { table: row_table(t, rel) }).rows
            &&& d.meta == db.meta
            &&& d.version == db.version
            &&& forall|e: (Seq<char>, Seq<u8>, u64)| #[trigger]
                d.entries.contains(e) <==> db.entries.contains(e) && !names.take(n as int).contains(e.0)
        }),
    decreases n,
{
    let cs = drop_changes(t, rel, names);
    let d = all_changed(db, cs, n + 1);
    if n == 0 {
        assert(all_changed(db, cs, 0) == db);
        assert(cs[0] == (Change::DropRows { table: row_table(t, rel) }));
        assert forall|e: (Seq<char>, Seq<u8>, u64)| #[trigger]
            d.entries.contains(e) <==> db.entries.contains(e) && !names.take(n as int).contains(e.0) by {
            assert(names.take(0).len() == 0);
        }
    } else {
        lemma_dropped(db, t, rel, names, (n - 1) as nat);
        assert(cs[n as int] == (Change::DropEntries { table: names[n - 1] }));
        assert forall|e: (Seq<char>, Seq<u8>, u64)| #[trigger]
            d.entries.contains(e) <==> db.entries.contains(e) && !names.take(n as int).contains(e.0) by {
            let fewer = names.take(n - 1);
            let all = names.take(n as int);
            if fewer.contains(e.0) {
                let i = fewer.index_of(e.0);
                assert(all[i] == e.0);
            }
            if all.contains(e.0) {
                let i = all.index_of(e.0);
                if i < n - 1 {
                    assert(fewer[i] == e.0);
                }
            }
            if e.0 == names[n - 1] {
                assert(all[n - 1] == e.0);
            }
        }
    }
}

/// Dropping the rows of a relation in a tier, with its indices, keeps the tables in order and
/// leaves no other relation or tier with fewer rows.
pub proof fn dropping_a_tier_keeps_indices(db: Db, t: Tier, rel: Seq<char>, names: Seq<Seq<char>>)
    requires
        db_ok(db),
        forall|i: int| 0 <= i < names.len() ==> is_index_of(t, rel, #[trigger] names[i]),
        forall|col: nat, key: Seq<u8>, id: u64| #[trigger]
            has_entry(db, t, rel, col, key, id) ==> names.contains(key_table(t, rel, col)),
    ensures
        ({
            let d = all_changed(db, drop_changes(t, rel, names), names.len() + 1);
            &&& db_ok(d)
            &&& forall|id: u64| !#[trigger] has_row(d, t, rel, id)
            &&& forall|u: Tier, q: Seq<char>, id: u64|
                (u != t || q != rel) ==> (#[trigger] has_row(d, u, q, id) <==> has_row(db, u, q, id))
            &&& forall|u: Tier, q: Seq<char>, id: u64| #[trigger]
                has_row(d, u, q, id) ==> row_at(d, u, q, id) == row_at(db, u, q, id)
            &&& d.meta == db.meta
            &&& d.version == db.version
        }),
{
    let d = all_changed(db, drop_changes(t, rel, names), names.len() + 1);
    lemma_dropped(db, t, rel, names, names.len());
    assert(names.take(names.len() as int) =~= names);
    assert forall|u: Tier, q: Seq<char>, id: u64| (u != t || q != rel) implies (#[trigger] has_row(
        d,
        u,
        q,
        id,
    ) <==> has_row(db, u, q, id)) by {
        if row_table(u, q) == row_table(t, rel) {
            row_tables_are_distinct(u, q, t, rel);
        }
    }
    assert forall|u: Tier, q: Seq<char>, i: u64| #[trigger] has_row(d, u, q, i) implies row_ok(
        row_at(d, u, q, i),
    ) by {
        assert(has_row(db, u, q, i));
    }
    assert forall|u: Tier, q: Seq<char>, col: nat, key: Seq<u8>, i: u64| #[trigger]
        has_entry(d, u, q, col, key, i) <==> has_cell(d, u, q, col, key, i) by {
        let name = key_table(u, q, col);
        assert(has_entry(db, u, q, col, key, i) <==> has_cell(db, u, q, col, key, i));
        if names.contains(name) {
            let k = names.index_of(name);
            let prefix = index_prefix(tier_text(t), rel);
            let rest = name.skip(prefix.len() as int);
            assert(is_index_of(t, rel, names[k]));
            assert(prefix + rest =~= name);
            lemma_index_prefix(t, rel, rest, u, q, col);
        }
        if u == t && q == rel {
            assert(!has_row(d, u, q, i));
        } else {
            assert(has_row(d, u, q, i) == has_row(db, u, q, i));
            assert(has_cell(d, u, q, col, key, i) == has_cell(db, u, q, col, key, i));
        }
    }
}

/// The index of a column of a relation is one of those that are dropped with it.
pub proof fn lemma_is_index_of(t: Tier, rel: Seq<char>, col: nat)
    ensures
        is_index_of(t, rel, key_table(t, rel, col)),
{
    let prefix = index_prefix(tier_text(t), rel);
    lemma_decimal_plain(col);
    assert(key_table(t, rel, col).skip(prefix.len() as int) =~= decimal(col));
    assert(prefix =~= key_table(t, rel, col).take(prefix.len() as int));
}

} // verus!
