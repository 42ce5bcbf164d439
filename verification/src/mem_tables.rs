//! Tables in memory.
use vstd::prelude::*;

use crate::tables::{
    all_changed, ascending_ids, changed, changes, ids_of, lists_name, lists_rows, Db,
};
use crate::tables::{StoreError, Tables, Write};
use crate::text::str_eq;

verus! {

/// Whether two byte strings are the same.
pub fn bytes_eq(a: &Vec<u8>, b: &Vec<u8>) -> (r: bool)
    ensures
        r == (a@ == b@),
{
    if a.len() != b.len() {
        return false;
    }
    let mut i: usize = 0;
    while i < a.len()
        invariant
            i <= a@.len(),
            a@.len() == b@.len(),
            forall|j: int| 0 <= j < i ==> a@[j] == b@[j],
        decreases a@.len() - i,
    {
        if a[i] != b[i] {
            return false;
        }
        i += 1;
    }
    assert(a@ =~= b@);
    true
}

/// Copies bytes.
pub fn copy_bytes(v: &Vec<u8>) -> (r: Vec<u8>)
    ensures
        r@ == v@,
{
    crate::ir::copy_items(v)
}

/// Something that is kept under a table's name, in the order of row numbers.
pub struct Kept {
    pub table: String,
    pub key: Vec<u8>,
    pub id: u64,
    pub data: Vec<u8>,
}

/// What a kept item is known by.
pub open spec fn place(k: Kept) -> (Seq<char>, Seq<u8>, u64) {
    (k.table@, k.key@, k.id)
}

/// Items are in the order of row numbers, and none is kept twice.
pub open spec fn kept_wf(ks: Seq<Kept>) -> bool {
    &&& forall|i: int, j: int| 0 <= i < j < ks.len() ==> (#[trigger] ks[i]).id <= (#[trigger] ks[j]).id
    &&& forall|i: int, j: int|
        0 <= i < j < ks.len() ==> place(#[trigger] ks[i]) != place(#[trigger] ks[j])
}

/// Whether something is kept at a place.
pub open spec fn keeps(ks: Seq<Kept>, p: (Seq<char>, Seq<u8>, u64)) -> bool {
    exists|i: int| 0 <= i < ks.len() && place(#[trigger] ks[i]) == p
}

/// The data that is kept at a place.
pub open spec fn data_at(ks: Seq<Kept>, p: (Seq<char>, Seq<u8>, u64)) -> Seq<u8> {
    ks[choose|i: int| 0 <= i < ks.len() && place(#[trigger] ks[i]) == p].data@
}

/// The data at the place of an item is its own.
proof fn lemma_data_at(ks: Seq<Kept>, i: int)
    requires
        kept_wf(ks),
        0 <= i < ks.len(),
    ensures
        keeps(ks, place(ks[i])),
        data_at(ks, place(ks[i])) == ks[i].data@,
{
    let p = place(ks[i]);
    let j = choose|j: int| 0 <= j < ks.len() && place(#[trigger] ks[j]) == p;
    assert(0 <= j < ks.len() && place(ks[j]) == p);
}

/// The index of the item at a place.
fn find(ks: &Vec<Kept>, table: &str, key: &Vec<u8>, id: u64) -> (r: Option<usize>)
    ensures
        match r {
            Some(i) => i < ks@.len() && place(ks@[i as int]) == (table@, key@, id),
            None => !keeps(ks@, (table@, key@, id)),
        },
{
    let mut i: usize = 0;
    while i < ks.len()
        invariant
            i <= ks@.len(),
            forall|j: int| 0 <= j < i ==> place(#[trigger] ks@[j]) != (table@, key@, id),
        decreases ks@.len() - i,
    {
        if ks[i].id == id && str_eq(ks[i].table.as_str(), table) && bytes_eq(&ks[i].key, key) {
            return Some(i);
        }
        i += 1;
    }
    None
}

/// Keeps data at a place.
fn put(ks: &mut Vec<Kept>, table: &str, key: &Vec<u8>, id: u64, data: &Vec<u8>)
    requires
        kept_wf(old(ks)@),
    ensures
        kept_wf(final(ks)@),
        forall|p: (Seq<char>, Seq<u8>, u64)| #[trigger]
            keeps(final(ks)@, p) <==> keeps(old(ks)@, p) || p == (table@, key@, id),
        data_at(final(ks)@, (table@, key@, id)) == data@,
        forall|p: (Seq<char>, Seq<u8>, u64)|
            keeps(old(ks)@, p) && p != (table@, key@, id) ==> #[trigger] data_at(final(ks)@, p)
                == data_at(old(ks)@, p),
{
    let ghost before = ks@;
    let ghost here = (table@, key@, id);
    let one = Kept {
        table: table.to_owned(),
        key: copy_bytes(key),
        id,
        data: copy_bytes(data),
    };
    match find(ks, table, key, id) {
        Some(i) => {
            ks[i] = one;
            proof {
                let after = ks@;
                assert(after == before.update(i as int, one));
                assert forall|a: int| 0 <= a < after.len() implies place(#[trigger] after[a]) == place(
                    before[a],
                ) by {}
                assert(kept_wf(after)) by {
                    assert forall|a: int, b: int| 0 <= a < b < after.len() implies (
                    #[trigger] after[a]).id <= (#[trigger] after[b]).id by {
                        assert(before[a].id <= before[b].id);
                    }
                    assert forall|a: int, b: int| 0 <= a < b < after.len() implies place(
                        #[trigger] after[a],
                    ) != place(#[trigger] after[b]) by {
                        assert(place(before[a]) != place(before[b]));
                    }
                }
                lemma_data_at(after, i as int);
                assert forall|p: (Seq<char>, Seq<u8>, u64)| #[trigger]
                    keeps(after, p) <==> keeps(before, p) || p == here by {
                    if keeps(after, p) {
                        let a = choose|a: int| 0 <= a < after.len() && place(#[trigger] after[a]) == p;
                        assert(place(before[a]) == p);
                    }
                    if keeps(before, p) {
                        let a = choose|a: int| 0 <= a < before.len() && place(#[trigger] before[a]) == p;
                        assert(place(after[a]) == p);
                    }
                }
                assert forall|p: (Seq<char>, Seq<u8>, u64)|
                    keeps(before, p) && p != here implies #[trigger] data_at(after, p) == data_at(
                    before,
                    p,
                ) by {
                    let a = choose|a: int| 0 <= a < before.len() && place(#[trigger] before[a]) == p;
                    assert(place(after[a]) == p);
                    lemma_data_at(after, a);
                    lemma_data_at(before, a);
                }
            }
        },
        None => {
            let mut at: usize = 0;
            while at < ks.len() && ks[at].id <= id
                invariant
                    at <= ks@.len(),
                    ks@ == before,
                    forall|j: int| 0 <= j < at ==> (#[trigger] before[j]).id <= id,
                decreases ks@.len() - at,
            {
                at += 1;
            }
            ks.insert(at, one);
            proof {
                let after = ks@;
                assert(after == before.insert(at as int, one));
                assert forall|a: int| 0 <= a < before.len() implies #[trigger] before[a] == after[if a < at {
                    a
                } else {
                    a + 1
                }] by {}
                assert(forall|j: int| at <= j < before.len() ==> (#[trigger] before[j]).id > id) by {
                    assert forall|j: int| at <= j < before.len() implies (#[trigger] before[j]).id > id by {
                        if j > at {
                            assert(before[at as int].id <= before[j].id);
                        }
                    }
                }
                assert(kept_wf(after)) by {
                    assert forall|a: int, b: int| 0 <= a < b < after.len() implies (
                    #[trigger] after[a]).id <= (#[trigger] after[b]).id by {
                        let x = if a < at {
                            a
                        } else {
                            a - 1
                        };
                        let y = if b < at {
                            b
                        } else {
                            b - 1
                        };
                        if a != at && b != at {
                            assert(before[x].id <= before[y].id);
                        }
                    }
                    assert forall|a: int, b: int| 0 <= a < b < after.len() implies place(
                        #[trigger] after[a],
                    ) != place(#[trigger] after[b]) by {
                        let x = if a < at {
                            a
                        } else {
                            a - 1
                        };
                        let y = if b < at {
                            b
                        } else {
                            b - 1
                        };
                        if a != at && b != at {
                            assert(place(before[x]) != place(before[y]));
                        } else if a == at {
                            assert(place(before[y]) != here) by {
                                if place(before[y]) == here {
                                    assert(keeps(before, here));
                                }
                            }
                        } else {
                            assert(place(before[x]) != here) by {
                                if place(before[x]) == here {
                                    assert(keeps(before, here));
                                }
                            }
                        }
                    }
                }
                lemma_data_at(after, at as int);
                assert forall|p: (Seq<char>, Seq<u8>, u64)| #[trigger]
                    keeps(after, p) <==> keeps(before, p) || p == here by {
                    if keeps(after, p) {
                        let a = choose|a: int| 0 <= a < after.len() && place(#[trigger] after[a]) == p;
                        if a != at {
                            let x = if a < at {
                                a
                            } else {
                                a - 1
                            };
                            assert(place(before[x]) == p);
                        }
                    }
                    if keeps(before, p) {
                        let a = choose|a: int| 0 <= a < before.len() && place(#[trigger] before[a]) == p;
                        let y = if a < at {
                            a
                        } else {
                            a + 1
                        };
                        assert(place(after[y]) == p);
                    }
                    if p == here {
                        assert(place(after[at as int]) == p);
                    }
                }
                assert forall|p: (Seq<char>, Seq<u8>, u64)|
                    keeps(before, p) && p != here implies #[trigger] data_at(after, p) == data_at(
                    before,
                    p,
                ) by {
                    let a = choose|a: int| 0 <= a < before.len() && place(#[trigger] before[a]) == p;
                    let y = if a < at {
                        a
                    } else {
                        a + 1
                    };
                    assert(place(after[y]) == p);
                    lemma_data_at(after, y);
                    lemma_data_at(before, a);
                }
            }
        },
    }
}

/// Items of which some are left out.
proof fn lemma_fewer(before: Seq<Kept>, after: Seq<Kept>)
    requires
        kept_wf(before),
        kept_wf(after),
        forall|a: int| 0 <= a < after.len() ==> before.contains(#[trigger] after[a]),
    ensures
        forall|p: (Seq<char>, Seq<u8>, u64)|
            keeps(after, p) ==> keeps(before, p) && #[trigger] data_at(after, p) == data_at(before, p),
{
    assert forall|p: (Seq<char>, Seq<u8>, u64)| keeps(after, p) implies keeps(before, p)
        && #[trigger] data_at(after, p) == data_at(before, p) by {
        let a = choose|a: int| 0 <= a < after.len() && place(#[trigger] after[a]) == p;
        let b = before.index_of(after[a]);
        assert(before[b] == after[a]);
        lemma_data_at(after, a);
        lemma_data_at(before, b);
    }
}

/// Removes what is kept at a place.
fn remove(ks: &mut Vec<Kept>, table: &str, key: &Vec<u8>, id: u64)
    requires
        kept_wf(old(ks)@),
    ensures
        kept_wf(final(ks)@),
        forall|p: (Seq<char>, Seq<u8>, u64)| #[trigger]
            keeps(final(ks)@, p) <==> keeps(old(ks)@, p) && p != (table@, key@, id),
        forall|p: (Seq<char>, Seq<u8>, u64)|
            keeps(final(ks)@, p) ==> #[trigger] data_at(final(ks)@, p) == data_at(old(ks)@, p),
{
    let ghost before = ks@;
    let ghost here = (table@, key@, id);
    if let Some(i) = find(ks, table, key, id) {
        ks.remove(i);
        proof {
            let after = ks@;
            assert(after == before.remove(i as int));
            assert forall|a: int| 0 <= a < after.len() implies #[trigger] after[a] == before[if a < i {
                a
            } else {
                a + 1
            }] by {}
            assert(kept_wf(after)) by {
                assert forall|a: int, b: int| 0 <= a < b < after.len() implies (#[trigger] after[a]).id <= (
                #[trigger] after[b]).id && place(after[a]) != place(after[b]) by {
                    let x = if a < i {
                        a
                    } else {
                        a + 1
                    };
                    let y = if b < i {
                        b
                    } else {
                        b + 1
                    };
                    assert(before[x].id <= before[y].id);
                    assert(place(before[x]) != place(before[y]));
                }
            }
            assert forall|a: int| 0 <= a < after.len() implies before.contains(#[trigger] after[a]) by {
                let x = if a < i {
                    a
                } else {
                    a + 1
                };
                assert(before[x] == after[a]);
            }
            lemma_fewer(before, after);
            assert forall|p: (Seq<char>, Seq<u8>, u64)| #[trigger]
                keeps(after, p) <==> keeps(before, p) && p != here by {
                if keeps(after, p) {
                    let a = choose|a: int| 0 <= a < after.len() && place(#[trigger] after[a]) == p;
                    let x = if a < i {
                        a
                    } else {
                        a + 1
                    };
                    assert(place(before[x]) == p);
                    if x < i {
                        assert(place(before[x]) != place(before[i as int]));
                    } else {
                        assert(place(before[i as int]) != place(before[x]));
                    }
                }
                if keeps(before, p) && p != here {
                    let b = choose|b: int| 0 <= b < before.len() && place(#[trigger] before[b]) == p;
                    let y = if b < i {
                        b
                    } else {
                        b - 1
                    };
                    assert(after[y] == before[b]);
                    assert(place(after[y]) == p);
                }
            }
        }
    }
}

/// Removes all that is kept under a table's name.
fn drop_table(ks: &mut Vec<Kept>, table: &str)
    requires
        kept_wf(old(ks)@),
    ensures
        kept_wf(final(ks)@),
        forall|p: (Seq<char>, Seq<u8>, u64)| #[trigger]
            keeps(final(ks)@, p) <==> keeps(old(ks)@, p) && p.0 != table@,
        forall|p: (Seq<char>, Seq<u8>, u64)|
            keeps(final(ks)@, p) ==> #[trigger] data_at(final(ks)@, p) == data_at(old(ks)@, p),
{
    let ghost all = ks@;
    let mut i: usize = 0;
    while i < ks.len()
        invariant
            kept_wf(ks@),
            i <= ks@.len(),
            forall|j: int| 0 <= j < i ==> (#[trigger] ks@[j]).table@ != table@,
            forall|p: (Seq<char>, Seq<u8>, u64)|
                p.0 != table@ ==> (#[trigger] keeps(ks@, p) <==> keeps(all, p)),
            forall|p: (Seq<char>, Seq<u8>, u64)| #[trigger] keeps(ks@, p) ==> keeps(all, p),
            forall|p: (Seq<char>, Seq<u8>, u64)|
                keeps(ks@, p) ==> #[trigger] data_at(ks@, p) == data_at(all, p),
        decreases ks@.len() - i,
    {
        if str_eq(ks[i].table.as_str(), table) {
            let ghost before = ks@;
            ks.remove(i);
            proof {
                let after = ks@;
                assert(after == before.remove(i as int));
                assert forall|a: int| 0 <= a < after.len() implies #[trigger] after[a] == before[if a < i {
                    a
                } else {
                    a + 1
                }] by {}
                assert(kept_wf(after)) by {
                    assert forall|a: int, b: int| 0 <= a < b < after.len() implies (
                    #[trigger] after[a]).id <= (#[trigger] after[b]).id && place(after[a]) != place(
                        after[b],
                    ) by {
                        let x = if a < i {
                            a
                        } else {
                            a + 1
                        };
                        let y = if b < i {
                            b
                        } else {
                            b + 1
                        };
                        assert(before[x].id <= before[y].id);
                        assert(place(before[x]) != place(before[y]));
                    }
                }
                assert forall|a: int| 0 <= a < after.len() implies before.contains(#[trigger] after[a]) by {
                    let x = if a < i {
                        a
                    } else {
                        a + 1
                    };
                    assert(before[x] == after[a]);
                }
                lemma_fewer(before, after);
                assert forall|p: (Seq<char>, Seq<u8>, u64)| p.0 != table@ implies (#[trigger] keeps(after, p)
                    <==> keeps(all, p)) by {
                    if keeps(before, p) {
                        let b = choose|b: int| 0 <= b < before.len() && place(#[trigger] before[b]) == p;
                        let y = if b < i {
                            b
                        } else {
                            b - 1
                        };
                        assert(after[y] == before[b]);
                        assert(place(after[y]) == p);
                    }
                    if keeps(after, p) {
                        assert(data_at(after, p) == data_at(before, p));
                    }
                }
                assert forall|p: (Seq<char>, Seq<u8>, u64)| #[trigger] keeps(after, p) implies keeps(all, p) by {
                    assert(data_at(after, p) == data_at(before, p));
                }
                assert forall|p: (Seq<char>, Seq<u8>, u64)| keeps(after, p) implies #[trigger] data_at(
                    after,
                    p,
                ) == data_at(all, p) by {
                    assert(data_at(after, p) == data_at(before, p));
                    assert(keeps(before, p));
                }
            }
        } else {
            i += 1;
        }
    }
    proof {
        assert forall|p: (Seq<char>, Seq<u8>, u64)| #[trigger]
            keeps(ks@, p) <==> keeps(all, p) && p.0 != table@ by {
            if keeps(ks@, p) {
                let a = choose|a: int| 0 <= a < ks@.len() && place(#[trigger] ks@[a]) == p;
                assert(ks@[a].table@ != table@);
            }
        }
    }
}

/// Whether a relation is recorded.
pub open spec fn records(meta: Seq<(String, u64)>, name: Seq<char>) -> bool {
    exists|i: int| 0 <= i < meta.len() && (#[trigger] meta[i]).0@ == name
}

/// What is recorded of a relation.
pub open spec fn recorded(meta: Seq<(String, u64)>, name: Seq<char>) -> u64 {
    meta[choose|i: int| 0 <= i < meta.len() && (#[trigger] meta[i]).0@ == name].1
}

/// No relation is recorded twice.
pub open spec fn meta_wf(meta: Seq<(String, u64)>) -> bool {
    forall|i: int, j: int| 0 <= i < j < meta.len() ==> (#[trigger] meta[i]).0@ != (#[trigger] meta[j]).0@
}

proof fn lemma_recorded(meta: Seq<(String, u64)>, i: int)
    requires
        meta_wf(meta),
        0 <= i < meta.len(),
    ensures
        records(meta, meta[i].0@),
        recorded(meta, meta[i].0@) == meta[i].1,
{
    let j = choose|j: int| 0 <= j < meta.len() && (#[trigger] meta[j]).0@ == meta[i].0@;
    assert(0 <= j < meta.len() && meta[j].0@ == meta[i].0@);
}

/// The rows under no key.
pub open spec fn row_place(k: (Seq<char>, u64)) -> (Seq<char>, Seq<u8>, u64) {
    (k.0, Seq::empty(), k.1)
}

/// Tables in memory.
pub struct MemTables {
    pub rows: Vec<Kept>,
    pub index: Vec<Kept>,
    pub recorded: Vec<(String, u64)>,
    pub format: Option<u64>,
}

/// The rows that are kept.
pub open spec fn rows_kept(ks: Seq<Kept>) -> Map<(Seq<char>, u64), Seq<u8>> {
    Map::new(
        |k: (Seq<char>, u64)| keeps(ks, row_place(k)),
        |k: (Seq<char>, u64)| data_at(ks, row_place(k)),
    )
}

/// The index entries that are kept.
pub open spec fn entries_kept(ks: Seq<Kept>) -> Set<(Seq<char>, Seq<u8>, u64)> {
    Set::new(|e: (Seq<char>, Seq<u8>, u64)| keeps(ks, e))
}

/// What is recorded of relations.
pub open spec fn meta_kept(meta: Seq<(String, u64)>) -> Map<Seq<char>, u64> {
    Map::new(|n: Seq<char>| records(meta, n), |n: Seq<char>| recorded(meta, n))
}

impl MemTables {
    /// Tables that hold nothing.
    pub fn new() -> (r: MemTables)
        ensures
            r.wf(),
            r.contents().rows == Map::<(Seq<char>, u64), Seq<u8>>::empty(),
            r.contents().entries == Set::<(Seq<char>, Seq<u8>, u64)>::empty(),
            r.contents().meta == Map::<Seq<char>, u64>::empty(),
            r.contents().version is None,
    {
        let r = MemTables {
            rows: Vec::new(),
            index: Vec::new(),
            recorded: Vec::new(),
            format: None,
        };
        assert(r.contents().rows =~= Map::<(Seq<char>, u64), Seq<u8>>::empty());
        assert(r.contents().entries =~= Set::<(Seq<char>, Seq<u8>, u64)>::empty());
        assert(r.contents().meta =~= Map::<Seq<char>, u64>::empty());
        r
    }

    /// Makes a change.
    fn apply(&mut self, w: &Write)
        requires
            old(self).wf(),
        ensures
            final(self).wf(),
            final(self).contents() == changed(old(self).contents(), w@),
    {
        let ghost was = self.contents();
        let none: Vec<u8> = Vec::new();
        assert(none@ =~= Seq::<u8>::empty());
        match w {
            Write::PutRow { table, id, data } => {
                put(&mut self.rows, table.as_str(), &none, *id, data);
                proof {
                    let k = (table@, *id);
                    assert forall|q: (Seq<char>, u64)| #[trigger] row_place(q) == row_place(k) implies q == k by {}
                    assert(rows_kept(self.rows@) =~= was.rows.insert(k, data@));
                }
            },
            Write::RemoveRow { table, id } => {
                remove(&mut self.rows, table.as_str(), &none, *id);
                proof {
                    let k = (table@, *id);
                    assert(rows_kept(self.rows@) =~= was.rows.remove(k));
                }
            },
            Write::PutEntry { table, key, id } => {
                put(&mut self.index, table.as_str(), key, *id, &none);
                assert(entries_kept(self.index@) =~= was.entries.insert((table@, key@, *id)));
            },
            Write::RemoveEntry { table, key, id } => {
                remove(&mut self.index, table.as_str(), key, *id);
                assert(entries_kept(self.index@) =~= was.entries.remove((table@, key@, *id)));
            },
            Write::DropRows { table } => {
                drop_table(&mut self.rows, table.as_str());
                assert(rows_kept(self.rows@) =~= changed(was, w@).rows);
            },
            Write::DropEntries { table } => {
                drop_table(&mut self.index, table.as_str());
                assert(entries_kept(self.index@) =~= changed(was, w@).entries);
            },
            Write::PutMeta { relation, next_id } => {
                put_recorded(&mut self.recorded, relation.as_str(), *next_id);
            },
            Write::PutVersion { version } => {
                self.format = Some(*version);
            },
        }
        assert(self.contents() =~= changed(was, w@));
    }
}

proof fn lemma_meta_put(
    before: Seq<(String, u64)>,
    after: Seq<(String, u64)>,
    i: int,
    name: Seq<char>,
    next_id: u64,
)
    requires
        meta_wf(before),
        meta_wf(after),
        0 <= i < after.len(),
        i <= before.len(),
        i == before.len() || after.len() == before.len(),
        i == before.len() ==> after.len() == before.len() + 1,
        after[i].0@ == name,
        after[i].1 == next_id,
        i < before.len() ==> before[i].0@ == name,
        forall|a: int| 0 <= a < before.len() && a != i ==> #[trigger] after[a] == before[a],
    ensures
        meta_kept(after) == meta_kept(before).insert(name, next_id),
{
    lemma_recorded(after, i);
    assert forall|n: Seq<char>| #[trigger] records(after, n) <==> records(before, n) || n == name by {
        if records(after, n) {
            let a = choose|a: int| 0 <= a < after.len() && (#[trigger] after[a]).0@ == n;
            if a != i {
                assert(after[a] == before[a]);
                assert(before[a].0@ == n);
            }
        }
        if records(before, n) {
            let a = choose|a: int| 0 <= a < before.len() && (#[trigger] before[a]).0@ == n;
            if a != i {
                assert(after[a].0@ == n);
            } else {
                assert(after[i].0@ == n);
            }
        }
    }
    assert forall|n: Seq<char>| records(before, n) && n != name implies #[trigger] recorded(after, n)
        == recorded(before, n) by {
        let a = choose|a: int| 0 <= a < before.len() && (#[trigger] before[a]).0@ == n;
        assert(a != i);
        assert(after[a] == before[a]);
        lemma_recorded(after, a);
        lemma_recorded(before, a);
    }
    assert(meta_kept(after) =~= meta_kept(before).insert(name, next_id));
}

/// Records the next row number of a relation.
pub(crate) fn put_recorded(meta: &mut Vec<(String, u64)>, relation: &str, next_id: u64)
    requires
        meta_wf(old(meta)@),
    ensures
        meta_wf(final(meta)@),
        meta_kept(final(meta)@) == meta_kept(old(meta)@).insert(relation@, next_id),
{
    let ghost before = meta@;
    let mut i: usize = 0;
    while i < meta.len()
        invariant
            meta@ == before,
            i <= meta@.len(),
            forall|j: int| 0 <= j < i ==> (#[trigger] meta@[j]).0@ != relation@,
        decreases meta@.len() - i,
    {
        if str_eq(meta[i].0.as_str(), relation) {
            meta[i] = (relation.to_owned(), next_id);
            proof {
                let after = meta@;
                assert forall|a: int| 0 <= a < after.len() implies (#[trigger] after[a]).0@ == before[a].0@ by {}
                assert(meta_wf(after)) by {
                    assert forall|a: int, b: int| 0 <= a < b < after.len() implies (#[trigger] after[a]).0@
                        != (#[trigger] after[b]).0@ by {
                        assert(before[a].0@ != before[b].0@);
                    }
                }
                lemma_meta_put(before, after, i as int, relation@, next_id);
            }
            return ;
        }
        i += 1;
    }
    meta.push((relation.to_owned(), next_id));
    proof {
        let after = meta@;
        assert forall|a: int| 0 <= a < before.len() implies (#[trigger] after[a]) == before[a] by {}
        assert(meta_wf(after)) by {
            assert forall|a: int, b: int| 0 <= a < b < after.len() implies (#[trigger] after[a]).0@ != (
            #[trigger] after[b]).0@ by {
                if b < before.len() {
                    assert(before[a].0@ != before[b].0@);
                } else {
                    assert(before[a].0@ != relation@);
                }
            }
        }
        lemma_meta_put(before, after, before.len() as int, relation@, next_id);
    }
}

/// Whether an item is a row of a table.
pub open spec fn is_row(k: Kept, table: Seq<char>) -> bool {
    k.table@ == table && k.key@.len() == 0
}

/// Whether `rows` are the rows of a table among the first `n` items, at the indices `at`.
spec fn picked(ks: Seq<Kept>, table: Seq<char>, n: int, rows: Seq<(u64, Vec<u8>)>, at: Seq<int>) -> bool {
    &&& at.len() == rows.len()
    &&& forall|a: int|
        0 <= a < at.len() ==> 0 <= (#[trigger] at[a]) < n && is_row(ks[at[a]], table) && rows[a].0
            == ks[at[a]].id && rows[a].1@ == ks[at[a]].data@
    &&& forall|a: int, b: int| 0 <= a < b < at.len() ==> at[a] < at[b]
    &&& forall|j: int| 0 <= j < n && is_row(#[trigger] ks[j], table) ==> at.contains(j)
}

/// The rows of a table, in the order of their numbers.
fn rows_under(ks: &Vec<Kept>, table: &str) -> (r: Vec<(u64, Vec<u8>)>)
    requires
        kept_wf(ks@),
    ensures
        ascending_ids(ids_of(r@)),
        forall|i: int|
            0 <= i < r@.len() ==> rows_kept(ks@).contains_pair((table@, (#[trigger] r@[i]).0), r@[i].1@),
        forall|id: u64| #[trigger]
            rows_kept(ks@).contains_key((table@, id)) ==> exists|i: int| 0 <= i < r@.len() && r@[i].0 == id,
{
    let ghost all = ks@;
    let mut r: Vec<(u64, Vec<u8>)> = Vec::new();
    let ghost mut at: Seq<int> = Seq::empty();
    let mut n: usize = 0;
    while n < ks.len()
        invariant
            n <= all.len(),
            picked(all, table@, n as int, r@, at),
        decreases all.len() - n,
    {
        if ks[n].key.len() == 0 && str_eq(ks[n].table.as_str(), table) {
            let ghost before = r@;
            let ghost was = at;
            r.push((ks[n].id, copy_bytes(&ks[n].data)));
            proof {
                at = at.push(n as int);
                assert forall|j: int| 0 <= j < n + 1 && is_row(#[trigger] all[j], table@) implies at.contains(j) by {
                    if j < n {
                        let a = was.index_of(j);
                        assert(at[a] == j);
                    } else {
                        assert(at[was.len() as int] == j);
                    }
                }
            }
        }
        n += 1;
    }
    proof {
        assert forall|a: int, b: int| 0 <= a < b < ids_of(r@).len() implies ids_of(r@)[a] < ids_of(r@)[b] by {
            let x = at[a];
            let y = at[b];
            assert(all[x].id <= all[y].id);
            assert(place(all[x]) != place(all[y]));
            assert(all[x].key@ =~= all[y].key@);
        }
        assert forall|a: int| 0 <= a < r@.len() implies rows_kept(all).contains_pair(
            (table@, (#[trigger] r@[a]).0),
            r@[a].1@,
        ) by {
            let x = at[a];
            lemma_data_at(all, x);
            assert(all[x].key@ =~= Seq::<u8>::empty());
            assert(place(all[x]) == row_place((table@, r@[a].0)));
        }
        assert forall|id: u64| #[trigger] rows_kept(all).contains_key((table@, id)) implies exists|a: int|
            0 <= a < r@.len() && r@[a].0 == id by {
            let p = row_place((table@, id));
            let j = choose|j: int| 0 <= j < all.len() && place(#[trigger] all[j]) == p;
            assert(is_row(all[j], table@));
            let a = at.index_of(j);
            assert(r@[a].0 == id);
        }
    }
    r
}

impl Tables for MemTables {
    open spec fn contents(&self) -> Db {
        Db {
            rows: rows_kept(self.rows@),
            entries: entries_kept(self.index@),
            meta: meta_kept(self.recorded@),
            version: self.format,
        }
    }

    open spec fn wf(&self) -> bool {
        &&& kept_wf(self.rows@)
        &&& kept_wf(self.index@)
        &&& meta_wf(self.recorded@)
    }

    open spec fn reliable(&self) -> bool {
        true
    }

    fn version(&self) -> (r: Result<Option<u64>, StoreError>) {
        Ok(self.format)
    }

    fn meta(&self) -> (r: Result<Vec<(String, u64)>, StoreError>) {
        let mut r: Vec<(String, u64)> = Vec::new();
        let mut i: usize = 0;
        while i < self.recorded.len()
            invariant
                i <= self.recorded@.len(),
                r@.len() == i,
                forall|j: int|
                    0 <= j < i ==> (#[trigger] r@[j]).0@ == self.recorded@[j].0@ && r@[j].1
                        == self.recorded@[j].1,
            decreases self.recorded@.len() - i,
        {
            r.push((self.recorded[i].0.as_str().to_owned(), self.recorded[i].1));
            i += 1;
        }
        proof {
            let meta = self.recorded@;
            assert forall|a: int, b: int| 0 <= a < b < r@.len() implies r@[a].0@ != r@[b].0@ by {
                assert(meta[a].0@ != meta[b].0@);
            }
            assert forall|a: int| 0 <= a < r@.len() implies self.contents().meta.contains_pair(
                (#[trigger] r@[a]).0@,
                r@[a].1,
            ) by {
                lemma_recorded(meta, a);
            }
            assert forall|n: Seq<char>| #[trigger] self.contents().meta.contains_key(n) implies exists|
                a: int,
            | 0 <= a < r@.len() && r@[a].0@ == n by {
                let a = choose|a: int| 0 <= a < meta.len() && (#[trigger] meta[a]).0@ == n;
                assert(r@[a].0@ == n);
            }
        }
        Ok(r)
    }

    fn rows(&self, table: &str) -> (r: Result<Vec<(u64, Vec<u8>)>, StoreError>) {
        let r = rows_under(&self.rows, table);
        assert(lists_rows(self.contents(), table@, r@));
        Ok(r)
    }

    fn row(&self, table: &str, id: u64) -> (r: Result<Option<Vec<u8>>, StoreError>) {
        let none: Vec<u8> = Vec::new();
        assert(none@ =~= Seq::<u8>::empty());
        match find(&self.rows, table, &none, id) {
            Some(i) => {
                proof {
                    lemma_data_at(self.rows@, i as int);
                    assert(row_place((table@, id)) == place(self.rows@[i as int]));
                }
                Ok(Some(copy_bytes(&self.rows[i].data)))
            },
            None => {
                assert(!keeps(self.rows@, row_place((table@, id))));
                Ok(None)
            },
        }
    }

    fn entries(&self, table: &str, key: &Vec<u8>) -> (r: Result<Vec<u64>, StoreError>) {
        let ghost all = self.index@;
        let mut r: Vec<u64> = Vec::new();
        let mut i: usize = 0;
        while i < self.index.len()
            invariant
                i <= all.len(),
                all == self.index@,
                ascending_ids(r@),
                forall|a: int|
                    0 <= a < r@.len() ==> exists|j: int|
                        0 <= j < i && place(#[trigger] all[j]) == (table@, key@, #[trigger] r@[a]),
                forall|j: int|
                    0 <= j < i && (#[trigger] all[j]).table@ == table@ && all[j].key@ == key@ ==> r@.contains(
                        all[j].id,
                    ),
            decreases all.len() - i,
        {
            let ghost before = r@;
            if str_eq(self.index[i].table.as_str(), table) && bytes_eq(&self.index[i].key, key) {
                let id = self.index[i].id;
                proof {
                    assert forall|a: int| 0 <= a < before.len() implies #[trigger] before[a] < id by {
                        let j = choose|j: int|
                            0 <= j < i && place(#[trigger] all[j]) == (table@, key@, before[a]);
                        assert(all[j].id <= all[i as int].id);
                        assert(place(all[j]) != place(all[i as int]));
                    }
                }
                r.push(id);
                proof {
                    assert(r@[before.len() as int] == id);
                    assert forall|j: int|
                        0 <= j < i + 1 && (#[trigger] all[j]).table@ == table@ && all[j].key@ == key@ implies r@.contains(
                        all[j].id,
                    ) by {
                        if j < i {
                            let a = before.index_of(all[j].id);
                            assert(r@[a] == all[j].id);
                        }
                    }
                    assert forall|a: int| 0 <= a < r@.len() implies exists|j: int|
                        0 <= j < i + 1 && place(#[trigger] all[j]) == (table@, key@, #[trigger] r@[a]) by {
                        if a < before.len() {
                            assert(before[a] == r@[a]);
                            let j = choose|j: int|
                                0 <= j < i && place(#[trigger] all[j]) == (table@, key@, before[a]);
                            assert(place(all[j]) == (table@, key@, r@[a]));
                        } else {
                            assert(place(all[i as int]) == (table@, key@, r@[a]));
                        }
                    }
                }
            }
            i += 1;
        }
        proof {
            assert forall|id: u64| #[trigger] self.contents().entries.contains((table@, key@, id))
                <==> r@.contains(id) by {
                if self.contents().entries.contains((table@, key@, id)) {
                    let j = choose|j: int|
                        0 <= j < all.len() && place(#[trigger] all[j]) == (table@, key@, id);
                    assert(all[j].table@ == table@ && all[j].key@ == key@);
                }
                if r@.contains(id) {
                    let a = r@.index_of(id);
                    let j = choose|j: int|
                        0 <= j < i && place(#[trigger] all[j]) == (table@, key@, r@[a]);
                    assert(keeps(all, (table@, key@, id)));
                }
            }
        }
        Ok(r)
    }

    fn entry_tables(&self) -> (r: Result<Vec<String>, StoreError>) {
        let mut r: Vec<String> = Vec::new();
        let mut i: usize = 0;
        while i < self.index.len()
            invariant
                i <= self.index@.len(),
                r@.len() == i,
                forall|j: int| 0 <= j < i ==> (#[trigger] r@[j])@ == self.index@[j].table@,
            decreases self.index@.len() - i,
        {
            r.push(self.index[i].table.as_str().to_owned());
            i += 1;
        }
        proof {
            assert forall|t: Seq<char>, key: Seq<u8>, id: u64| #[trigger]
                self.contents().entries.contains((t, key, id)) implies lists_name(r@, t) by {
                let all = self.index@;
                let j = choose|j: int| 0 <= j < all.len() && place(#[trigger] all[j]) == (t, key, id);
                assert(r@[j]@ == t);
            }
        }
        Ok(r)
    }

    fn commit(&mut self, writes: &Vec<Write>) -> (r: Result<(), StoreError>) {
        let ghost start = self.contents();
        let ghost cs = changes(writes@);
        let mut n: usize = 0;
        while n < writes.len()
            invariant
                self.wf(),
                n <= writes@.len(),
                self.contents() == all_changed(start, cs, n as nat),
            decreases writes@.len() - n,
        {
            self.apply(&writes[n]);
            assert(cs[n as int] == writes@[n as int]@);
            n += 1;
        }
        Ok(())
    }
}

} // verus!
