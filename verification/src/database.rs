//! Moving facts between sources, stores and caches.
use vstd::prelude::*;

use crate::cache::IdbSnapshot;
use crate::disk_names::Tier;
use crate::source::{tells_relations, tells_rows, EdbSource, Fingerprint, RelationInfo, SourceError};
use crate::store::{merged, merged_has, named, present, row_vals, visible, Contents};
use crate::store::{contains_name, Row, Store};
use crate::tables::StoreError;
use crate::value::copy_values;
use crate::value::{vals, Val};

verus! {

/// Facts, relation by relation.
pub type Facts = Seq<(Seq<char>, Seq<Seq<Val>>)>;

/// Whether a row is among the facts of a relation.
pub open spec fn among(facts: Facts, rel: Seq<char>, row: Seq<Val>) -> bool {
    exists|i: int| 0 <= i < facts.len() && (#[trigger] facts[i]).0 == rel && facts[i].1.contains(row)
}

/// Whether a relation is among the facts, with or without rows.
pub open spec fn mentions(facts: Facts, rel: Seq<char>) -> bool {
    exists|i: int| 0 <= i < facts.len() && (#[trigger] facts[i]).0 == rel
}

/// How many rows there are.
pub open spec fn total(facts: Facts) -> nat
    decreases facts.len(),
{
    if facts.len() == 0 {
        0
    } else {
        total(facts.drop_last()) + facts.last().1.len()
    }
}

/// The model of facts.
pub open spec fn facts_of(v: Seq<(String, Vec<Row>)>) -> Facts {
    Seq::new(v.len(), |i: int| (v[i].0@, row_vals(v[i].1@)))
}

/// Whether a row is in a tier after rows of a relation were added. What is in the relation
/// already is not added.
pub open spec fn gained<S: Contents>(
    s: &S,
    rel: Seq<char>,
    rows: Seq<Seq<Val>>,
    t: Tier,
    q: Seq<char>,
    row: Seq<Val>,
) -> bool {
    s.has(t, q, row) || (t == Tier::NextDelta && q == rel && rows.contains(row) && !present(s, q, row))
}

/// Whether a row is in a tier after facts were added.
pub open spec fn collected<S: Contents>(s: &S, facts: Facts, t: Tier, q: Seq<char>, row: Seq<Val>) -> bool {
    s.has(t, q, row) || (t == Tier::NextDelta && among(facts, q, row) && !present(s, q, row))
}

/// Whether a row is in a tier after facts were added and merged.
pub open spec fn loaded<S: Contents>(s: &S, facts: Facts, t: Tier, q: Seq<char>, row: Seq<Val>) -> bool {
    merged(
        s.knows(q) || mentions(facts, q),
        t,
        s.has(Tier::Stable, q, row),
        s.has(Tier::Delta, q, row),
        collected(s, facts, Tier::NextDelta, q, row),
    )
}

/// Whether a store holds what another one does with facts added to it.
pub open spec fn holds_with<S: Contents>(s: &S, facts: Facts, after: &S) -> bool {
    &&& forall|t: Tier, q: Seq<char>, row: Seq<Val>| #[trigger]
        after.has(t, q, row) <==> collected(s, facts, t, q, row)
    &&& forall|q: Seq<char>| #[trigger] after.knows(q) <==> s.knows(q) || mentions(facts, q)
}

/// Whether a store holds what another one does with facts added to it and merged.
pub open spec fn holds_loaded<S: Contents>(s: &S, facts: Facts, after: &S) -> bool {
    &&& forall|t: Tier, q: Seq<char>, row: Seq<Val>| #[trigger]
        after.has(t, q, row) <==> loaded(s, facts, t, q, row)
    &&& forall|q: Seq<char>| #[trigger] after.knows(q) <==> s.knows(q) || mentions(facts, q)
}

/// Why facts cannot be loaded.
#[derive(Debug)]
pub enum LoadError {
    Source(SourceError),
    Store(StoreError),
}

/// Adds rows to a relation.
pub fn insert_rows<S: Store>(store: &mut S, relation: &str, rows: &Vec<Row>) -> (r: Result<(), StoreError>)
    requires
        old(store).valid(),
    ensures
        final(store).valid(),
        forall|t: Tier, q: Seq<char>, row: Seq<Val>| #[trigger]
            final(store).has(t, q, row) ==> gained(old(store), relation@, row_vals(rows@), t, q, row),
        forall|t: Tier, q: Seq<char>, row: Seq<Val>|
            old(store).has(t, q, row) ==> #[trigger] final(store).has(t, q, row),
        r is Ok ==> forall|t: Tier, q: Seq<char>, row: Seq<Val>| #[trigger]
            final(store).has(t, q, row) <==> gained(old(store), relation@, row_vals(rows@), t, q, row),
        forall|q: Seq<char>| #[trigger] final(store).knows(q) == old(store).knows(q),
        forall|n: nat|
            #![trigger final(store).roomy(n)]
            old(store).roomy(n + rows@.len()) ==> final(store).roomy(n),
        old(store).roomy(rows@.len()) ==> r is Ok,
        old(store).once() ==> final(store).once(),
{
    let ghost start = *store;
    let ghost all = row_vals(rows@);
    let mut i: usize = 0;
    assert(all.take(0).len() == 0);
    while i < rows.len()
        invariant
            store.valid(),
            i <= rows@.len(),
            forall|t: Tier, q: Seq<char>, row: Seq<Val>| #[trigger]
                store.has(t, q, row) <==> gained(&start, relation@, all.take(i as int), t, q, row),
            forall|q: Seq<char>| #[trigger] store.knows(q) == start.knows(q),
            forall|n: nat| #![trigger store.roomy(n)] start.roomy(n + i as nat) ==> store.roomy(n),
            start.once() ==> store.once(),
        decreases rows@.len() - i,
    {
        let ghost mid = *store;
        let ghost one = all[i as int];
        let tuple = copy_values(&rows[i]);
        proof {
            if start.roomy(rows@.len()) {
                let left = (rows@.len() - i) as nat;
                assert(left + (i as nat) == rows@.len());
                assert(store.roomy(left));
                store.room_for_fewer(left, 1);
            }
        }
        let r = store.insert(relation, tuple);
        proof {
            let (some, more) = (all.take(i as int), all.take(i + 1));
            assert(more =~= some.push(one));
            assert forall|row: Seq<Val>| #[trigger] more.contains(row) <==> some.contains(row) || row == one by {
                if some.contains(row) {
                    let k = choose|k: int| 0 <= k < some.len() && some[k] == row;
                    assert(more[k] == row);
                }
                assert(more[some.len() as int] == one);
            }
            assert forall|n: nat| #![trigger store.roomy(n)] start.roomy(n + (i + 1) as nat) implies store.roomy(n) by {
                assert((n + 1) + (i as nat) == n + (i + 1) as nat);
                assert(start.roomy((n + 1) + (i as nat)));
                assert(mid.roomy(n + 1));
            }
        }
        match r {
            Err(e) => {
                proof {
                    assert forall|t: Tier, q: Seq<char>, row: Seq<Val>| #[trigger] store.has(t, q, row) implies gained(
                        &start,
                        relation@,
                        all,
                        t,
                        q,
                        row,
                    ) by {
                        assert(mid.has(t, q, row));
                        let some = all.take(i as int);
                        if some.contains(row) {
                            let k = choose|k: int| 0 <= k < some.len() && some[k] == row;
                            assert(all[k] == row);
                        }
                    }
                    assert forall|t: Tier, q: Seq<char>, row: Seq<Val>| start.has(t, q, row) implies #[trigger] store.has(
                        t,
                        q,
                        row,
                    ) by {
                        assert(mid.has(t, q, row));
                    }
                    assert forall|n: nat| #![trigger store.roomy(n)] start.roomy(n + rows@.len()) implies store.roomy(
                        n,
                    ) by {
                        let m = (n + (rows@.len() - i)) as nat;
                        assert(m + (i as nat) == n + rows@.len());
                        assert(start.roomy(m + (i as nat)));
                        assert(mid.roomy(m));
                        mid.room_for_fewer(m, n + 1);
                    }
                }
                return Err(e);
            },
            Ok(_) => {},
        }
        i += 1;
    }
    assert(all.take(all.len() as int) =~= all);
    Ok(())
}

/// Adding a relation to facts that were added.
proof fn lemma_collected<S: Contents>(a: &S, b: &S, c: &S, facts: Facts, rel: Seq<char>, rows: Seq<Seq<Val>>)
    requires
        holds_with(a, facts, b),
        forall|t: Tier, q: Seq<char>, row: Seq<Val>| #[trigger]
            c.has(t, q, row) <==> gained(b, rel, rows, t, q, row),
        forall|q: Seq<char>| #[trigger] c.knows(q) <==> b.knows(q) || q == rel,
    ensures
        holds_with(a, facts.push((rel, rows)), c),
        total(facts.push((rel, rows))) == total(facts) + rows.len(),
{
    let more = facts.push((rel, rows));
    assert(more.drop_last() =~= facts);
    assert forall|q: Seq<char>, row: Seq<Val>| #[trigger]
        among(more, q, row) <==> among(facts, q, row) || (q == rel && rows.contains(row)) by {
        if among(facts, q, row) {
            let i = choose|i: int|
                0 <= i < facts.len() && (#[trigger] facts[i]).0 == q && facts[i].1.contains(row);
            assert(more[i] == facts[i]);
        }
        if q == rel && rows.contains(row) {
            assert(more[facts.len() as int].0 == q);
        }
        if among(more, q, row) {
            let i = choose|i: int|
                0 <= i < more.len() && (#[trigger] more[i]).0 == q && more[i].1.contains(row);
            if i < facts.len() {
                assert(facts[i] == more[i]);
            }
        }
    }
    assert forall|q: Seq<char>| #[trigger] mentions(more, q) <==> mentions(facts, q) || q == rel by {
        if mentions(facts, q) {
            let i = choose|i: int| 0 <= i < facts.len() && (#[trigger] facts[i]).0 == q;
            assert(more[i] == facts[i]);
        }
        assert(more[facts.len() as int].0 == rel);
        if mentions(more, q) {
            let i = choose|i: int| 0 <= i < more.len() && (#[trigger] more[i]).0 == q;
            if i < facts.len() {
                assert(facts[i] == more[i]);
            }
        }
    }
    assert forall|t: Tier, q: Seq<char>, row: Seq<Val>| #[trigger]
        c.has(t, q, row) <==> collected(a, more, t, q, row) by {
        assert(b.has(t, q, row) <==> collected(a, facts, t, q, row));
        assert(b.has(Tier::Stable, q, row) <==> collected(a, facts, Tier::Stable, q, row));
        assert(b.has(Tier::Delta, q, row) <==> collected(a, facts, Tier::Delta, q, row));
        assert(b.has(Tier::NextDelta, q, row) <==> collected(a, facts, Tier::NextDelta, q, row));
    }
}

/// Adding nothing.
proof fn lemma_nothing<S: Contents>(a: &S)
    ensures
        holds_with(a, Seq::empty(), a),
{
}

/// Merging facts that were added.
proof fn lemma_loaded<S: Contents>(a: &S, b: &S, c: &S, facts: Facts)
    requires
        holds_with(a, facts, b),
        forall|t: Tier, q: Seq<char>, row: Seq<Val>| #[trigger]
            c.has(t, q, row) <==> merged_has(b, t, q, row),
        forall|q: Seq<char>| #[trigger] c.knows(q) == b.knows(q),
    ensures
        holds_loaded(a, facts, c),
{
    assert forall|t: Tier, q: Seq<char>, row: Seq<Val>| #[trigger]
        c.has(t, q, row) <==> loaded(a, facts, t, q, row) by {
        assert(b.has(Tier::Stable, q, row) <==> collected(a, facts, Tier::Stable, q, row));
        assert(b.has(Tier::Delta, q, row) <==> collected(a, facts, Tier::Delta, q, row));
        assert(b.has(Tier::NextDelta, q, row) <==> collected(a, facts, Tier::NextDelta, q, row));
        assert(b.knows(q) <==> a.knows(q) || mentions(facts, q));
    }
}

/// Room after facts were added.
spec fn keeps_room<S: Contents>(a: &S, b: &S, used: nat) -> bool {
    forall|n: nat| #![trigger b.roomy(n)] a.roomy(n + used) ==> b.roomy(n)
}

proof fn lemma_keeps_room<S: Contents>(a: &S, b: &S, c: &S, used: nat, more: nat)
    requires
        keeps_room(a, b, used),
        forall|n: nat| #![trigger c.roomy(n)] b.roomy(n + more) ==> c.roomy(n),
    ensures
        keeps_room(a, c, used + more),
{
    assert forall|n: nat| #![trigger c.roomy(n)] a.roomy(n + (used + more)) implies c.roomy(n) by {
        assert((n + more) + used == n + (used + more));
        assert(b.roomy(n + more));
    }
}

/// Making a relation known and adding rows to it.
proof fn lemma_step<S: Contents>(
    start: &S,
    before: &S,
    mid: &S,
    after: &S,
    facts: Facts,
    rel: Seq<char>,
    rows: Seq<Seq<Val>>,
)
    requires
        holds_with(start, facts, before),
        keeps_room(start, before, total(facts)),
        forall|t: Tier, q: Seq<char>, row: Seq<Val>| #[trigger] mid.has(t, q, row) == before.has(t, q, row),
        forall|q: Seq<char>| #[trigger] mid.knows(q) <==> before.knows(q) || q == rel,
        forall|n: nat| before.roomy(n) ==> #[trigger] mid.roomy(n),
        forall|t: Tier, q: Seq<char>, row: Seq<Val>| #[trigger]
            after.has(t, q, row) <==> gained(mid, rel, rows, t, q, row),
        forall|q: Seq<char>| #[trigger] after.knows(q) == mid.knows(q),
        forall|n: nat| #![trigger after.roomy(n)] mid.roomy(n + rows.len()) ==> after.roomy(n),
    ensures
        holds_with(start, facts.push((rel, rows)), after),
        keeps_room(start, after, total(facts.push((rel, rows)))),
{
    assert forall|t: Tier, q: Seq<char>, row: Seq<Val>| #[trigger]
        after.has(t, q, row) <==> gained(before, rel, rows, t, q, row) by {
        assert(mid.has(t, q, row) == before.has(t, q, row));
        assert(mid.has(Tier::Stable, q, row) == before.has(Tier::Stable, q, row));
        assert(mid.has(Tier::Delta, q, row) == before.has(Tier::Delta, q, row));
        assert(mid.has(Tier::NextDelta, q, row) == before.has(Tier::NextDelta, q, row));
    }
    assert forall|q: Seq<char>| #[trigger] after.knows(q) <==> before.knows(q) || q == rel by {
        assert(mid.knows(q) <==> before.knows(q) || q == rel);
    }
    lemma_collected(start, before, after, facts, rel, rows);
    assert forall|n: nat| #![trigger after.roomy(n)] before.roomy(n + rows.len()) implies after.roomy(n) by {
        assert(mid.roomy(n + rows.len()));
    }
    lemma_keeps_room(start, before, after, total(facts), rows.len());
}

/// Adds facts to a store and merges them.
#[verifier::rlimit(30)]
pub fn load_facts<S: Store>(store: &mut S, facts: &Vec<(String, Vec<Row>)>) -> (r: Result<(), StoreError>)
    requires
        old(store).valid(),
    ensures
        final(store).valid(),
        old(store).roomy(total(facts_of(facts@))) ==> r is Ok && holds_loaded(
            old(store),
            facts_of(facts@),
            final(store),
        ),
{
    let ghost start = *store;
    let ghost all = facts_of(facts@);
    let mut i: usize = 0;
    proof {
        lemma_nothing(&start);
        assert(all.take(0) =~= Seq::empty());
    }
    while i < facts.len()
        invariant
            store.valid(),
            i <= facts@.len(),
            holds_with(&start, all.take(i as int), store),
            keeps_room(&start, store, total(all.take(i as int))),
        decreases facts@.len() - i,
    {
        let ghost before = *store;
        let ghost some = all.take(i as int);
        let ghost (rel, rows) = all[i as int];
        store.create_relation(facts[i].0.as_str());
        let ghost mid = *store;
        let r = insert_rows(store, facts[i].0.as_str(), &facts[i].1);
        proof {
            assert(all.take(i + 1) =~= some.push((rel, rows)));
            assert(all.take(i + 1).drop_last() =~= some);
            lemma_total(all, i + 1);
            if start.roomy(total(all)) {
                let left = (total(all) - total(some)) as nat;
                assert(left + total(some) == total(all));
                assert(before.roomy(left));
                assert(mid.roomy(left));
                mid.room_for_fewer(left, rows.len());
            }
        }
        match r {
            Err(e) => {
                return Err(e);
            },
            Ok(_) => {},
        }
        proof {
            lemma_step(&start, &before, &mid, store, some, rel, rows);
        }
        i += 1;
    }
    let ghost filled = *store;
    store.merge_deltas();
    proof {
        assert(all.take(all.len() as int) =~= all);
        if start.roomy(total(all)) {
            assert(0 + total(all) == total(all));
            assert(filled.roomy(0));
            lemma_loaded(&start, &filled, store, all);
        }
    }
    Ok(())
}

/// There are no more rows in the first facts than in all.
proof fn lemma_total(facts: Facts, n: int)
    requires
        0 <= n <= facts.len(),
    ensures
        total(facts.take(n)) <= total(facts),
    decreases facts.len(),
{
    if n < facts.len() {
        lemma_total(facts.drop_last(), n);
        assert(facts.drop_last().take(n) =~= facts.take(n));
    } else {
        assert(facts.take(n) =~= facts);
    }
}

/// Facts are added and merged, if there is room for them.
pub open spec fn loads<S: Contents>(before: &S, facts: Facts, after: &S) -> bool {
    before.roomy(total(facts)) ==> holds_loaded(before, facts, after)
}

/// Whether a source may tell these rows of a relation.
pub open spec fn provides<E: EdbSource>(source: E, rel: Seq<char>, rows: Seq<Seq<Val>>) -> bool {
    exists|told: Vec<Row>| #[trigger] tells_rows(source, rel, Ok(told)) && row_vals(told@) == rows
}

/// Whether facts are what a source may tell of the first relations of a list, in order.
pub open spec fn provides_first<E: EdbSource>(source: E, list: Seq<RelationInfo>, facts: Facts) -> bool {
    &&& facts.len() <= list.len()
    &&& forall|k: int|
        0 <= k < facts.len() ==> (#[trigger] facts[k]).0 == list[k].name@ && provides(
            source,
            facts[k].0,
            facts[k].1,
        )
}

/// Whether facts are what a source may tell of all its relations.
pub open spec fn provides_all<E: EdbSource>(source: E, facts: Facts) -> bool {
    exists|list: Vec<RelationInfo>| #[trigger]
        tells_relations(source, Ok(list)) && provides_first(source, list@, facts) && facts.len()
            == list@.len()
}

/// Whether the parts are what the first sources may tell, each of all its relations.
pub open spec fn provide_parts<E: EdbSource>(sources: Seq<E>, parts: Seq<Facts>) -> bool {
    &&& parts.len() <= sources.len()
    &&& forall|i: int| 0 <= i < parts.len() ==> provides_all(sources[i], #[trigger] parts[i])
}

/// The facts of parts, in order.
pub open spec fn parts_joined(parts: Seq<Facts>) -> Facts
    decreases parts.len(),
{
    if parts.len() == 0 {
        Seq::empty()
    } else {
        parts_joined(parts.drop_last()) + parts.last()
    }
}

/// Whether sources may have told so much: all of the first ones, and of the next one the
/// list of its relations and the rows of the first of them.
pub open spec fn told<E: EdbSource>(
    sources: Seq<E>,
    parts: Seq<Facts>,
    list: Seq<RelationInfo>,
    part: Facts,
) -> bool {
    &&& provide_parts(sources, parts)
    &&& parts.len() < sources.len()
    &&& exists|v: Vec<RelationInfo>| v@ == list && #[trigger] tells_relations(
        sources[parts.len() as int],
        Ok(v),
    )
    &&& provides_first(sources[parts.len() as int], list, part)
}

/// Whether a store holds at least what another does with some facts added, and at most what it
/// does with more.
pub open spec fn holds_between<S: Contents>(s: &S, some: Facts, more: Facts, after: &S) -> bool {
    &&& forall|t: Tier, q: Seq<char>, row: Seq<Val>|
        collected(s, some, t, q, row) ==> #[trigger] after.has(t, q, row)
    &&& forall|t: Tier, q: Seq<char>, row: Seq<Val>| #[trigger]
        after.has(t, q, row) ==> collected(s, more, t, q, row)
    &&& forall|q: Seq<char>| #[trigger] after.knows(q) <==> s.knows(q) || mentions(more, q)
}

/// Why loading stopped, and what it left: a source did not tell its relations, or not the rows
/// of one, which is then known without them, or there is no room for the rows that were told.
pub open spec fn load_stopped<E: EdbSource, S: Contents>(
    sources: Seq<E>,
    before: &S,
    error: LoadError,
    after: &S,
) -> bool {
    match error {
        LoadError::Source(e) => {
            ||| exists|parts: Seq<Facts>| #[trigger]
                provide_parts(sources, parts) && parts.len() < sources.len() && tells_relations(
                    sources[parts.len() as int],
                    Err(e),
                ) && holds_with(before, parts_joined(parts), after)
            ||| exists|parts: Seq<Facts>, list: Seq<RelationInfo>, part: Facts| #[trigger]
                told(sources, parts, list, part) && part.len() < list.len() && tells_rows(
                    sources[parts.len() as int],
                    list[part.len() as int].name@,
                    Err(e),
                ) && holds_with(
                    before,
                    (parts_joined(parts) + part).push((list[part.len() as int].name@, Seq::empty())),
                    after,
                )
        },
        LoadError::Store(_) => exists|
            parts: Seq<Facts>,
            list: Seq<RelationInfo>,
            part: Facts,
        | #[trigger]
            told(sources, parts, list, part) && part.len() > 0 && !before.roomy(
                total(parts_joined(parts) + part),
            ) && holds_between(
                before,
                parts_joined(parts) + part.drop_last(),
                parts_joined(parts) + part,
                after,
            ),
    }
}

/// Some of the rows of a relation were added.
proof fn lemma_partly<S: Contents>(
    start: &S,
    before: &S,
    mid: &S,
    after: &S,
    facts: Facts,
    rel: Seq<char>,
    rows: Seq<Seq<Val>>,
)
    requires
        holds_with(start, facts, before),
        forall|t: Tier, q: Seq<char>, row: Seq<Val>| #[trigger] mid.has(t, q, row) == before.has(t, q, row),
        forall|q: Seq<char>| #[trigger] mid.knows(q) <==> before.knows(q) || q == rel,
        forall|t: Tier, q: Seq<char>, row: Seq<Val>| #[trigger]
            after.has(t, q, row) ==> gained(mid, rel, rows, t, q, row),
        forall|t: Tier, q: Seq<char>, row: Seq<Val>|
            mid.has(t, q, row) ==> #[trigger] after.has(t, q, row),
        forall|q: Seq<char>| #[trigger] after.knows(q) == mid.knows(q),
    ensures
        holds_between(start, facts, facts.push((rel, rows)), after),
{
    let more = facts.push((rel, rows));
    assert forall|q: Seq<char>| #[trigger] mentions(more, q) <==> mentions(facts, q) || q == rel by {
        if mentions(facts, q) {
            let i = choose|i: int| 0 <= i < facts.len() && (#[trigger] facts[i]).0 == q;
            assert(more[i] == facts[i]);
        }
        assert(more[facts.len() as int].0 == rel);
        if mentions(more, q) {
            let i = choose|i: int| 0 <= i < more.len() && (#[trigger] more[i]).0 == q;
            if i < facts.len() {
                assert(facts[i] == more[i]);
            }
        }
    }
    assert forall|t: Tier, q: Seq<char>, row: Seq<Val>| collected(start, facts, t, q, row) implies #[trigger] after.has(
        t,
        q,
        row,
    ) by {
        assert(before.has(t, q, row));
        assert(mid.has(t, q, row));
    }
    assert forall|t: Tier, q: Seq<char>, row: Seq<Val>| #[trigger] after.has(t, q, row) implies collected(
        start,
        more,
        t,
        q,
        row,
    ) by {
        assert(mid.has(t, q, row) == before.has(t, q, row));
        assert(before.has(t, q, row) <==> collected(start, facts, t, q, row));
        assert(mid.has(Tier::Stable, q, row) == before.has(Tier::Stable, q, row));
        assert(mid.has(Tier::Delta, q, row) == before.has(Tier::Delta, q, row));
        assert(mid.has(Tier::NextDelta, q, row) == before.has(Tier::NextDelta, q, row));
        assert(before.has(Tier::Stable, q, row) <==> collected(start, facts, Tier::Stable, q, row));
        assert(before.has(Tier::Delta, q, row) <==> collected(start, facts, Tier::Delta, q, row));
        assert(before.has(Tier::NextDelta, q, row) <==> collected(start, facts, Tier::NextDelta, q, row));
        if among(facts, q, row) {
            let i = choose|i: int|
                0 <= i < facts.len() && (#[trigger] facts[i]).0 == q && facts[i].1.contains(row);
            assert(more[i] == facts[i]);
        }
        if q == rel && rows.contains(row) {
            assert(more[facts.len() as int].0 == q);
        }
    }
}

/// Adds the rows of the relations of sources to a store and merges them. The sources are asked
/// in order, each for its relations and then for the rows of one after the other.
#[verifier::rlimit(60)]
pub fn load_edb_into_store<E: EdbSource, S: Store>(sources: &Vec<E>, store: &mut S) -> (r: Result<(), LoadError>)
    requires
        old(store).valid(),
    ensures
        final(store).valid(),
        match r {
            Ok(_) => exists|parts: Seq<Facts>| #[trigger]
                provide_parts(sources@, parts) && parts.len() == sources@.len() && loads(
                    old(store),
                    parts_joined(parts),
                    final(store),
                ),
            Err(e) => load_stopped(sources@, old(store), e, final(store)),
        },
        sources@.len() == 0 ==> r is Ok && loads(old(store), Seq::empty(), final(store)),
{
    let ghost start = *store;
    let ghost mut parts: Seq<Facts> = Seq::empty();
    let mut i: usize = 0;
    proof {
        lemma_nothing(&start);
    }
    while i < sources.len()
        invariant
            store.valid(),
            i <= sources@.len(),
            parts.len() == i,
            provide_parts(sources@, parts),
            holds_with(&start, parts_joined(parts), store),
            keeps_room(&start, store, total(parts_joined(parts))),
        decreases sources@.len() - i,
    {
        let relations = match sources[i].relations() {
            Err(e) => {
                proof {
                    assert(tells_relations(sources@[parts.len() as int], Err(e)));
                    assert(provide_parts(sources@, parts));
                }
                return Err(LoadError::Source(e));
            },
            Ok(relations) => relations,
        };
        let ghost list = relations@;
        let ghost first = parts_joined(parts);
        let ghost mut part: Facts = Seq::empty();
        let mut k: usize = 0;
        proof {
            assert(tells_relations(sources@[i as int], Ok(relations)));
            assert(first + part =~= first);
        }
        while k < relations.len()
            invariant
                store.valid(),
                k <= relations@.len(),
                part.len() == k,
                told(sources@, parts, list, part),
                holds_with(&start, first + part, store),
                keeps_room(&start, store, total(first + part)),
            decreases relations@.len() - k,
        {
            let ghost before = *store;
            let ghost some = first + part;
            let name = relations[k].name.as_str();
            store.create_relation(name);
            let ghost mid = *store;
            let rows = match sources[i].scan(name) {
                Err(e) => {
                    proof {
                        assert(tells_rows(sources@[parts.len() as int], list[part.len() as int].name@, Err(e)));
                        lemma_step(&start, &before, &mid, store, some, name@, Seq::empty());
                        assert(told(sources@, parts, list, part));
                    }
                    return Err(LoadError::Source(e));
                },
                Ok(rows) => rows,
            };
            let ghost all = row_vals(rows@);
            let ghost more = part.push((name@, all));
            proof {
                assert(tells_rows(sources@[i as int], name@, Ok(rows)));
                assert(provides(sources@[i as int], name@, all));
                assert(provides_first(sources@[i as int], list, more));
                assert(told(sources@, parts, list, more));
                assert(first + more =~= some.push((name@, all)));
                assert((first + more).drop_last() =~= some);
                assert(more.drop_last() =~= part);
            }
            match insert_rows(store, name, &rows) {
                Err(e) => {
                    proof {
                        if start.roomy(total(first + more)) {
                            assert(all.len() + total(some) == total(first + more));
                            assert(before.roomy(all.len()));
                            assert(mid.roomy(rows@.len()));
                        }
                        lemma_partly(&start, &before, &mid, store, some, name@, all);
                    }
                    return Err(LoadError::Store(e));
                },
                Ok(_) => {},
            }
            proof {
                lemma_step(&start, &before, &mid, store, some, name@, all);
                part = more;
            }
            k += 1;
        }
        proof {
            let whole = parts.push(part);
            assert(whole.drop_last() =~= parts);
            assert(parts_joined(whole) == first + part);
            assert(provides_all(sources@[i as int], part));
            assert(provide_parts(sources@, whole));
            parts = whole;
        }
        i += 1;
    }
    let ghost filled = *store;
    store.merge_deltas();
    proof {
        let facts = parts_joined(parts);
        if start.roomy(total(facts)) {
            assert(0 + total(facts) == total(facts));
            assert(filled.roomy(0));
            lemma_loaded(&start, &filled, store, facts);
        }
        assert(loads(&start, facts, store));
    }
    Ok(())
}

/// Whether facts are the rows of relations that a store knows, with the names of those that it
/// does not know.
pub open spec fn copies<S: Contents>(from: &S, names: Seq<String>, facts: Facts) -> bool {
    &&& forall|q: Seq<char>| #[trigger] mentions(facts, q) <==> named(names, q)
    &&& forall|q: Seq<char>, row: Seq<Val>| #[trigger]
        among(facts, q, row) ==> named(names, q) && visible(from, q, row)
    &&& from.roomy(0) ==> forall|q: Seq<char>, row: Seq<Val>|
        named(names, q) && from.knows(q) && visible(from, q, row) ==> #[trigger] among(facts, q, row)
}

proof fn lemma_copied<S: Contents>(
    from: &S,
    names: Seq<String>,
    facts: Facts,
    name: String,
    rows: Seq<Seq<Val>>,
)
    requires
        copies(from, names, facts),
        forall|row: Seq<Val>| #[trigger] rows.contains(row) ==> visible(from, name@, row),
        from.roomy(0) && from.knows(name@) ==> forall|row: Seq<Val>| #[trigger]
            rows.contains(row) <==> visible(from, name@, row),
    ensures
        copies(from, names.push(name), facts.push((name@, rows))),
{
    let more = facts.push((name@, rows));
    let all = names.push(name);
    assert forall|q: Seq<char>| #[trigger] named(all, q) <==> named(names, q) || q == name@ by {
        if named(names, q) {
            let i = choose|i: int| 0 <= i < names.len() && (#[trigger] names[i])@ == q;
            assert(all[i]@ == q);
        }
        assert(all[names.len() as int]@ == name@);
        if named(all, q) {
            let i = choose|i: int| 0 <= i < all.len() && (#[trigger] all[i])@ == q;
            if i < names.len() {
                assert(names[i]@ == q);
            }
        }
    }
    assert forall|q: Seq<char>| #[trigger] mentions(more, q) <==> mentions(facts, q) || q == name@ by {
        if mentions(facts, q) {
            let i = choose|i: int| 0 <= i < facts.len() && (#[trigger] facts[i]).0 == q;
            assert(more[i] == facts[i]);
        }
        assert(more[facts.len() as int].0 == name@);
        if mentions(more, q) {
            let i = choose|i: int| 0 <= i < more.len() && (#[trigger] more[i]).0 == q;
            if i < facts.len() {
                assert(facts[i] == more[i]);
            }
        }
    }
    assert forall|q: Seq<char>, row: Seq<Val>| #[trigger]
        among(more, q, row) <==> among(facts, q, row) || (q == name@ && rows.contains(row)) by {
        if among(facts, q, row) {
            let i = choose|i: int|
                0 <= i < facts.len() && (#[trigger] facts[i]).0 == q && facts[i].1.contains(row);
            assert(more[i] == facts[i]);
        }
        if q == name@ && rows.contains(row) {
            assert(more[facts.len() as int].0 == q);
        }
        if among(more, q, row) {
            let i = choose|i: int|
                0 <= i < more.len() && (#[trigger] more[i]).0 == q && more[i].1.contains(row);
            if i < facts.len() {
                assert(facts[i] == more[i]);
            }
        }
    }
}

/// There is no room for facts, and all but some rows of the last relation were added.
pub open spec fn copy_stopped<S: Contents>(before: &S, facts: Facts, after: &S) -> bool {
    &&& facts.len() > 0
    &&& !before.roomy(total(facts))
    &&& holds_between(before, facts.drop_last(), facts, after)
}

/// Makes relations known to a store, adds the rows that another store has of them, and merges
/// them. It fails only where there is no room for the rows of the first relations.
#[verifier::rlimit(30)]
pub fn copy_relations<S: Store, T: Store>(from: &S, names: &Vec<String>, to: &mut T) -> (r: Result<(), StoreError>)
    requires
        from.valid(),
        old(to).valid(),
    ensures
        final(to).valid(),
        r is Ok ==> exists|facts: Facts| #[trigger]
            copies(from, names@, facts) && loads(old(to), facts, final(to)),
        r is Err ==> exists|n: int, facts: Facts|
            0 < n <= names@.len() && #[trigger] copies(from, names@.take(n), facts) && copy_stopped(
                old(to),
                facts,
                final(to),
            ),
{
    let ghost start = *to;
    let ghost mut facts: Facts = Seq::empty();
    let mut i: usize = 0;
    proof {
        lemma_nothing(&start);
        assert(names@.take(0) =~= Seq::empty());
    }
    while i < names.len()
        invariant
            to.valid(),
            i <= names@.len(),
            copies(from, names@.take(i as int), facts),
            holds_with(&start, facts, to),
            keeps_room(&start, to, total(facts)),
        decreases names@.len() - i,
    {
        let ghost before = *to;
        let name = names[i].as_str();
        to.create_relation(name);
        let ghost mid = *to;
        let rows: Vec<Row> = match from.scan(name) {
            Ok(rows) => rows,
            Err(_) => Vec::new(),
        };
        let ghost all = row_vals(rows@);
        let ghost more = facts.push((name@, all));
        proof {
            assert(names@.take(i + 1) =~= names@.take(i as int).push(names@[i as int]));
            lemma_copied(from, names@.take(i as int), facts, names@[i as int], all);
            assert(more.drop_last() =~= facts);
        }
        match insert_rows(to, name, &rows) {
            Err(e) => {
                proof {
                    if start.roomy(total(more)) {
                        assert(all.len() + total(facts) == total(more));
                        assert(before.roomy(all.len()));
                        assert(mid.roomy(rows@.len()));
                    }
                    lemma_partly(&start, &before, &mid, to, facts, name@, all);
                    assert(copies(from, names@.take(i + 1), more));
                }
                return Err(e);
            },
            Ok(_) => {},
        }
        proof {
            lemma_step(&start, &before, &mid, to, facts, name@, all);
            facts = more;
        }
        i += 1;
    }
    let ghost filled = *to;
    to.merge_deltas();
    proof {
        assert(names@.take(names@.len() as int) =~= names@);
        if start.roomy(total(facts)) {
            assert(0 + total(facts) == total(facts));
            assert(filled.roomy(0));
            lemma_loaded(&start, &filled, to, facts);
        }
        assert(copies(from, names@, facts) && loads(&start, facts, to));
    }
    Ok(())
}

/// Whether facts are the rows that a store has of relations. A relation without rows is left
/// out.
pub open spec fn snapshot_of<S: Contents>(s: &S, names: Seq<String>, facts: Facts) -> bool {
    &&& forall|q: Seq<char>, row: Seq<Val>| #[trigger]
        among(facts, q, row) ==> named(names, q) && visible(s, q, row)
    &&& s.roomy(0) ==> forall|q: Seq<char>, row: Seq<Val>|
        named(names, q) && s.knows(q) && visible(s, q, row) ==> #[trigger] among(facts, q, row)
    &&& forall|i: int| 0 <= i < facts.len() ==> (#[trigger] facts[i]).1.len() > 0
}

proof fn lemma_snapshot<S: Contents>(
    s: &S,
    names: Seq<String>,
    facts: Facts,
    name: String,
    rows: Seq<Seq<Val>>,
    more: Facts,
)
    requires
        snapshot_of(s, names, facts),
        forall|row: Seq<Val>| #[trigger] rows.contains(row) ==> visible(s, name@, row),
        s.roomy(0) && s.knows(name@) ==> forall|row: Seq<Val>| #[trigger]
            rows.contains(row) <==> visible(s, name@, row),
        more == (if rows.len() > 0 {
            facts.push((name@, rows))
        } else {
            facts
        }),
    ensures
        snapshot_of(s, names.push(name), more),
{
    let all = names.push(name);
    assert forall|q: Seq<char>| #[trigger] named(all, q) <==> named(names, q) || q == name@ by {
        if named(names, q) {
            let i = choose|i: int| 0 <= i < names.len() && (#[trigger] names[i])@ == q;
            assert(all[i]@ == q);
        }
        assert(all[names.len() as int]@ == name@);
        if named(all, q) {
            let i = choose|i: int| 0 <= i < all.len() && (#[trigger] all[i])@ == q;
            if i < names.len() {
                assert(names[i]@ == q);
            }
        }
    }
    assert forall|q: Seq<char>, row: Seq<Val>| #[trigger]
        among(more, q, row) <==> among(facts, q, row) || (q == name@ && rows.contains(row)) by {
        if among(facts, q, row) {
            let i = choose|i: int|
                0 <= i < facts.len() && (#[trigger] facts[i]).0 == q && facts[i].1.contains(row);
            assert(more[i] == facts[i]);
        }
        if q == name@ && rows.contains(row) {
            assert(more[facts.len() as int].0 == q);
        }
        if among(more, q, row) {
            let i = choose|i: int|
                0 <= i < more.len() && (#[trigger] more[i]).0 == q && more[i].1.contains(row);
            if i < facts.len() {
                assert(facts[i] == more[i]);
            }
        }
    }
}

/// The rows that a store has of relations. A relation without rows, or that cannot be read, is
/// left out.
pub fn extract_idb_snapshot<S: Store>(store: &S, idb_relations: &Vec<String>) -> (r: IdbSnapshot)
    requires
        store.valid(),
    ensures
        snapshot_of(store, idb_relations@, facts_of(r.relations@)),
{
    let mut relations: Vec<(String, Vec<Row>)> = Vec::new();
    let mut i: usize = 0;
    assert(idb_relations@.take(0) =~= Seq::empty());
    while i < idb_relations.len()
        invariant
            i <= idb_relations@.len(),
            snapshot_of(store, idb_relations@.take(i as int), facts_of(relations@)),
        decreases idb_relations@.len() - i,
    {
        let ghost facts = facts_of(relations@);
        let ghost some = idb_relations@.take(i as int);
        let name = idb_relations[i].as_str();
        assert(idb_relations@.take(i + 1) =~= some.push(idb_relations@[i as int]));
        match store.scan(name) {
            Ok(rows) => {
                let ghost found = row_vals(rows@);
                if rows.len() > 0 {
                    relations.push((name.to_owned(), rows));
                    assert(facts_of(relations@) =~= facts.push((name@, found)));
                }
                proof {
                    lemma_snapshot(
                        store,
                        some,
                        facts,
                        idb_relations@[i as int],
                        found,
                        facts_of(relations@),
                    );
                }
            },
            Err(_) => {
                proof {
                    lemma_snapshot(store, some, facts, idb_relations@[i as int], Seq::empty(), facts);
                }
            },
        }
        i += 1;
    }
    assert(idb_relations@.take(idb_relations@.len() as int) =~= idb_relations@);
    IdbSnapshot { relations }
}

/// Derived facts that were kept answer as the ones that they were taken from: where a store has
/// no row of a relation yet, it has those of the snapshot after loading it.
pub proof fn a_snapshot_restores_relations<S: Contents, T: Contents>(
    from: &S,
    names: Seq<String>,
    snapshot: Facts,
    before: &T,
    after: &T,
    rel: Seq<char>,
    row: Seq<Val>,
)
    requires
        from.roomy(0),
        snapshot_of(from, names, snapshot),
        before.roomy(total(snapshot)),
        loads(before, snapshot, after),
        named(names, rel),
        from.knows(rel),
        forall|x: Seq<Val>| !#[trigger] present(before, rel, x),
    ensures
        visible(after, rel, row) <==> visible(from, rel, row),
{
    assert(!present(before, rel, row));
    assert(after.has(Tier::Stable, rel, row) <==> loaded(before, snapshot, Tier::Stable, rel, row));
    assert(after.has(Tier::Delta, rel, row) <==> loaded(before, snapshot, Tier::Delta, rel, row));
    if among(snapshot, rel, row) {
        let i = choose|i: int|
            0 <= i < snapshot.len() && (#[trigger] snapshot[i]).0 == rel && snapshot[i].1.contains(row);
        assert(mentions(snapshot, rel));
    }
}

/// The facts of a database and what is known of them.
pub struct DatabaseState<S: Store> {
    /// The working store, with base and derived facts.
    pub store: S,
    /// The relations of base facts.
    pub edb_relations: Vec<String>,
    /// The relations of derived facts.
    pub idb_relations: Vec<String>,
    pub edb_fingerprint: Option<Fingerprint>,
    pub program_hash: Vec<u8>,
}

/// Removes all rows of relations.
fn clear_relations<S: Store>(store: &mut S, names: &Vec<String>)
    requires
        old(store).valid(),
    ensures
        final(store).valid(),
        forall|q: Seq<char>| #[trigger] final(store).knows(q) == old(store).knows(q),
        forall|n: nat| old(store).roomy(n) ==> #[trigger] final(store).roomy(n),
        old(store).once() ==> final(store).once(),
        old(store).roomy(0) ==> forall|t: Tier, q: Seq<char>, row: Seq<Val>| #[trigger]
            final(store).has(t, q, row) <==> old(store).has(t, q, row) && !named(names@, q),
{
    let ghost start = *store;
    let mut i: usize = 0;
    while i < names.len()
        invariant
            store.valid(),
            i <= names@.len(),
            forall|q: Seq<char>| #[trigger] store.knows(q) == start.knows(q),
            forall|n: nat| start.roomy(n) ==> #[trigger] store.roomy(n),
            start.once() ==> store.once(),
            start.roomy(0) ==> forall|t: Tier, q: Seq<char>, row: Seq<Val>| #[trigger]
                store.has(t, q, row) <==> start.has(t, q, row) && !named(names@.take(i as int), q),
        decreases names@.len() - i,
    {
        let ghost before = *store;
        let ghost (some, more) = (names@.take(i as int), names@.take(i + 1));
        store.clear(names[i].as_str());
        proof {
            assert forall|q: Seq<char>| #[trigger] named(more, q) <==> named(some, q) || q == names@[i as int]@ by {
                if named(some, q) {
                    let k = choose|k: int| 0 <= k < some.len() && (#[trigger] some[k])@ == q;
                    assert(more[k]@ == q);
                }
                assert(more[i as int]@ == names@[i as int]@);
                if named(more, q) {
                    let k = choose|k: int| 0 <= k < more.len() && (#[trigger] more[k])@ == q;
                    if k < i {
                        assert(some[k]@ == q);
                    }
                }
            }
            if start.roomy(0) {
                assert(before.roomy(0));
                assert forall|t: Tier, q: Seq<char>, row: Seq<Val>| #[trigger] store.has(t, q, row) <==> start.has(
                    t,
                    q,
                    row,
                ) && !named(more, q) by {
                    assert(before.has(t, q, row) <==> start.has(t, q, row) && !named(some, q));
                }
            }
        }
        i += 1;
    }
    assert(names@.take(names@.len() as int) =~= names@);
}

/// Whether a store is another one after a row of a relation was added and merged.
pub open spec fn row_inserted<S: Contents>(s: &S, rel: Seq<char>, row: Seq<Val>, after: &S) -> bool {
    &&& forall|q: Seq<char>| #[trigger] after.knows(q) <==> s.knows(q) || q == rel
    &&& forall|t: Tier, q: Seq<char>, x: Seq<Val>| #[trigger]
        after.has(t, q, x) <==> merged(
            s.knows(q) || q == rel,
            t,
            s.has(Tier::Stable, q, x),
            s.has(Tier::Delta, q, x),
            gained(s, rel, seq![row], Tier::NextDelta, q, x),
        )
}

/// Whether a store is another one after a row of a relation was removed, which is in it at most
/// once.
pub open spec fn row_retracted<S: Contents>(s: &S, rel: Seq<char>, row: Seq<Val>, after: &S) -> bool {
    forall|t: Tier, q: Seq<char>, x: Seq<Val>| #[trigger]
        after.has(t, q, x) <==> s.has(t, q, x) && (q != rel || x != row)
}

impl<S: Store> DatabaseState<S> {
    /// Everything but the facts.
    pub open spec fn same_program(&self, other: &Self) -> bool {
        &&& self.edb_relations == other.edb_relations
        &&& self.idb_relations == other.idb_relations
        &&& self.edb_fingerprint == other.edb_fingerprint
        &&& self.program_hash == other.program_hash
    }

    /// All rows of a relation.
    pub fn query(&self, relation: &str) -> (r: Result<Vec<Row>, StoreError>)
        requires
            self.store.valid(),
        ensures
            r matches Ok(out) ==> forall|row: Seq<Val>| #[trigger]
                row_vals(out@).contains(row) <==> visible(&self.store, relation@, row),
            !self.store.knows(relation@) ==> r is Err,
            self.store.roomy(0) && self.store.knows(relation@) ==> r is Ok,
    {
        self.store.scan(relation)
    }

    /// Adds a row to a relation, which is made known. Whether derived facts have to be computed
    /// again: they do if the relation is one of base facts.
    pub fn insert(&mut self, relation: &str, tuple: Row) -> (r: Result<bool, StoreError>)
        requires
            old(self).store.valid(),
        ensures
            final(self).store.valid(),
            final(self).same_program(old(self)),
            r matches Ok(b) ==> b == named(old(self).edb_relations@, relation@),
            old(self).store.roomy(1) ==> r is Ok && row_inserted(
                &old(self).store,
                relation@,
                vals(tuple@),
                &final(self).store,
            ),
            old(self).store.roomy(1) && old(self).store.once() ==> final(self).store.once(),
    {
        let ghost start = self.store;
        let ghost vs = vals(tuple@);
        self.store.create_relation(relation);
        let ghost made = self.store;
        match self.store.insert(relation, tuple) {
            Err(e) => {
                return Err(e);
            },
            Ok(_) => {},
        }
        let ghost mid = self.store;
        proof {
            if start.roomy(1) {
                assert(made.roomy(0 + 1));
                assert(mid.roomy(0));
            }
            assert forall|x: Seq<Val>| #[trigger] seq![vs].contains(x) <==> x == vs by {
                assert(seq![vs][0] == vs);
            }
        }
        self.store.merge_deltas();
        proof {
            if start.roomy(1) {
                assert forall|t: Tier, q: Seq<char>, x: Seq<Val>| #[trigger] self.store.has(t, q, x) <==> merged(
                    start.knows(q) || q == relation@,
                    t,
                    start.has(Tier::Stable, q, x),
                    start.has(Tier::Delta, q, x),
                    gained(&start, relation@, seq![vs], Tier::NextDelta, q, x),
                ) by {
                    assert(self.store.has(t, q, x) <==> merged_has(&mid, t, q, x));
                    assert(mid.knows(q) == made.knows(q));
                    assert(made.has(Tier::Stable, q, x) == start.has(Tier::Stable, q, x));
                    assert(made.has(Tier::Delta, q, x) == start.has(Tier::Delta, q, x));
                    assert(made.has(Tier::NextDelta, q, x) == start.has(Tier::NextDelta, q, x));
                }
                assert forall|q: Seq<char>| #[trigger] self.store.knows(q) <==> start.knows(q) || q == relation@ by {
                    assert(mid.knows(q) == made.knows(q));
                }
            }
        }
        Ok(contains_name(&self.edb_relations, relation))
    }

    /// Removes a row. Whether derived facts have to be computed again.
    pub fn retract(&mut self, relation: &str, tuple: &Row) -> (r: Result<bool, StoreError>)
        requires
            old(self).store.valid(),
        ensures
            final(self).store.valid(),
            final(self).same_program(old(self)),
            r matches Ok(b) ==> b == named(old(self).edb_relations@, relation@),
            old(self).store.roomy(0) ==> r is Ok,
            r is Ok && old(self).store.once() ==> row_retracted(
                &old(self).store,
                relation@,
                vals(tuple@),
                &final(self).store,
            ),
            old(self).store.once() ==> final(self).store.once(),
    {
        let ghost start = self.store;
        match self.store.retract(relation, tuple) {
            Err(e) => {
                return Err(e);
            },
            Ok(_) => {},
        }
        proof {
            let vs = vals(tuple@);
            if start.once() {
                assert forall|t: Tier, q: Seq<char>, x: Seq<Val>| #[trigger] self.store.has(t, q, x) <==> start.has(
                    t,
                    q,
                    x,
                ) && (q != relation@ || x != vs) by {
                    if q == relation@ && x == vs {
                        assert(!present(&self.store, relation@, vs));
                    }
                }
            }
        }
        Ok(contains_name(&self.edb_relations, relation))
    }

    /// Removes all derived facts, before they are computed again.
    pub fn clear_derived(&mut self)
        requires
            old(self).store.valid(),
        ensures
            final(self).store.valid(),
            final(self).same_program(old(self)),
            forall|q: Seq<char>| #[trigger] final(self).store.knows(q) == old(self).store.knows(q),
            forall|n: nat| old(self).store.roomy(n) ==> #[trigger] final(self).store.roomy(n),
            old(self).store.once() ==> final(self).store.once(),
            old(self).store.roomy(0) ==> forall|t: Tier, q: Seq<char>, row: Seq<Val>| #[trigger]
                final(self).store.has(t, q, row) <==> old(self).store.has(t, q, row) && !named(
                    old(self).idb_relations@,
                    q,
                ),
    {
        clear_relations(&mut self.store, &self.idb_relations);
    }

    /// Removes all facts of relations that are known, before they are loaded again.
    pub fn clear_all(&mut self)
        requires
            old(self).store.valid(),
        ensures
            final(self).store.valid(),
            final(self).same_program(old(self)),
            forall|q: Seq<char>| #[trigger] final(self).store.knows(q) == old(self).store.knows(q),
            forall|n: nat| old(self).store.roomy(n) ==> #[trigger] final(self).store.roomy(n),
            old(self).store.once() ==> final(self).store.once(),
            old(self).store.roomy(0) ==> forall|t: Tier, q: Seq<char>, row: Seq<Val>| #[trigger]
                final(self).store.has(t, q, row) <==> old(self).store.has(t, q, row)
                    && !old(self).store.knows(q),
    {
        let ghost start = self.store;
        let names = self.store.relation_names();
        clear_relations(&mut self.store, &names);
        proof {
            if start.roomy(0) {
                assert forall|t: Tier, q: Seq<char>, row: Seq<Val>| #[trigger]
                    self.store.has(t, q, row) <==> start.has(t, q, row) && !start.knows(q) by {
                    assert(named(names@, q) <==> start.knows(q));
                }
            }
        }
    }
}

/// Removing a row that was added leaves what was there before: the rows that are in the
/// relations are the same.
pub proof fn retracting_undoes_inserting<S: Contents>(
    before: &S,
    rel: Seq<char>,
    row: Seq<Val>,
    with: &S,
    after: &S,
    q: Seq<char>,
    x: Seq<Val>,
)
    requires
        !present(before, rel, row),
        row_inserted(before, rel, row, with),
        row_retracted(with, rel, row, after),
    ensures
        present(after, q, x) <==> present(before, q, x),
{
    assert forall|y: Seq<Val>| #[trigger] seq![row].contains(y) <==> y == row by {
        assert(seq![row][0] == row);
    }
    assert(with.has(Tier::Stable, q, x) == with.has(Tier::Stable, q, x));
    assert(with.has(Tier::Delta, q, x) == with.has(Tier::Delta, q, x));
    assert(with.has(Tier::NextDelta, q, x) == with.has(Tier::NextDelta, q, x));
    assert(after.has(Tier::Stable, q, x) == after.has(Tier::Stable, q, x));
    assert(after.has(Tier::Delta, q, x) == after.has(Tier::Delta, q, x));
    assert(after.has(Tier::NextDelta, q, x) == after.has(Tier::NextDelta, q, x));
}

/// A row that was added is found.
pub proof fn an_inserted_row_is_found<S: Contents>(before: &S, rel: Seq<char>, row: Seq<Val>, after: &S)
    requires
        row_inserted(before, rel, row, after),
    ensures
        after.knows(rel),
        visible(after, rel, row),
{
    assert(seq![row][0] == row);
    assert(after.has(Tier::Stable, rel, row) == after.has(Tier::Stable, rel, row));
    assert(after.has(Tier::Delta, rel, row) == after.has(Tier::Delta, rel, row));
}

} // verus!
