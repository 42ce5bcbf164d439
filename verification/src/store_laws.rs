//! What holds of a store over any number of rounds.
use vstd::prelude::*;

use crate::disk_names::Tier;
use crate::store::{present, round_ended, row_collected, visible, Contents};
use crate::tables::StoreError;
use crate::value::Val;

verus! {

/// Whether each of the states comes from the one before it by a merge.
pub open spec fn rounds<S: Contents>(states: Seq<S>) -> bool {
    forall|i: int, j: int|
        #![trigger states[i], states[j]]
        0 <= i && j == i + 1 && j < states.len() ==> round_ended(&states[i], &states[j])
}

/// Any number of merges keeps the relations, their rows and the room for more.
pub proof fn rounds_lose_nothing<S: Contents>(states: Seq<S>, rel: Seq<char>, row: Seq<Val>, n: nat)
    requires
        states.len() > 0,
        rounds(states),
    ensures
        states.last().knows(rel) == states[0].knows(rel),
        present(&states.last(), rel, row) == present(&states[0], rel, row),
        states[0].roomy(n) ==> states.last().roomy(n),
    decreases states.len(),
{
    if states.len() > 1 {
        let before = states.drop_last();
        let k = states.len() - 2;
        assert(rounds(before)) by {
            assert forall|i: int, j: int|
                #![trigger before[i], before[j]]
                0 <= i && j == i + 1 && j < before.len() implies round_ended(&before[i], &before[j]) by {
                assert(round_ended(&states[i], &states[j]));
            }
        }
        rounds_lose_nothing(before, rel, row, n);
        assert(round_ended(&states[k], &states[k + 1]));
        assert(before.last() == states[k]);
        assert(present(&states[k + 1], rel, row) <==> present(&states[k], rel, row));
    }
}

/// A row that was written is refused the second time, whatever number of merges lies between.
pub proof fn a_second_insert_is_refused<S: Contents>(
    before: &S,
    rel: Seq<char>,
    row: Seq<Val>,
    first: Result<bool, StoreError>,
    states: Seq<S>,
    second: Result<bool, StoreError>,
    after: &S,
)
    requires
        row_collected(before, rel, row, first, &states[0]),
        first is Ok,
        states.len() > 0,
        rounds(states),
        row_collected(&states.last(), rel, row, second, after),
    ensures
        second is Ok ==> second == Ok::<bool, StoreError>(false),
        before.roomy(2) ==> second == Ok::<bool, StoreError>(false),
{
    let s = &states[0];
    assert(s.has(Tier::Stable, rel, row) == s.has(Tier::Stable, rel, row));
    assert(s.has(Tier::Delta, rel, row) == s.has(Tier::Delta, rel, row));
    assert(s.has(Tier::NextDelta, rel, row) == s.has(Tier::NextDelta, rel, row));
    assert(present(s, rel, row));
    rounds_lose_nothing(states, rel, row, 1);
    if before.roomy(2) {
        assert(before.roomy(1 + 1));
        assert(s.roomy(1));
    }
}

/// A row that is written after any number of merges is accepted, and it is read once the next
/// merge is done.
pub proof fn a_row_of_any_round_is_read<S: Contents>(
    states: Seq<S>,
    rel: Seq<char>,
    row: Seq<Val>,
    r: Result<bool, StoreError>,
    with: &S,
    after: &S,
)
    requires
        states.len() > 0,
        rounds(states),
        states[0].knows(rel),
        states[0].roomy(1),
        row_collected(&states.last(), rel, row, r, with),
        round_ended(with, after),
    ensures
        r is Ok,
        visible(after, rel, row),
        after.knows(rel),
        after.roomy(0),
{
    rounds_lose_nothing(states, rel, row, 1);
    let s = &states.last();
    assert(s.roomy(0 + 1));
    assert(with.roomy(0));
    assert(with.has(Tier::Stable, rel, row) == with.has(Tier::Stable, rel, row));
    assert(with.has(Tier::Delta, rel, row) == with.has(Tier::Delta, rel, row));
    assert(with.has(Tier::NextDelta, rel, row) == with.has(Tier::NextDelta, rel, row));
    assert(with.knows(rel) == s.knows(rel));
    assert(after.knows(rel) == with.knows(rel));
    assert(after.has(Tier::Stable, rel, row) == after.has(Tier::Stable, rel, row));
    assert(after.has(Tier::Delta, rel, row) == after.has(Tier::Delta, rel, row));
}

} // verus!
