//! How many rows a relation has in a tier.
use vstd::prelude::*;

use crate::disk_model::has_row;
use crate::disk_names::Tier;
use crate::tables::{ascending_ids, Db};

verus! {

/// How many rows with numbers below `n` a relation has in a tier.
pub open spec fn count_below(db: Db, t: Tier, rel: Seq<char>, n: nat) -> nat
    decreases n,
{
    if n == 0 {
        0
    } else {
        count_below(db, t, rel, (n - 1) as nat) + if has_row(db, t, rel, (n - 1) as u64) {
            1nat
        } else {
            0
        }
    }
}

/// How many rows a relation has in a tier.
pub open spec fn count(db: Db, t: Tier, rel: Seq<char>) -> nat {
    count_below(db, t, rel, (u64::MAX + 1) as nat)
}

/// Where there are no rows but those of other tables, there are no more.
pub(crate) proof fn lemma_count_fewer(db: Db, d: Db, t: Tier, rel: Seq<char>, n: nat)
    requires
        n <= u64::MAX + 1,
        forall|id: u64| #[trigger] has_row(d, t, rel, id) ==> has_row(db, t, rel, id),
    ensures
        count_below(d, t, rel, n) <= count_below(db, t, rel, n),
    decreases n,
{
    if n > 0 {
        lemma_count_fewer(db, d, t, rel, (n - 1) as nat);
        assert(has_row(d, t, rel, (n - 1) as u64) ==> has_row(db, t, rel, (n - 1) as u64));
    }
}

/// Rows under numbers from `start` on that were not in use are as many more.
pub(crate) proof fn lemma_count_more(
    db: Db,
    d: Db,
    t: Tier,
    rel: Seq<char>,
    start: u64,
    more: nat,
    n: nat,
)
    requires
        n <= u64::MAX + 1,
        forall|id: u64| #[trigger]
            has_row(d, t, rel, id) ==> has_row(db, t, rel, id) || start <= id < start + more,
    ensures
        count_below(d, t, rel, n) <= count_below(db, t, rel, n) + if n <= start {
            0
        } else if n >= start + more {
            more as int
        } else {
            n - start
        },
    decreases n,
{
    if n > 0 {
        lemma_count_more(db, d, t, rel, start, more, (n - 1) as nat);
        let id = (n - 1) as u64;
        assert(has_row(d, t, rel, id) ==> has_row(db, t, rel, id) || start <= id < start + more);
    }
}

/// Where there is no row, there are none to count.
pub(crate) proof fn lemma_count_none(db: Db, t: Tier, rel: Seq<char>)
    requires
        forall|id: u64| !#[trigger] has_row(db, t, rel, id),
    ensures
        count(db, t, rel) == 0,
{
    lemma_none_below(db, t, rel, (u64::MAX + 1) as nat);
}

proof fn lemma_none_below(db: Db, t: Tier, rel: Seq<char>, n: nat)
    requires
        forall|id: u64| !#[trigger] has_row(db, t, rel, id),
    ensures
        count_below(db, t, rel, n) == 0,
    decreases n,
{
    if n > 0 {
        lemma_none_below(db, t, rel, (n - 1) as nat);
    }
}

proof fn lemma_count_grows(db: Db, t: Tier, rel: Seq<char>, m: nat, n: nat)
    requires
        m <= n,
    ensures
        count_below(db, t, rel, m) <= count_below(db, t, rel, n),
    decreases n,
{
    if m < n {
        lemma_count_grows(db, t, rel, m, (n - 1) as nat);
    }
}

/// There are at least as many rows as are listed.
pub(crate) proof fn lemma_count_listed(db: Db, t: Tier, rel: Seq<char>, ids: Seq<u64>, k: int)
    requires
        ascending_ids(ids),
        forall|i: int| 0 <= i < ids.len() ==> has_row(db, t, rel, #[trigger] ids[i]),
        0 < k <= ids.len(),
    ensures
        count_below(db, t, rel, (ids[k - 1] + 1) as nat) >= k,
        count(db, t, rel) >= k,
    decreases k,
{
    let last = ids[k - 1];
    if k > 1 {
        lemma_count_listed(db, t, rel, ids, k - 1);
        assert(ids[k - 2] < ids[k - 1]);
        lemma_count_grows(db, t, rel, (ids[k - 2] + 1) as nat, last as nat);
    }
    assert(has_row(db, t, rel, ids[k - 1]));
    assert(count_below(db, t, rel, (last + 1) as nat) == count_below(db, t, rel, last as nat) + 1);
    lemma_count_grows(db, t, rel, (last + 1) as nat, (u64::MAX + 1) as nat);
}

} // verus!
