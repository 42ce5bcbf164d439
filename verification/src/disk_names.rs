//! The names of a store's tables.
use vstd::prelude::*;

use crate::text::{decimal, digit};
use crate::text::{push_char, push_decimal};

verus! {

/// Where a row stands: among those that are settled, among the new ones, or among those that
/// are being collected.
#[derive(Debug, Clone, Copy, PartialEq, Eq, Structural)]
pub enum Tier {
    Stable,
    Delta,
    NextDelta,
}

/// The name of a tier.
pub open spec fn tier_text(t: Tier) -> Seq<char> {
    match t {
        Tier::Stable => "stable"@,
        Tier::Delta => "delta"@,
        Tier::NextDelta => "next_delta"@,
    }
}

impl Tier {
    /// The name of the tier.
    pub fn name(self) -> (r: &'static str)
        ensures
            r@ == tier_text(self),
    {
        match self {
            Tier::Stable => "stable",
            Tier::Delta => "delta",
            Tier::NextDelta => "next_delta",
        }
    }
}

/// The table of the rows of a relation in a tier.
pub open spec fn primary_name(tier: Seq<char>, relation: Seq<char>) -> Seq<char> {
    tier + seq![':'] + relation
}

/// What the tables of the indices of a relation in a tier begin with.
pub open spec fn index_prefix(tier: Seq<char>, relation: Seq<char>) -> Seq<char> {
    "idx_"@ + tier + seq![':'] + relation + seq![':']
}

/// The table of the index of a column of a relation in a tier.
pub open spec fn index_name(tier: Seq<char>, relation: Seq<char>, col: nat) -> Seq<char> {
    index_prefix(tier, relation) + decimal(col)
}

/// The table of the rows of a relation in a tier, such as `stable:edge`.
pub fn primary_table_for(tier: &str, relation: &str) -> (r: String)
    ensures
        r@ == primary_name(tier@, relation@),
{
    let mut s = tier.to_owned();
    push_char(&mut s, ':');
    s.concat(relation)
}

/// The table of the index of a column of a relation in a tier.
pub fn index_table(tier: &str, relation: &str, col: usize) -> (r: String)
    ensures
        r@ == index_name(tier@, relation@, col as nat),
{
    let mut s = index_table_prefix(tier, relation);
    push_decimal(&mut s, col as u64);
    s
}

/// What the tables of the indices of a relation in a tier begin with.
pub(crate) fn index_table_prefix(tier: &str, relation: &str) -> (r: String)
    ensures
        r@ == index_prefix(tier@, relation@),
{
    let mut s = "idx_".to_owned().concat(tier);
    push_char(&mut s, ':');
    s = s.concat(relation);
    push_char(&mut s, ':');
    s
}

/// Texts split at the first colon.
proof fn lemma_first_colon(a: Seq<char>, b: Seq<char>, c: Seq<char>, d: Seq<char>)
    requires
        !a.contains(':'),
        !c.contains(':'),
        a + seq![':'] + b == c + seq![':'] + d,
    ensures
        a == c,
        b == d,
{
    let s = a + seq![':'] + b;
    assert(s.len() == (c + seq![':'] + d).len());
    assert(s[a.len() as int] == ':');
    assert(s[c.len() as int] == ':') by {
        assert((c + seq![':'] + d)[c.len() as int] == ':');
    }
    if a.len() < c.len() {
        assert(c[a.len() as int] == s[a.len() as int]);
        assert(c.contains(':'));
    } else if c.len() < a.len() {
        assert(a[c.len() as int] == s[c.len() as int]);
        assert(a.contains(':'));
    }
    assert forall|i: int| 0 <= i < a.len() implies a[i] == c[i] by {
        assert(s[i] == a[i]);
        assert((c + seq![':'] + d)[i] == c[i]);
    }
    assert(a =~= c);
    assert forall|i: int| 0 <= i < b.len() implies b[i] == d[i] by {
        assert(s[a.len() + 1 + i] == b[i]);
        assert((c + seq![':'] + d)[c.len() + 1 + i] == d[i]);
    }
    assert(b =~= d);
}

/// Texts split at the last colon.
pub(crate) proof fn lemma_last_colon(a: Seq<char>, b: Seq<char>, c: Seq<char>, d: Seq<char>)
    requires
        !b.contains(':'),
        !d.contains(':'),
        a + seq![':'] + b == c + seq![':'] + d,
    ensures
        a == c,
        b == d,
{
    let s = a + seq![':'] + b;
    let t = c + seq![':'] + d;
    assert(s.len() == t.len());
    assert(s[a.len() as int] == ':');
    assert(t[c.len() as int] == ':');
    if a.len() < c.len() {
        assert(b[c.len() - a.len() - 1] == s[c.len() as int]);
        assert(b.contains(':'));
    } else if c.len() < a.len() {
        assert(d[a.len() - c.len() - 1] == t[a.len() as int]);
        assert(d.contains(':'));
    }
    assert forall|i: int| 0 <= i < a.len() implies a[i] == c[i] by {
        assert(s[i] == a[i]);
        assert(t[i] == c[i]);
    }
    assert(a =~= c);
    assert forall|i: int| 0 <= i < b.len() implies b[i] == d[i] by {
        assert(s[a.len() + 1 + i] == b[i]);
        assert(t[c.len() + 1 + i] == d[i]);
    }
    assert(b =~= d);
}

/// No tier's name holds a colon, and no two are the same.
proof fn lemma_tiers(t: Tier, u: Tier)
    ensures
        !tier_text(t).contains(':'),
        tier_text(t) == tier_text(u) ==> t == u,
{
    reveal_strlit("stable");
    reveal_strlit("delta");
    reveal_strlit("next_delta");
    assert("stable"@.len() == 6);
    assert("delta"@.len() == 5);
    assert("next_delta"@.len() == 10);
}

/// A number holds no colon.
pub(crate) proof fn lemma_decimal_plain(n: nat)
    ensures
        !decimal(n).contains(':'),
        decimal(n).len() > 0,
    decreases n,
{
    assert(digit(n) != ':');
    if n >= 10 {
        lemma_decimal_plain(n / 10);
        assert forall|i: int| 0 <= i < decimal(n).len() implies decimal(n)[i] != ':' by {
            if i < decimal(n).len() - 1 {
                assert(decimal(n / 10)[i] == decimal(n)[i]);
                assert(decimal(n / 10).contains(decimal(n / 10)[i]));
            }
        }
    }
}

/// No two numbers have the same digits.
pub(crate) proof fn lemma_decimal_injective(m: nat, n: nat)
    requires
        decimal(m) == decimal(n),
    ensures
        m == n,
    decreases m,
{
    assert(decimal(m).last() == digit(m));
    assert(decimal(n).last() == digit(n));
    assert(m % 10 == n % 10);
    if m >= 10 {
        lemma_decimal_plain(m / 10);
        if n < 10 {
            assert(decimal(m).len() >= 2);
            assert(false);
        }
        assert(decimal(m).drop_last() =~= decimal(m / 10));
        assert(decimal(n).drop_last() =~= decimal(n / 10));
        lemma_decimal_injective(m / 10, n / 10);
    } else if n >= 10 {
        lemma_decimal_plain(n / 10);
        assert(decimal(n).len() >= 2);
        assert(false);
    }
}

/// No two relations in tiers share a table of rows.
pub proof fn row_tables_are_distinct(t: Tier, r: Seq<char>, u: Tier, q: Seq<char>)
    requires
        primary_name(tier_text(t), r) == primary_name(tier_text(u), q),
    ensures
        t == u,
        r == q,
{
    lemma_tiers(t, u);
    lemma_tiers(u, t);
    lemma_first_colon(tier_text(t), r, tier_text(u), q);
}

/// A name that begins as the tables of the indices of a relation do, and holds no colon after
/// that, is of no other relation.
pub(crate) proof fn lemma_index_prefix(t: Tier, r: Seq<char>, rest: Seq<char>, u: Tier, q: Seq<char>, m: nat)
    requires
        !rest.contains(':'),
        index_prefix(tier_text(t), r) + rest == index_name(tier_text(u), q, m),
    ensures
        t == u,
        r == q,
        rest == decimal(m),
{
    let a = "idx_"@ + tier_text(t) + seq![':'] + r;
    let b = "idx_"@ + tier_text(u) + seq![':'] + q;
    lemma_decimal_plain(m);
    assert(index_prefix(tier_text(t), r) + rest =~= a + seq![':'] + rest);
    assert(index_name(tier_text(u), q, m) =~= b + seq![':'] + decimal(m));
    lemma_last_colon(a, rest, b, decimal(m));
    let x = tier_text(t) + seq![':'] + r;
    let y = tier_text(u) + seq![':'] + q;
    assert(x =~= a.skip("idx_"@.len() as int));
    assert(y =~= b.skip("idx_"@.len() as int));
    lemma_tiers(t, u);
    lemma_tiers(u, t);
    lemma_first_colon(tier_text(t), r, tier_text(u), q);
}

/// No two columns of relations in tiers share a table of index entries.
pub proof fn index_tables_are_distinct(t: Tier, r: Seq<char>, n: nat, u: Tier, q: Seq<char>, m: nat)
    requires
        index_name(tier_text(t), r, n) == index_name(tier_text(u), q, m),
    ensures
        t == u,
        r == q,
        n == m,
{
    lemma_decimal_plain(n);
    lemma_index_prefix(t, r, decimal(n), u, q, m);
    lemma_decimal_injective(n, m);
}

} // verus!
