//! Strings as sequences of characters.
use vstd::prelude::*;

verus! {

/// `str`'s `==`: the two texts hold the same characters.
#[verifier::external_body]
pub(crate) fn str_eq(a: &str, b: &str) -> (r: bool)
    ensures
        r == (a@ == b@),
{
    a == b
}

/// `String::push`: the character is appended.
#[verifier::external_body]
pub(crate) fn push_char(s: &mut String, c: char)
    ensures
        final(s)@ == old(s)@.push(c),
{
    s.push(c);
}

/// The view of an optional text.
pub open spec fn opt_text(s: Option<&str>) -> Option<Seq<char>> {
    match s {
        Some(t) => Some(t@),
        None => None,
    }
}

/// The digit character for `d`.
pub open spec fn digit(d: nat) -> char {
    (48 + d % 10) as u8 as char
}

/// `n` in decimal, without leading zeros.
pub open spec fn decimal(n: nat) -> Seq<char>
    decreases n,
{
    if n < 10 {
        seq![digit(n)]
    } else {
        decimal(n / 10).push(digit(n))
    }
}

/// Appends `n` in decimal.
pub fn push_decimal(s: &mut String, n: u64)
    ensures
        final(s)@ == old(s)@ + decimal(n as nat),
    decreases n,
{
    let ghost before = s@;
    if n >= 10 {
        push_decimal(s, n / 10);
    }
    let d: u8 = (n % 10) as u8;
    let c: char = (48u8 + d) as char;
    push_char(s, c);
    assert(s@ =~= before + decimal(n as nat));
}

/// Whether `s` begins with `p`.
pub fn starts_with(s: &str, p: &str) -> (r: bool)
    ensures
        r == p@.is_prefix_of(s@),
{
    let n = p.unicode_len();
    if s.unicode_len() < n {
        return false;
    }
    let head = s.substring_char(0, n);
    let r = str_eq(head, p);
    assert(r == p@.is_prefix_of(s@)) by {
        assert(head@ =~= s@.subrange(0, n as int));
    }
    r
}

/// The last `width` decimal digits of `n`, with leading zeros.
pub open spec fn digits(n: nat, width: nat) -> Seq<char>
    decreases width,
{
    if width == 0 {
        Seq::empty()
    } else {
        digits(n / 10, (width - 1) as nat).push(digit(n))
    }
}

/// Appends the last `width` decimal digits of `n`.
pub(crate) fn push_digits(s: &mut String, n: u64, width: usize)
    ensures
        final(s)@ == old(s)@ + digits(n as nat, width as nat),
    decreases width,
{
    let ghost before = s@;
    if width > 0 {
        push_digits(s, n / 10, width - 1);
        let d: u8 = (n % 10) as u8;
        let c: char = (48u8 + d) as char;
        push_char(s, c);
    }
    assert(s@ =~= before + digits(n as nat, width as nat));
}

/// The text without zeros at its end.
pub open spec fn without_zeros(s: Seq<char>) -> Seq<char>
    decreases s.len(),
{
    if s.len() > 0 && s.last() == '0' {
        without_zeros(s.drop_last())
    } else {
        s
    }
}

/// Appends the last `width` decimal digits of `n`, without zeros at the end.
pub(crate) fn push_fraction(s: &mut String, n: u64, width: usize)
    ensures
        final(s)@ == old(s)@ + without_zeros(digits(n as nat, width as nat)),
    decreases width,
{
    let ghost before = s@;
    let ghost all = digits(n as nat, width as nat);
    if width > 0 && n % 10 == 0 {
        assert(all.drop_last() =~= digits((n / 10) as nat, (width - 1) as nat));
        push_fraction(s, n / 10, width - 1);
    } else {
        push_digits(s, n, width);
    }
}

} // verus!
