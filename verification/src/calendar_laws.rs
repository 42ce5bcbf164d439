//! The texts of durations and of points in time can be read back, so that different
//! ones have different texts.
use vstd::prelude::*;

use crate::calendar::{
    a_time_has_its_text, amount_text, days_before_month, days_before_year, duration_text, instant_text,
    is_date, lemma_four_digits, span_text, time_text,
};
use crate::calendar::{HOUR, MICROSECOND, MILLISECOND, MINUTE, SECOND};
use crate::text::{decimal, digit, digits, without_zeros};

verus! {

/// A power of ten.
pub open spec fn pow10(n: nat) -> nat
    decreases n,
{
    if n == 0 {
        1
    } else {
        10 * pow10((n - 1) as nat)
    }
}

/// What a digit stands for.
pub open spec fn digit_value(c: char) -> Option<nat> {
    if '0' <= c <= '9' {
        Some((c as int - '0' as int) as nat)
    } else {
        None
    }
}

/// A unit of time, in nanoseconds.
pub open spec fn unit_nanos(u: Seq<char>) -> Option<nat> {
    if u == seq!['h'] {
        Some(HOUR as nat)
    } else if u == seq!['m'] {
        Some(MINUTE as nat)
    } else if u == seq!['s'] {
        Some(SECOND as nat)
    } else if u == seq!['m', 's'] {
        Some(MILLISECOND as nat)
    } else if u == seq!['\u{b5}', 's'] {
        Some(MICROSECOND as nat)
    } else if u == seq!['n', 's'] {
        Some(1)
    } else {
        None
    }
}

/// How far a duration has been read: what the terms before the last come to, and of the
/// last its digits, how many of them stand behind a point, and its unit.
pub struct Reading {
    pub total: nat,
    pub begun: bool,
    pub number: nat,
    pub places: Option<nat>,
    pub unit: Seq<char>,
}

/// Nothing has been read.
pub open spec fn nothing_read() -> Reading {
    Reading { total: 0, begun: false, number: 0, places: None, unit: Seq::empty() }
}

/// What has been read comes to, where the last term has its unit.
pub open spec fn come_to(r: Reading) -> Option<nat> {
    match unit_nanos(r.unit) {
        Some(u) => Some(
            r.total + r.number * u / match r.places {
                Some(p) => pow10(p),
                None => 1,
            },
        ),
        None => None,
    }
}

/// Reads one more character.
pub open spec fn read_one(r: Reading, c: char) -> Option<Reading> {
    match digit_value(c) {
        Some(d) => if r.unit.len() == 0 {
            Some(
                Reading {
                    begun: true,
                    number: 10 * r.number + d,
                    places: match r.places {
                        Some(p) => Some(p + 1),
                        None => None,
                    },
                    ..r
                },
            )
        } else {
            match come_to(r) {
                Some(total) => Some(
                    Reading { total, begun: true, number: d, places: None, unit: Seq::empty() },
                ),
                None => None,
            }
        },
        None => if !r.begun {
            None
        } else if c == '.' {
            if r.unit.len() == 0 && r.places is None {
                Some(Reading { places: Some(0), ..r })
            } else {
                None
            }
        } else {
            Some(Reading { unit: r.unit.push(c), ..r })
        },
    }
}

/// Reads a sum of terms such as `1h30m0s` or `2.5s`.
pub open spec fn read_terms(s: Seq<char>) -> Option<Reading>
    decreases s.len(),
{
    if s.len() == 0 {
        Some(nothing_read())
    } else {
        match read_terms(s.drop_last()) {
            Some(r) => read_one(r, s.last()),
            None => None,
        }
    }
}

/// The nanoseconds that a sum of terms comes to.
pub open spec fn read_span(s: Seq<char>) -> Option<nat> {
    match read_terms(s) {
        Some(r) => come_to(r),
        None => None,
    }
}

/// The nanoseconds that the text of a duration stands for: a sum of terms, or the
/// opposite of one.
pub open spec fn read_duration(s: Seq<char>) -> Option<int> {
    if s.len() > 0 && s[0] == '-' {
        match read_span(s.skip(1)) {
            Some(n) => Some(-(n as int)),
            None => None,
        }
    } else {
        match read_span(s) {
            Some(n) => Some(n as int),
            None => None,
        }
    }
}

proof fn lemma_digit(d: nat)
    ensures
        digit_value(digit(d)) == Some(d % 10),
        digit(d) == '0' <==> d % 10 == 0,
        digit(d) != '-',
{
    let e = d % 10;
    assert(e == 0 || e == 1 || e == 2 || e == 3 || e == 4 || e == 5 || e == 6 || e == 7 || e == 8 || e
        == 9);
}

proof fn lemma_pow10(a: nat, b: nat)
    ensures
        pow10(a + b) == pow10(a) * pow10(b),
        pow10(a) > 0,
    decreases a,
{
    if a > 0 {
        lemma_pow10((a - 1) as nat, b);
        let p = pow10((a - 1) as nat);
        let q = pow10(b);
        assert((10 * p) * q == 10 * (p * q)) by (nonlinear_arith);
        assert(pow10(a) == 10 * p);
        assert(pow10(a + b) == 10 * pow10((a + b - 1) as nat));
        assert((a + b - 1) as nat == (a - 1) as nat + b);
    } else {
        assert(pow10(0) == 1);
    }
}

/// A term may begin: nothing has been read, or whole terms that come to `total`.
spec fn at_term(r: Reading, total: nat) -> bool {
    (r == nothing_read() && total == 0) || (r.unit.len() > 0 && come_to(r) == Some(total))
}

/// The start of a term whose number is `n` so far.
spec fn in_number(total: nat, n: nat, places: Option<nat>) -> Reading {
    Reading { total, begun: true, number: n, places, unit: Seq::empty() }
}

proof fn lemma_read_push(s: Seq<char>, c: char)
    ensures
        read_terms(s.push(c)) == match read_terms(s) {
            Some(r) => read_one(r, c),
            None => None,
        },
{
    assert(s.push(c).drop_last() =~= s);
}

/// A number is read.
proof fn lemma_read_decimal(s: Seq<char>, r: Reading, total: nat, n: nat)
    requires
        read_terms(s) == Some(r),
        at_term(r, total),
    ensures
        read_terms(s + decimal(n)) == Some(in_number(total, n, None)),
    decreases n,
{
    lemma_digit(n);
    if n < 10 {
        assert(s + decimal(n) =~= s.push(digit(n)));
        lemma_read_push(s, digit(n));
        assert(read_one(r, digit(n)).unwrap().unit =~= Seq::<char>::empty());
    } else {
        lemma_read_decimal(s, r, total, n / 10);
        assert(s + decimal(n) =~= (s + decimal(n / 10)).push(digit(n)));
        lemma_read_push(s + decimal(n / 10), digit(n));
    }
}

/// Digits behind the point are read.
proof fn lemma_read_places(s: Seq<char>, total: nat, whole: nat, f: nat, width: nat)
    requires
        read_terms(s) == Some(in_number(total, whole, Some(0))),
        f < pow10(width),
    ensures
        read_terms(s + digits(f, width)) == Some(
            in_number(total, whole * pow10(width) + f, Some(width)),
        ),
    decreases width,
{
    if width == 0 {
        assert(s + digits(f, width) =~= s);
        assert(whole * 1 == whole) by (nonlinear_arith);
        assert(pow10(0) == 1);
    } else {
        let w = (width - 1) as nat;
        lemma_digit(f);
        lemma_read_places(s, total, whole, f / 10, w);
        assert(s + digits(f, width) =~= (s + digits(f / 10, w)).push(digit(f)));
        lemma_read_push(s + digits(f / 10, w), digit(f));
        let p = pow10(w);
        assert(10 * (whole * p + f / 10) + f % 10 == whole * (10 * p) + f) by (nonlinear_arith);
    }
}

/// What is left of digits without the zeros at their end.
proof fn lemma_trimmed(f: nat, width: nat) -> (k: nat)
    requires
        0 < f < pow10(width),
    ensures
        k < width,
        (f / pow10(k)) * pow10(k) == f,
        0 < f / pow10(k) < pow10((width - k) as nat),
        (f / pow10(k)) % 10 != 0,
        without_zeros(digits(f, width)) == digits(f / pow10(k), (width - k) as nat),
    decreases width,
{
    assert(pow10(0) == 1);
    let w = (width - 1) as nat;
    lemma_digit(f);
    let all = digits(f, width);
    assert(all.last() == digit(f));
    assert(all.drop_last() =~= digits(f / 10, w));
    if f % 10 == 0 {
        let j = lemma_trimmed(f / 10, w);
        let p = pow10(j);
        let q = (f / 10) / p;
        lemma_pow10(j, 0);
        assert(pow10(j + 1) == 10 * p);
        assert(q * (10 * p) == f) by (nonlinear_arith)
            requires
                q * p == f / 10,
                f % 10 == 0,
        ;
        assert(f / (10 * p) == q) by {
            vstd::arithmetic::div_mod::lemma_div_multiples_vanish(q as int, (10 * p) as int);
            vstd::arithmetic::mul::lemma_mul_is_commutative(q as int, (10 * p) as int);
        }
        j + 1
    } else {
        assert(f / 1 == f);
        assert(f * 1 == f);
        0
    }
}

/// An amount is read: the number of units that it comes to.
proof fn lemma_read_amount(s: Seq<char>, r: Reading, total: nat, n: nat, width: nat) -> (t: Reading)
    requires
        read_terms(s) == Some(r),
        at_term(r, total),
    ensures
        read_terms(s + amount_text(n, pow10(width), width)) == Some(t),
        t.total == total,
        t.begun,
        t.unit.len() == 0,
        t.number * pow10(width) / (match t.places {
            Some(p) => pow10(p),
            None => 1,
        }) == n,
{
    let unit = pow10(width);
    lemma_pow10(width, 0);
    let whole = n / unit;
    lemma_read_decimal(s, r, total, whole);
    vstd::arithmetic::div_mod::lemma_fundamental_div_mod(n as int, unit as int);
    if n % unit == 0 {
        let t = in_number(total, whole, None);
        assert(whole * unit == n) by (nonlinear_arith)
            requires
                n == unit * whole + 0,
        ;
        t
    } else {
        let f = n % unit;
        let k = lemma_trimmed(f, width);
        let w = (width - k) as nat;
        let g = f / pow10(k);
        let a = s + decimal(whole);
        assert(digit_value('.') is None);
        lemma_read_push(a, '.');
        let b = a.push('.');
        lemma_read_places(b, total, whole, g, w);
        assert(s + amount_text(n, unit, width) =~= b + digits(g, w));
        let t = in_number(total, whole * pow10(w) + g, Some(w));
        lemma_pow10(w, k);
        assert(w + k == width);
        let pw = pow10(w);
        let pk = pow10(k);
        let number = whole * pw + g;
        assert(number * unit == n * pw) by (nonlinear_arith)
            requires
                unit == pw * pk,
                number == whole * pw + g,
                g * pk == f,
                n == unit * whole + f,
        ;
        assert(n * pw / pw == n) by {
            lemma_pow10(w, 0);
            vstd::arithmetic::div_mod::lemma_div_multiples_vanish(n as int, pw as int);
            vstd::arithmetic::mul::lemma_mul_is_commutative(n as int, pw as int);
        }
        t
    }
}

/// A unit of one character is read.
proof fn lemma_read_unit(s: Seq<char>, r: Reading, u: char)
    requires
        read_terms(s) == Some(r),
        r.begun,
        r.unit.len() == 0,
        u == 'h' || u == 'm' || u == 's',
    ensures
        read_terms(s + seq![u]) == Some(Reading { unit: seq![u], ..r }),
{
    assert(s + seq![u] =~= s.push(u));
    lemma_read_push(s, u);
    assert(r.unit.push(u) =~= seq![u]);
}

/// A unit of two characters is read.
proof fn lemma_read_part(s: Seq<char>, r: Reading, u: char)
    requires
        read_terms(s) == Some(r),
        r.begun,
        r.unit.len() == 0,
        u == 'm' || u == '\u{b5}' || u == 'n',
    ensures
        read_terms(s + seq![u, 's']) == Some(Reading { unit: seq![u, 's'], ..r }),
{
    assert(s + seq![u, 's'] =~= s.push(u).push('s'));
    lemma_read_push(s, u);
    lemma_read_push(s.push(u), 's');
    assert(r.unit.push(u).push('s') =~= seq![u, 's']);
}

proof fn lemma_units_differ()
    ensures
        unit_nanos(seq!['h']) == Some(HOUR as nat),
        unit_nanos(seq!['m']) == Some(MINUTE as nat),
        unit_nanos(seq!['s']) == Some(SECOND as nat),
        unit_nanos(seq!['m', 's']) == Some(MILLISECOND as nat),
        unit_nanos(seq!['\u{b5}', 's']) == Some(MICROSECOND as nat),
        unit_nanos(seq!['n', 's']) == Some(1nat),
{
    let h = seq!['h'];
    let m = seq!['m'];
    let s = seq!['s'];
    let ms = seq!['m', 's'];
    let us = seq!['\u{b5}', 's'];
    let ns = seq!['n', 's'];
    assert(h[0] == 'h' && m[0] == 'm' && s[0] == 's' && ms[0] == 'm' && us[0] == '\u{b5}' && ns[0] == 'n');
    assert(h.len() == 1 && m.len() == 1 && s.len() == 1 && ms.len() == 2 && us.len() == 2 && ns.len() == 2);
}

proof fn lemma_powers()
    ensures
        pow10(0) == 1,
        pow10(2) == 100,
        pow10(3) == 1_000,
        pow10(4) == 10_000,
        pow10(6) == 1_000_000,
        pow10(9) == 1_000_000_000,
{
    reveal_with_fuel(pow10, 10);
}

/// A whole number of a unit of one character is read, if there is any of it.
proof fn lemma_read_whole(s: Seq<char>, r: Reading, total: nat, n: nat, u: char, nanos: nat) -> (t: Reading)
    requires
        read_terms(s) == Some(r),
        at_term(r, total),
        u == 'h' || u == 'm',
        unit_nanos(seq![u]) == Some(nanos),
    ensures
        read_terms(s + decimal(n) + seq![u]) == Some(t),
        at_term(t, total + n * nanos),
{
    lemma_read_decimal(s, r, total, n);
    let a = in_number(total, n, None);
    lemma_read_unit(s + decimal(n), a, u);
    let t = Reading { unit: seq![u], ..a };
    assert(n * nanos / 1 == n * nanos);
    t
}

proof fn lemma_read_span(n: nat)
    ensures
        read_span(span_text(n)) == Some(n),
{
    lemma_units_differ();
    lemma_powers();
    reveal_strlit("h");
    reveal_strlit("m");
    reveal_strlit("s");
    reveal_strlit("ms");
    reveal_strlit("\u{b5}s");
    reveal_strlit("ns");
    assert("h"@ =~= seq!['h']);
    assert("m"@ =~= seq!['m']);
    assert("s"@ =~= seq!['s']);
    assert("ms"@ =~= seq!['m', 's']);
    assert("\u{b5}s"@ =~= seq!['\u{b5}', 's']);
    assert("ns"@ =~= seq!['n', 's']);
    let none = Seq::<char>::empty();
    let start = nothing_read();
    assert(read_terms(none) == Some(start));
    if n >= SECOND {
        let hours = n / HOUR as nat;
        let minutes = n % HOUR as nat / MINUTE as nat;
        let rest = n % HOUR as nat % MINUTE as nat;
        let h = if hours > 0 {
            decimal(hours) + "h"@
        } else {
            none
        };
        let m = if minutes > 0 || hours > 0 {
            decimal(minutes) + "m"@
        } else {
            none
        };
        let mut r = start;
        let mut total: nat = 0;
        if hours > 0 {
            assert(none + decimal(hours) + seq!['h'] =~= h);
            r = lemma_read_whole(none, start, 0, hours, 'h', HOUR as nat);
            total = hours * HOUR as nat;
        }
        assert(read_terms(h) == Some(r));
        let mut q = r;
        let mut sum = total;
        if minutes > 0 || hours > 0 {
            assert(h + decimal(minutes) + seq!['m'] =~= h + m);
            q = lemma_read_whole(h, r, total, minutes, 'm', MINUTE as nat);
            sum = total + minutes * MINUTE as nat;
        } else {
            assert(h + m =~= h);
        }
        assert(read_terms(h + m) == Some(q));
        let t = lemma_read_amount(h + m, q, sum, rest, 9);
        let body = h + m + amount_text(rest, SECOND as nat, 9);
        lemma_read_unit(body, t, 's');
        assert(span_text(n) =~= body + seq!['s']);
        assert(hours * HOUR as nat + minutes * MINUTE as nat + rest == n);
    } else if n >= MILLISECOND {
        let t = lemma_read_amount(none, start, 0, n, 6);
        let body = none + amount_text(n, MILLISECOND as nat, 6);
        lemma_read_part(body, t, 'm');
        assert(span_text(n) =~= body + seq!['m', 's']);
    } else if n >= MICROSECOND {
        let t = lemma_read_amount(none, start, 0, n, 3);
        let body = none + amount_text(n, MICROSECOND as nat, 3);
        lemma_read_part(body, t, '\u{b5}');
        assert(span_text(n) =~= body + seq!['\u{b5}', 's']);
    } else {
        lemma_read_decimal(none, start, 0, n);
        let body = none + decimal(n);
        lemma_read_part(body, in_number(0, n, None), 'n');
        assert(span_text(n) =~= body + seq!['n', 's']);
        assert(n * 1 / 1 == n);
    }
}

/// A text that can be read begins with a digit.
proof fn lemma_begins_with_digit(s: Seq<char>)
    requires
        read_terms(s) is Some,
        s.len() > 0,
    ensures
        digit_value(s[0]) is Some,
    decreases s.len(),
{
    if s.len() == 1 {
        assert(s.drop_last().len() == 0);
        assert(s.last() == s[0]);
    } else {
        lemma_begins_with_digit(s.drop_last());
        assert(s.drop_last()[0] == s[0]);
    }
}

/// The text of a duration reads back as the duration.
pub proof fn a_duration_reads_back(nanos: int)
    ensures
        read_duration(duration_text(nanos)) == Some(nanos),
{
    let text = duration_text(nanos);
    if nanos == 0 {
        reveal_strlit("0s");
        lemma_units_differ();
        lemma_digit(0);
        let none = Seq::<char>::empty();
        assert(read_terms(none) == Some(nothing_read()));
        lemma_read_decimal(none, nothing_read(), 0, 0);
        lemma_read_unit(none + decimal(0), in_number(0, 0, None), 's');
        assert(none + decimal(0) + seq!['s'] =~= "0s"@) by {
            assert(digit(0) == '0');
        }
        assert(text[0] == '0');
        assert(0 * (SECOND as nat) / 1 == 0);
    } else if nanos < 0 {
        lemma_read_span((-nanos) as nat);
        assert(text.skip(1) =~= span_text((-nanos) as nat));
    } else {
        lemma_read_span(nanos as nat);
        if text.len() == 0 {
            lemma_units_differ();
            assert(unit_nanos(Seq::<char>::empty()) is None) by {
                let e = Seq::<char>::empty();
                assert(e.len() == 0);
                assert(seq!['h'].len() == 1 && seq!['m'].len() == 1 && seq!['s'].len() == 1);
                assert(seq!['m', 's'].len() == 2 && seq!['\u{b5}', 's'].len() == 2 && seq!['n', 's'].len()
                    == 2);
            }
            assert(false);
        }
        lemma_begins_with_digit(text);
    }
}

/// Different durations have different texts.
pub proof fn durations_have_their_own_texts(a: int, b: int)
    requires
        a != b,
    ensures
        duration_text(a) != duration_text(b),
{
    a_duration_reads_back(a);
    a_duration_reads_back(b);
}

/// The fraction of an amount is not empty and does not end in a zero.
pub proof fn a_fraction_is_trimmed(n: nat, width: nat)
    requires
        n % pow10(width) != 0,
    ensures
        without_zeros(digits(n % pow10(width), width)).len() > 0,
        without_zeros(digits(n % pow10(width), width)).last() != '0',
{
    lemma_pow10(width, 0);
    let f = n % pow10(width);
    let k = lemma_trimmed(f, width);
    lemma_digit(f / pow10(k));
    assert(digits(f / pow10(k), (width - k) as nat).last() == digit(f / pow10(k)));
}

/// The number that digits stand for.
pub open spec fn read_number(s: Seq<char>) -> Option<nat>
    decreases s.len(),
{
    if s.len() == 0 {
        Some(0)
    } else {
        match (read_number(s.drop_last()), digit_value(s.last())) {
            (Some(n), Some(d)) => Some(10 * n + d),
            _ => None,
        }
    }
}

/// The number that the digits of a text from `i` up to `j` stand for.
pub open spec fn field(s: Seq<char>, i: int, j: int) -> Option<nat> {
    read_number(s.subrange(i, j))
}

/// The nanoseconds that the rest of a text from its twentieth character on stands for: a
/// point and up to nine digits, the last of which is not zero, or nothing; then a `Z`.
pub open spec fn read_rest(s: Seq<char>) -> Option<nat> {
    let n = s.len() - 1;
    if s.len() < 20 || s[n] != 'Z' {
        None
    } else if n == 19 {
        Some(0)
    } else if s[19] != '.' || n == 20 || n > 29 || s[n - 1] == '0' {
        None
    } else {
        match field(s, 20, n) {
            Some(f) => Some(f * pow10((29 - n) as nat)),
            None => None,
        }
    }
}

/// The point in time that a text such as `2024-01-15T10:30:00.5Z` stands for, in
/// nanoseconds after the start of 1970; `None` if there is no such date or time of day.
pub open spec fn read_time(s: Seq<char>) -> Option<int> {
    if s.len() < 20 || s[4] != '-' || s[7] != '-' || s[10] != 'T' || s[13] != ':' || s[16] != ':' {
        None
    } else {
        match (
            field(s, 0, 4),
            field(s, 5, 7),
            field(s, 8, 10),
            field(s, 11, 13),
            field(s, 14, 16),
            field(s, 17, 19),
            read_rest(s),
        ) {
            (Some(y), Some(m), Some(d), Some(hour), Some(minute), Some(second), Some(nanos)) => {
                let day = days_before_year(y as int) + days_before_month(y as int, m as int) + d - 1;
                if is_date(day, y as int, m as int, d as int) && hour < 24 && minute < 60 && second < 60 {
                    Some(
                        (day * 86400 + hour * 3600 + minute * 60 + second) * 1_000_000_000 + nanos,
                    )
                } else {
                    None
                }
            },
            _ => None,
        }
    }
}

proof fn lemma_read_number(n: nat, width: nat)
    requires
        n < pow10(width),
    ensures
        read_number(digits(n, width)) == Some(n),
        digits(n, width).len() == width,
    decreases width,
{
    if width > 0 {
        lemma_digit(n);
        lemma_read_number(n / 10, (width - 1) as nat);
        assert(digits(n, width).drop_last() =~= digits(n / 10, (width - 1) as nat));
    }
}

#[verifier::rlimit(40)]
#[verifier::spinoff_prover]
proof fn lemma_read_instant(y: int, m: int, d: int, second: int, nanos: int, day: int)
    requires
        is_date(day, y, m, d),
        0 <= y < 10_000,
        0 <= second < 86400,
        0 <= nanos < 1_000_000_000,
    ensures
        read_time(instant_text(y, m, d, second, nanos)) == Some(
            (day * 86400 + second) * 1_000_000_000 + nanos,
        ),
{
    lemma_powers();
    let hour = second / 3600;
    let minute = second % 3600 / 60;
    let sec = second % 60;
    lemma_read_number(y as nat, 4);
    lemma_read_number(m as nat, 2);
    assert(d <= 31);
    lemma_read_number(d as nat, 2);
    lemma_read_number(hour as nat, 2);
    lemma_read_number(minute as nat, 2);
    lemma_read_number(sec as nat, 2);
    let a = digits(y as nat, 4);
    let b = digits(m as nat, 2);
    let c = digits(d as nat, 2);
    let e = digits(hour as nat, 2);
    let f = digits(minute as nat, 2);
    let g = digits(sec as nat, 2);
    let whole = a + seq!['-'] + b + seq!['-'] + c + seq!['T'] + e + seq![':'] + f + seq![':'] + g;
    assert(whole.len() == 19);
    let s = instant_text(y, m, d, second, nanos);
    let rest = s.skip(19);
    assert(s =~= whole + rest);
    assert(whole[4] == '-' && whole[7] == '-' && whole[10] == 'T' && whole[13] == ':' && whole[16] == ':');
    assert(s.subrange(0, 4) =~= a);
    assert(s.subrange(5, 7) =~= b);
    assert(s.subrange(8, 10) =~= c);
    assert(s.subrange(11, 13) =~= e);
    assert(s.subrange(14, 16) =~= f);
    assert(s.subrange(17, 19) =~= g);
    assert(read_rest(s) == Some(nanos as nat)) by {
        if nanos == 0 {
            assert(s =~= whole + seq!['Z']);
        } else {
            let k = lemma_trimmed(nanos as nat, 9);
            let part = nanos as nat / pow10(k);
            let w = (9 - k) as nat;
            lemma_read_number(part, w);
            lemma_digit(part);
            let h = digits(part, w);
            assert(h.last() == digit(part));
            assert(s =~= whole + seq!['.'] + h + seq!['Z']);
            let n = s.len() - 1;
            assert(n == 20 + w);
            assert(s.subrange(20, n) =~= h);
            assert(s[n - 1] == h[w - 1]);
            assert((29 - n) as nat == k);
        }
    }
    assert(hour * 3600 + minute * 60 + sec == second);
}

/// The text of a point in time is that of a date and a time of day, and reads back as
/// the point.
pub proof fn a_time_reads_back(nanos: i64)
    ensures
        read_time(time_text(nanos as int)) == Some(nanos as int),
{
    let n = nanos as int;
    let days = n / 1_000_000_000 / 86400;
    a_time_has_its_text(n);
    let (y, m, d) = choose|y: int, m: int, d: int| #[trigger]
        is_date(days, y, m, d) && time_text(n) == instant_text(
            y,
            m,
            d,
            n / 1_000_000_000 % 86400,
            n % 1_000_000_000,
        );
    assert(days_before_year(0) <= days < days_before_year(10_000));
    lemma_four_digits(days, y, m, d);
    lemma_read_instant(y, m, d, n / 1_000_000_000 % 86400, n % 1_000_000_000, days);
}

/// Different points in time have different texts.
pub proof fn times_have_their_own_texts(a: i64, b: i64)
    requires
        a != b,
    ensures
        time_text(a as int) != time_text(b as int),
{
    a_time_reads_back(a);
    a_time_reads_back(b);
}

} // verus!
