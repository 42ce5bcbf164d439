//! Points in time and durations as texts.
use vstd::prelude::*;

use crate::text::{decimal, digits, without_zeros};
use crate::text::{push_char, push_decimal, push_digits, push_fraction};

verus! {

/// A second, in nanoseconds.
pub const SECOND: u64 = 1_000_000_000;

/// A minute, in nanoseconds.
pub const MINUTE: u64 = 60_000_000_000;

/// An hour, in nanoseconds.
pub const HOUR: u64 = 3_600_000_000_000;

/// A millisecond, in nanoseconds.
pub const MILLISECOND: u64 = 1_000_000;

/// A microsecond, in nanoseconds.
pub const MICROSECOND: u64 = 1_000;

/// Whole units and what is left over of the next one, as a decimal fraction.
pub open spec fn amount_text(n: nat, unit: nat, width: nat) -> Seq<char> {
    if n % unit == 0 {
        decimal(n / unit)
    } else {
        decimal(n / unit) + seq!['.'] + without_zeros(digits(n % unit, width))
    }
}

/// A duration that is not negative: hours, minutes and seconds where it is a second or more,
/// else in the largest unit of which it has one.
pub open spec fn span_text(n: nat) -> Seq<char> {
    if n >= SECOND {
        let hours = n / HOUR as nat;
        let minutes = n % HOUR as nat / MINUTE as nat;
        let h = if hours > 0 {
            decimal(hours) + "h"@
        } else {
            Seq::empty()
        };
        let m = if minutes > 0 || hours > 0 {
            decimal(minutes) + "m"@
        } else {
            Seq::empty()
        };
        h + m + amount_text(n % HOUR as nat % MINUTE as nat, SECOND as nat, 9) + "s"@
    } else if n >= MILLISECOND {
        amount_text(n, MILLISECOND as nat, 6) + "ms"@
    } else if n >= MICROSECOND {
        amount_text(n, MICROSECOND as nat, 3) + "\u{b5}s"@
    } else {
        decimal(n) + "ns"@
    }
}

/// A duration in nanoseconds.
pub open spec fn duration_text(nanos: int) -> Seq<char> {
    if nanos == 0 {
        "0s"@
    } else if nanos < 0 {
        seq!['-'] + span_text((-nanos) as nat)
    } else {
        span_text(nanos as nat)
    }
}

/// Appends whole units and the fraction of the next one.
fn push_amount(s: &mut String, n: u64, unit: u64, width: usize)
    requires
        unit > 0,
    ensures
        final(s)@ == old(s)@ + amount_text(n as nat, unit as nat, width as nat),
{
    let ghost before = s@;
    push_decimal(s, n / unit);
    if n % unit != 0 {
        push_char(s, '.');
        push_fraction(s, n % unit, width);
    }
    assert(s@ =~= before + amount_text(n as nat, unit as nat, width as nat));
}

/// A duration in nanoseconds, such as `1h30m0s`, `2.5s`, `500ms` or `150ns`.
pub fn format_duration_nanos(nanos: i64) -> (r: String)
    ensures
        r@ == duration_text(nanos as int),
{
    if nanos == 0 {
        return "0s".to_owned();
    }
    let mut s = String::new();
    let n: u64 = if nanos < 0 {
        push_char(&mut s, '-');
        if nanos == i64::MIN {
            0x8000_0000_0000_0000u64
        } else {
            (-nanos) as u64
        }
    } else {
        nanos as u64
    };
    let ghost sign = s@;
    if n >= SECOND {
        let hours = n / HOUR;
        let rest = n % HOUR;
        let minutes = rest / MINUTE;
        if hours > 0 {
            push_decimal(&mut s, hours);
            s = s.concat("h");
        }
        if minutes > 0 || hours > 0 {
            push_decimal(&mut s, minutes);
            s = s.concat("m");
        }
        push_amount(&mut s, rest % MINUTE, SECOND, 9);
        s = s.concat("s");
    } else if n >= MILLISECOND {
        push_amount(&mut s, n, MILLISECOND, 6);
        s = s.concat("ms");
    } else if n >= MICROSECOND {
        push_amount(&mut s, n, MICROSECOND, 3);
        s = s.concat("\u{b5}s");
    } else {
        push_decimal(&mut s, n);
        s = s.concat("ns");
    }
    assert(s@ =~= sign + span_text(n as nat));
    assert(s@ =~= duration_text(nanos as int));
    s
}

/// Whether a year has a leap day.
pub open spec fn is_leap(y: int) -> bool {
    y % 4 == 0 && (y % 100 != 0 || y % 400 == 0)
}

/// The days of the months before month `m` of a year.
pub open spec fn days_before_month(y: int, m: int) -> int {
    let leap = if is_leap(y) {
        1int
    } else {
        0int
    };
    if m == 1 {
        0
    } else if m == 2 {
        31
    } else if m == 3 {
        59 + leap
    } else if m == 4 {
        90 + leap
    } else if m == 5 {
        120 + leap
    } else if m == 6 {
        151 + leap
    } else if m == 7 {
        181 + leap
    } else if m == 8 {
        212 + leap
    } else if m == 9 {
        243 + leap
    } else if m == 10 {
        273 + leap
    } else if m == 11 {
        304 + leap
    } else if m == 12 {
        334 + leap
    } else {
        365 + leap
    }
}

/// The days from the first day of 1970 to the first day of a year; before that day, negative.
/// Until the end of 1969 there were 477 leap days, counted from the year 1.
pub open spec fn days_before_year(y: int) -> int {
    365 * (y - 1970) + (y - 1) / 4 - (y - 1) / 100 + (y - 1) / 400 - 477
}

/// Whether day `d` of month `m` of year `y` is `days` days after the first day of 1970.
pub open spec fn is_date(days: int, y: int, m: int, d: int) -> bool {
    &&& 1 <= m <= 12
    &&& 1 <= d
    &&& days_before_month(y, m) + d <= days_before_month(y, m + 1)
    &&& days == days_before_year(y) + days_before_month(y, m) + d - 1
}

/// A point in time, given its date, its second of the day and the nanoseconds after it.
pub open spec fn instant_text(y: int, m: int, d: int, second: int, nanos: int) -> Seq<char> {
    let whole = digits(y as nat, 4) + seq!['-'] + digits(m as nat, 2) + seq!['-'] + digits(d as nat, 2)
        + seq!['T'] + digits((second / 3600) as nat, 2) + seq![':'] + digits(
        (second % 3600 / 60) as nat,
        2,
    ) + seq![':'] + digits((second % 60) as nat, 2);
    if nanos == 0 {
        whole + seq!['Z']
    } else {
        whole + seq!['.'] + without_zeros(digits(nanos as nat, 9)) + seq!['Z']
    }
}

/// The day of the year within an era of 400 years that begin in March.
proof fn lemma_year_of_era(doe: int, yoe: int)
    requires
        0 <= doe < 146097,
        yoe == (doe - doe / 1460 + doe / 36524 - doe / 146096) / 365,
    ensures
        0 <= yoe <= 399,
        0 <= doe - (365 * yoe + yoe / 4 - yoe / 100) <= 365,
        doe - (365 * yoe + yoe / 4 - yoe / 100) == 365 ==> (yoe + 1) % 4 == 0 && ((yoe + 1) % 100 != 0
            || yoe == 399),
{
}

/// The month and its day of a day of a year that begins in March.
proof fn lemma_month_of_year(doy: int, mp: int, m: int, d: int, y: int)
    requires
        0 <= doy <= 365,
        mp == (5 * doy + 2) / 153,
        d == doy - (153 * mp + 2) / 5 + 1,
        m == if mp < 10 {
            mp + 3
        } else {
            mp - 9
        },
        doy == 365 ==> is_leap(y + 1),
    ensures
        0 <= mp <= 11,
        1 <= m <= 12,
        1 <= d <= 31,
        m > 2 ==> days_before_month(y, m) + d <= days_before_month(y, m + 1),
        m > 2 ==> days_before_month(y, m) + d - 1 == days_before_month(y, 3) + doy,
        m <= 2 ==> days_before_month(y + 1, m) + d <= days_before_month(y + 1, m + 1),
        m <= 2 ==> days_before_month(y + 1, m) + d - 1 == doy - 306,
{
    assert(mp == 0 || mp == 1 || mp == 2 || mp == 3 || mp == 4 || mp == 5 || mp == 6 || mp == 7 || mp == 8
        || mp == 9 || mp == 10 || mp == 11);
}

/// A year before March, by the count of leap days until its end.
proof fn lemma_leap_days(y: int)
    ensures
        y / 4 - (y - 1) / 4 == if y % 4 == 0 {
            1int
        } else {
            0int
        },
        y / 100 - (y - 1) / 100 == if y % 100 == 0 {
            1int
        } else {
            0int
        },
        y / 400 - (y - 1) / 400 == if y % 400 == 0 {
            1int
        } else {
            0int
        },
        y % 100 == 0 ==> y % 4 == 0,
        y % 400 == 0 ==> y % 100 == 0,
{
}

/// Quotients of a year of an era.
proof fn lemma_era(y: int, era: int, yoe: int)
    requires
        0 <= yoe <= 399,
        y == yoe + era * 400,
    ensures
        y / 4 == yoe / 4 + 100 * era,
        y / 100 == yoe / 100 + 4 * era,
        y / 400 == era,
{
}

/// The start of a year counted from March.
proof fn lemma_march(y: int, era: int, yoe: int)
    requires
        0 <= yoe <= 399,
        y == yoe + era * 400,
    ensures
        146097 * era + 365 * yoe + yoe / 4 - yoe / 100 - 719468 == days_before_year(y)
            + days_before_month(y, 3),
        146097 * era + 365 * yoe + yoe / 4 - yoe / 100 - 719468 + 306 == days_before_year(y + 1),
{
    lemma_era(y, era, yoe);
    lemma_leap_days(y);
    assert(days_before_month(y, 3) == 59 + (y / 4 - (y - 1) / 4) - (y / 100 - (y - 1) / 100) + (y / 400
        - (y - 1) / 400));
}

/// Leap years of an era.
proof fn lemma_era_leap(y: int, era: int, yoe: int)
    requires
        0 <= yoe <= 399,
        y == yoe + era * 400,
        (yoe + 1) % 4 == 0,
        (yoe + 1) % 100 != 0 || yoe == 399,
    ensures
        is_leap(y + 1),
{
    assert((y + 1) % 4 == (yoe + 1) % 4);
    assert((y + 1) % 100 == (yoe + 1) % 100);
    if yoe == 399 {
        assert((y + 1) % 400 == 0);
    }
}

/// Whether a text is that of a point in time.
pub open spec fn is_time_text(nanos: int, s: Seq<char>) -> bool {
    exists|y: int, m: int, d: int| #[trigger]
        is_date(nanos / 1_000_000_000 / 86400, y, m, d) && s == instant_text(
            y,
            m,
            d,
            nanos / 1_000_000_000 % 86400,
            nanos % 1_000_000_000,
        )
}

/// The text of a point in time, in nanoseconds after the start of 1970. Every such point has
/// one, and only one.
pub open spec fn time_text(nanos: int) -> Seq<char> {
    choose|s: Seq<char>| is_time_text(nanos, s)
}

proof fn lemma_time_text(nanos: int, s: Seq<char>)
    requires
        is_time_text(nanos, s),
    ensures
        time_text(nanos) == s,
{
    let t = time_text(nanos);
    assert(is_time_text(nanos, t));
    let days = nanos / 1_000_000_000 / 86400;
    let (y, m, d) = choose|y: int, m: int, d: int| #[trigger]
        is_date(days, y, m, d) && s == instant_text(
            y,
            m,
            d,
            nanos / 1_000_000_000 % 86400,
            nanos % 1_000_000_000,
        );
    let (y2, m2, d2) = choose|y: int, m: int, d: int| #[trigger]
        is_date(days, y, m, d) && t == instant_text(
            y,
            m,
            d,
            nanos / 1_000_000_000 % 86400,
            nanos % 1_000_000_000,
        );
    date_is_unique(days, y, m, d, y2, m2, d2);
}

/// The date that is `z` days after the first of March of the year 0.
fn date_of(z: u64) -> (r: (u64, u64, u64))
    requires
        z < 1_000_000,
    ensures
        is_date(z - 719468, r.0 as int, r.1 as int, r.2 as int),
        r.0 < 10_000,
{
    let era: u64 = z / 146097;
    let doe: u64 = z % 146097;
    let yoe: u64 = (doe - doe / 1460 + doe / 36524 - doe / 146096) / 365;
    proof {
        lemma_year_of_era(doe as int, yoe as int);
    }
    let doy: u64 = doe - (365 * yoe + yoe / 4 - yoe / 100);
    let mp: u64 = (5 * doy + 2) / 153;
    let year: u64 = yoe + era * 400;
    proof {
        lemma_march(year as int, era as int, yoe as int);
        if doy == 365 {
            lemma_era_leap(year as int, era as int, yoe as int);
        }
        lemma_month_of_year(
            doy as int,
            mp as int,
            if mp < 10 {
                mp + 3
            } else {
                mp - 9
            },
            doy as int - (153 * mp as int + 2) / 5 + 1,
            year as int,
        );
    }
    let d: u64 = doy - (153 * mp + 2) / 5 + 1;
    if mp < 10 {
        (year, mp + 3, d)
    } else {
        (year + 1, mp - 9, d)
    }
}

/// The days, seconds and nanoseconds of a point in time: how many days after the first of
/// March of the year 0, and what is left.
fn split_nanos(nanos: i64) -> (r: (u64, u64, u64))
    ensures
        r.0 == nanos as int / 1_000_000_000 / 86400 + 719468,
        r.1 == nanos as int / 1_000_000_000 % 86400,
        r.2 == nanos as int % 1_000_000_000,
        r.0 < 1_000_000,
{
    // Counted from a day before the first that can be told, so that no number is negative.
    let shifted: u128 = (nanos as i128 + 9_223_372_800_000_000_000i128) as u128;
    let ns: u64 = (shifted % 1_000_000_000) as u64;
    let secs: u64 = (shifted / 1_000_000_000) as u64;
    assert(nanos as int / 1_000_000_000 == secs - 9_223_372_800);
    (secs / 86400 + 612_716, secs % 86400, ns)
}

/// A point in time in nanoseconds after the start of 1970, such as `2024-01-15T10:30:00Z`.
pub fn format_time_nanos(nanos: i64) -> (r: String)
    ensures
        r@ == time_text(nanos as int),
        is_time_text(nanos as int, r@),
{
    let (z, second, ns) = split_nanos(nanos);
    let (y, m, d) = date_of(z);
    let mut s = String::new();
    push_digits(&mut s, y, 4);
    push_char(&mut s, '-');
    push_digits(&mut s, m, 2);
    push_char(&mut s, '-');
    push_digits(&mut s, d, 2);
    push_char(&mut s, 'T');
    push_digits(&mut s, second / 3600, 2);
    push_char(&mut s, ':');
    push_digits(&mut s, second % 3600 / 60, 2);
    push_char(&mut s, ':');
    push_digits(&mut s, second % 60, 2);
    if ns != 0 {
        push_char(&mut s, '.');
        push_fraction(&mut s, ns, 9);
    }
    push_char(&mut s, 'Z');
    assert(s@ =~= instant_text(y as int, m as int, d as int, second as int, ns as int));
    proof {
        lemma_time_text(nanos as int, s@);
    }
    s
}

/// Every day has a date.
pub proof fn every_day_has_a_date(days: int) -> (r: (int, int, int))
    ensures
        is_date(days, r.0, r.1, r.2),
{
    let z = days + 719468;
    let era = z / 146097;
    let doe = z % 146097;
    let yoe = (doe - doe / 1460 + doe / 36524 - doe / 146096) / 365;
    lemma_year_of_era(doe, yoe);
    let doy = doe - (365 * yoe + yoe / 4 - yoe / 100);
    let mp = (5 * doy + 2) / 153;
    let year = yoe + era * 400;
    lemma_march(year, era, yoe);
    if doy == 365 {
        lemma_era_leap(year, era, yoe);
    }
    let m = if mp < 10 {
        mp + 3
    } else {
        mp - 9
    };
    let d = doy - (153 * mp + 2) / 5 + 1;
    lemma_month_of_year(doy, mp, m, d, year);
    if mp < 10 {
        (year, m, d)
    } else {
        (year + 1, m, d)
    }
}

/// The text of a point in time is one of that point.
pub proof fn a_time_has_its_text(nanos: int)
    ensures
        is_time_text(nanos, time_text(nanos)),
{
    let (y, m, d) = every_day_has_a_date(nanos / 1_000_000_000 / 86400);
    let s = instant_text(y, m, d, nanos / 1_000_000_000 % 86400, nanos % 1_000_000_000);
    assert(is_time_text(nanos, s));
}

/// A day of the years 0 to 9999 has a year of four digits.
pub proof fn lemma_four_digits(days: int, y: int, m: int, d: int)
    requires
        is_date(days, y, m, d),
        days_before_year(0) <= days < days_before_year(10_000),
    ensures
        0 <= y < 10_000,
{
    lemma_year_bounds(y, m, d, days);
    if y < 0 {
        lemma_year_order(y, 0);
    }
    if y > 10_000 {
        lemma_year_order(10_000, y);
    }
}

/// No day is the day of two dates.
pub proof fn date_is_unique(days: int, y: int, m: int, d: int, y2: int, m2: int, d2: int)
    requires
        is_date(days, y, m, d),
        is_date(days, y2, m2, d2),
    ensures
        y == y2 && m == m2 && d == d2,
{
    lemma_year_bounds(y, m, d, days);
    lemma_year_bounds(y2, m2, d2, days);
    if y < y2 {
        lemma_year_order(y, y2);
    } else if y2 < y {
        lemma_year_order(y2, y);
    }
    assert(m < m2 ==> days_before_month(y, m + 1) <= days_before_month(y, m2));
    assert(m2 < m ==> days_before_month(y, m2 + 1) <= days_before_month(y, m));
}

/// A day lies within its year.
proof fn lemma_year_bounds(y: int, m: int, d: int, days: int)
    requires
        is_date(days, y, m, d),
    ensures
        days_before_year(y) <= days < days_before_year(y + 1),
{
    assert(days_before_month(y, m + 1) <= days_before_month(y, 13));
}

/// Later years begin later.
proof fn lemma_year_order(y: int, y2: int)
    requires
        y < y2,
    ensures
        days_before_year(y + 1) <= days_before_year(y2),
{
}

} // verus!
