//! Temporal values as text, exactly: dates of any year, clocks and durations.

use crate::text::{
    dec, digit_char, lemma_dec_len, padded_dec, push_decimal, push_padded, ten_to,
};
use vstd::prelude::*;
use vstd::string::*;

verus! {

/// The unit a temporal value counts.
#[derive(Clone, Copy, Debug, PartialEq, Eq, Structural)]
pub enum TimeUnit {
    Second,
    Millisecond,
    Microsecond,
    Nanosecond,
}

/// Nanoseconds in a second.
pub const NANOS_PER_SECOND: i128 = 1_000_000_000;

/// Nanoseconds in a day.
pub const DAY: i128 = 86_400_000_000_000;

/// Units of `unit` in a second.
pub open spec fn units_per_second(unit: TimeUnit) -> int {
    match unit {
        TimeUnit::Second => 1,
        TimeUnit::Millisecond => 1_000,
        TimeUnit::Microsecond => 1_000_000,
        TimeUnit::Nanosecond => 1_000_000_000,
    }
}

/// Units of `unit` in a second.
pub fn per_second(unit: TimeUnit) -> (units: i64)
    ensures
        units == units_per_second(unit),
{
    match unit {
        TimeUnit::Second => 1,
        TimeUnit::Millisecond => 1_000,
        TimeUnit::Microsecond => 1_000_000,
        TimeUnit::Nanosecond => 1_000_000_000,
    }
}

/// Nanoseconds in a unit.
pub open spec fn nanos_per(unit: TimeUnit) -> int {
    match unit {
        TimeUnit::Second => 1_000_000_000,
        TimeUnit::Millisecond => 1_000_000,
        TimeUnit::Microsecond => 1_000,
        TimeUnit::Nanosecond => 1,
    }
}

/// `value`, in `unit`, in nanoseconds.
pub fn nanos(value: i64, unit: TimeUnit) -> (nanos: i128)
    ensures
        nanos == value * nanos_per(unit),
        -9_223_372_036_854_775_808_000_000_000 <= nanos <= 9_223_372_036_854_775_807_000_000_000,
{
    match unit {
        TimeUnit::Second => value as i128 * 1_000_000_000,
        TimeUnit::Millisecond => value as i128 * 1_000_000,
        TimeUnit::Microsecond => value as i128 * 1_000,
        TimeUnit::Nanosecond => value as i128,
    }
}

/// How far `n` is from zero.
pub open spec fn magnitude(n: int) -> nat {
    if n < 0 {
        (-n) as nat
    } else {
        n as nat
    }
}

/// How far `n` is from zero.
fn magnitude_of(n: i128) -> (m: u128)
    ensures
        m == magnitude(n as int),
{
    if n >= 0 {
        n as u128
    } else {
        (-(n + 1)) as u128 + 1
    }
}

/// `-` where `n` is negative.
pub open spec fn sign(n: int) -> Seq<char> {
    if n < 0 {
        seq!['-']
    } else {
        Seq::empty()
    }
}

/// `digits` without the zeros it ends in.
pub open spec fn trimmed(digits: Seq<char>) -> Seq<char>
    decreases digits.len(),
{
    if digits.len() > 0 && digits.last() == '0' {
        trimmed(digits.drop_last())
    } else {
        digits
    }
}

/// `nanos` as an ISO 8601 duration of seconds: `PT1.5S`, `-PT0.5S`.
pub open spec fn duration_text(nanos: int) -> Seq<char> {
    let m = magnitude(nanos) as int;
    let fraction = (m % 1_000_000_000) as nat;
    let whole = sign(nanos) + seq!['P', 'T'] + dec((m / 1_000_000_000) as nat);
    if fraction == 0 {
        whole + seq!['S']
    } else {
        whole + seq!['.'] + trimmed(padded_dec(fraction, 9)) + seq!['S']
    }
}

proof fn lemma_trimmed_zeros(n: nat, width: nat)
    requires
        width >= 1,
        n % 10 == 0,
        0 < n < ten_to(width),
    ensures
        width >= 2,
        n / 10 > 0,
        n / 10 < ten_to((width - 1) as nat),
        trimmed(padded_dec(n, width as int)) == trimmed(padded_dec(n / 10, width - 1)),
{
    assert(ten_to(width) == 10 * ten_to((width - 1) as nat));
    if width == 1 {
        assert(ten_to(0) == 1);
    }
    lemma_dec_len(n, width);
    let long = padded_dec(n, width as int);
    let short = padded_dec(n / 10, width - 1);
    assert(dec(n) == dec(n / 10).push('0'));
    assert(long =~= short.push('0'));
    assert(long.drop_last() =~= short);
}

proof fn lemma_trimmed_ends(n: nat, width: nat)
    requires
        n % 10 != 0,
    ensures
        trimmed(padded_dec(n, width as int)) == padded_dec(n, width as int),
{
    let digits = padded_dec(n, width as int);
    assert(dec(n).last() == digit_char((n % 10) as int));
    assert(dec(n).len() >= 1);
    assert(digits.last() == dec(n).last());
    let d = (n % 10) as int;
    assert(1 <= d <= 9);
    assert(digit_char(d) != '0');
}

/// Appends `fraction`, which is below ten to the `width` and not zero, as the digits of a decimal
/// fraction, without the zeros at its end.
fn push_fraction(out: &mut String, fraction: u128)
    requires
        0 < fraction < 1_000_000_000,
    ensures
        final(out)@ == old(out)@ + trimmed(padded_dec(fraction as nat, 9)),
{
    let mut left: u128 = fraction;
    let mut width: usize = 9;
    proof {
        assert(ten_to(9) == 1_000_000_000) by {
            reveal_with_fuel(ten_to, 10);
        }
    }
    while left % 10 == 0
        invariant
            1 <= width <= 9,
            0 < left < ten_to(width as nat),
            trimmed(padded_dec(left as nat, width as int)) == trimmed(
                padded_dec(fraction as nat, 9),
            ),
        decreases left,
    {
        proof {
            lemma_trimmed_zeros(left as nat, width as nat);
        }
        left = left / 10;
        width = width - 1;
    }
    proof {
        lemma_trimmed_ends(left as nat, width as nat);
    }
    push_padded(out, left, width);
}

/// `nanos` as an ISO 8601 duration of seconds: `PT1.5S`, `-PT0.5S`.
pub fn duration(nanos: i128) -> (text: String)
    ensures
        text@ == duration_text(nanos as int),
{
    let m: u128 = magnitude_of(nanos);
    let mut text = String::new();
    if nanos < 0 {
        text.push('-');
    }
    text.push('P');
    text.push('T');
    push_decimal(&mut text, m / 1_000_000_000);
    let fraction: u128 = m % 1_000_000_000;
    if fraction != 0 {
        text.push('.');
        push_fraction(&mut text, fraction);
    }
    text.push('S');
    proof {
        assert(text@ =~= duration_text(nanos as int));
    }
    text
}

/// A time of day's fraction as text: none, or three, six or nine digits, the fewest that hold it.
pub open spec fn fraction_text(fraction: nat) -> Seq<char> {
    if fraction == 0 {
        Seq::empty()
    } else if fraction % 1_000_000 == 0 {
        seq!['.'] + padded_dec(fraction / 1_000_000, 3)
    } else if fraction % 1_000 == 0 {
        seq!['.'] + padded_dec(fraction / 1_000, 6)
    } else {
        seq!['.'] + padded_dec(fraction, 9)
    }
}

/// A time of day `nanos` after midnight: `HH:MM:SS` and a fraction where there is one.
pub open spec fn clock_text(nanos: int) -> Seq<char> {
    let m = magnitude(nanos) as int;
    let seconds = m / 1_000_000_000;
    sign(nanos) + padded_dec((seconds / 3_600) as nat, 2) + seq![':'] + padded_dec(
        (seconds / 60 % 60) as nat,
        2,
    ) + seq![':'] + padded_dec((seconds % 60) as nat, 2) + fraction_text(
        (m % 1_000_000_000) as nat,
    )
}

/// A time of day `nanos` after midnight: `HH:MM:SS` and a fraction of three, six or nine digits
/// where there is one.
pub fn clock(nanos: i128) -> (text: String)
    ensures
        text@ == clock_text(nanos as int),
{
    let m: u128 = magnitude_of(nanos);
    let seconds: u128 = m / 1_000_000_000;
    let fraction: u128 = m % 1_000_000_000;
    let mut text = String::new();
    if nanos < 0 {
        text.push('-');
    }
    push_padded(&mut text, seconds / 3_600, 2);
    text.push(':');
    push_padded(&mut text, seconds / 60 % 60, 2);
    text.push(':');
    push_padded(&mut text, seconds % 60, 2);
    if fraction != 0 {
        text.push('.');
        if fraction % 1_000_000 == 0 {
            push_padded(&mut text, fraction / 1_000_000, 3);
        } else if fraction % 1_000 == 0 {
            push_padded(&mut text, fraction / 1_000, 6);
        } else {
            push_padded(&mut text, fraction, 9);
        }
    }
    proof {
        assert(text@ =~= clock_text(nanos as int));
    }
    text
}

/// Whether the year `y` has a 29th of February.
pub open spec fn is_leap(y: int) -> bool {
    y % 4 == 0 && (y % 100 != 0 || y % 400 == 0)
}

/// The days from the first of January of the year 0 to that of the year `y`.
pub open spec fn days_before_year(y: int) -> int {
    365 * y + (y + 3) / 4 - (y + 99) / 100 + (y + 399) / 400
}

/// How many days February has in the year `y` beyond 28.
pub open spec fn leap_day(y: int) -> int {
    if is_leap(y) {
        1
    } else {
        0
    }
}

/// The days of the year `y` before the first of its month `m`.
pub open spec fn days_before_month(y: int, m: int) -> int {
    if m <= 1 {
        0
    } else if m == 2 {
        31
    } else if m == 3 {
        59 + leap_day(y)
    } else if m == 4 {
        90 + leap_day(y)
    } else if m == 5 {
        120 + leap_day(y)
    } else if m == 6 {
        151 + leap_day(y)
    } else if m == 7 {
        181 + leap_day(y)
    } else if m == 8 {
        212 + leap_day(y)
    } else if m == 9 {
        243 + leap_day(y)
    } else if m == 10 {
        273 + leap_day(y)
    } else if m == 11 {
        304 + leap_day(y)
    } else if m == 12 {
        334 + leap_day(y)
    } else {
        365 + leap_day(y)
    }
}

/// Whether the year `y` has a day `d` in a month `m`.
pub open spec fn is_date(y: int, m: int, d: int) -> bool {
    &&& 1 <= m <= 12
    &&& 1 <= d <= days_before_month(y, m + 1) - days_before_month(y, m)
}

/// The days from the first of January 1970 to the day `d` of month `m` of the year `y`.
pub open spec fn day_number(y: int, m: int, d: int) -> int {
    days_before_year(y) + days_before_month(y, m) + d - 1 - 719_528
}

/// A date as text: `YYYY-MM-DD`, its year signed beyond `0000` to `9999`.
pub open spec fn date_text(y: int, m: int, d: int) -> Seq<char> {
    (if y < 0 {
        seq!['-'] + padded_dec((-y) as nat, 4)
    } else if y <= 9_999 {
        padded_dec(y as nat, 4)
    } else {
        seq!['+'] + dec(y as nat)
    }) + seq!['-'] + padded_dec(m as nat, 2) + seq!['-'] + padded_dec(d as nat, 2)
}

/// Whether `text` is that of the date `days` after the first of January 1970.
pub open spec fn is_date_text(days: int, text: Seq<char>) -> bool {
    exists|y: int, m: int, d: int| #[trigger]
        is_date(y, m, d) && day_number(y, m, d) == days && text == date_text(y, m, d)
}

/// The year of 400, counted from March, that the day `day` of 146 097 falls in, and the day of
/// it.
fn year_of_era(day: u32) -> (found: (u32, u32))
    requires
        day < 146_097,
    ensures
        found.0 < 400,
        found.1 <= 365,
        day == 365 * found.0 + found.0 / 4 - found.0 / 100 + found.1,
        found.1 == 365 ==> (found.0 + 1) % 4 == 0 && ((found.0 + 1) % 100 != 0 || (found.0 + 1)
            % 400 == 0),
{
    let mut century: u32 = day / 36_524;
    if century > 3 {
        century = 3;
    }
    let of_century: u32 = day - 36_524 * century;
    let mut cycle: u32 = of_century / 1_461;
    if cycle > 24 {
        cycle = 24;
    }
    let of_cycle: u32 = of_century - 1_461 * cycle;
    let mut year: u32 = of_cycle / 365;
    if year > 3 {
        year = 3;
    }
    let of_year: u32 = of_cycle - 365 * year;
    let whole: u32 = 100 * century + 4 * cycle + year;
    assert(whole / 4 == 25 * century + cycle);
    assert(whole / 100 == century);
    (whole, of_year)
}

/// The month, counted from March as zero, that the day `day` of a year from March falls in, and
/// the day of it.
fn month_of_year(day: u32) -> (found: (u32, u32))
    requires
        day <= 365,
    ensures
        found.0 <= 11,
        1 <= found.1 <= 31,
        day == (153 * found.0 + 2) / 5 + found.1 - 1,
        found.0 < 11 ==> day < (153 * (found.0 + 1) + 2) / 5,
{
    let month: u32 = (5 * day + 2) / 153;
    let first: u32 = (153 * month + 2) / 5;
    (month, day - first + 1)
}

/// The days of March-based years before the era's year `k` of era `e`, against January's.
proof fn lemma_march(e: int, k: int)
    requires
        0 <= k < 400,
    ensures
        days_before_year(400 * e + k) + 59 + leap_day(400 * e + k) == 60 + 146_097 * e + 365 * k + k
            / 4 - k / 100,
        days_before_year(400 * e + k + 1) == 366 + 146_097 * e + 365 * k + k / 4 - k / 100,
        leap_day(400 * e + k + 1) == (if (k + 1) % 4 == 0 && ((k + 1) % 100 != 0 || (k + 1) % 400
            == 0) {
            1int
        } else {
            0int
        }),
{
    let y = 400 * e + k;
    assert(y % 4 == k % 4);
    assert(y % 100 == k % 100);
    assert(y % 400 == k);
    assert((y + 3) / 4 == 100 * e + (k + 3) / 4);
    assert((y + 99) / 100 == 4 * e + (k + 99) / 100);
    assert((y + 399) / 400 == e + (k + 399) / 400);
    assert((y + 4) / 4 == 100 * e + (k + 4) / 4);
    assert((y + 100) / 100 == 4 * e + (k + 100) / 100);
    assert((y + 400) / 400 == e + (k + 400) / 400);
    assert((y + 1) % 4 == (k + 1) % 4);
    assert((y + 1) % 100 == (k + 1) % 100);
    assert((y + 1) % 400 == (k + 1) % 400);
}

/// The year, month and day `days` after the first of January 1970.
pub fn civil(days: i128) -> (date: (i128, u32, u32))
    requires
        days <= i128::MAX - 719_468,
    ensures
        is_date(date.0 as int, date.1 as int, date.2 as int),
        day_number(date.0 as int, date.1 as int, date.2 as int) == days,
        -1_000_000_000_000_000_000_000_000_000_000_000_000 <= date.0
            <= 1_000_000_000_000_000_000_000_000_000_000_000_000,
{
    let shifted: i128 = days + 719_468;
    let (era, of_era): (i128, u32) = match (
        shifted.checked_div_euclid(146_097),
        shifted.checked_rem_euclid(146_097),
    ) {
        (Some(era), Some(rest)) => (era, rest as u32),
        _ => (0, 0),
    };
    assert(shifted == 146_097 * era + of_era);
    let (year, of_year): (u32, u32) = year_of_era(of_era);
    let (from_march, day): (u32, u32) = month_of_year(of_year);
    let (month, late): (u32, bool) = if from_march < 10 {
        (from_march + 3, false)
    } else {
        (from_march - 9, true)
    };
    let first: i128 = 400 * era + year as i128;
    let whole: i128 = if late {
        first + 1
    } else {
        first
    };
    proof {
        lemma_march(era as int, year as int);
        assert(first == 400 * (era as int) + year as int);
        if late {
            assert(whole == 400 * (era as int) + year as int + 1);
        }
        assert(is_date(whole as int, month as int, day as int));
        assert(day_number(whole as int, month as int, day as int) == days);
    }
    (whole, month, day)
}

/// The date `days` after the first of January 1970, `YYYY-MM-DD`, its year signed beyond `0000`
/// to `9999`.
pub fn date(days: i128) -> (text: String)
    requires
        days <= i128::MAX - 719_468,
    ensures
        is_date_text(days as int, text@),
{
    let (year, month, day): (i128, u32, u32) = civil(days);
    let mut text = String::new();
    if year < 0 {
        text.push('-');
        push_padded(&mut text, magnitude_of(year), 4);
    } else if year <= 9_999 {
        push_padded(&mut text, year as u128, 4);
    } else {
        text.push('+');
        push_decimal(&mut text, year as u128);
    }
    text.push('-');
    push_padded(&mut text, month as u128, 2);
    text.push('-');
    push_padded(&mut text, day as u128, 2);
    proof {
        assert(text@ =~= date_text(year as int, month as int, day as int));
        assert(is_date(year as int, month as int, day as int));
    }
    text
}

/// Every day is one date: two dates with one day number are the same.
pub proof fn law_a_day_is_one_date(y: int, m: int, d: int, z: int, n: int, e: int)
    requires
        is_date(y, m, d),
        is_date(z, n, e),
        day_number(y, m, d) == day_number(z, n, e),
    ensures
        y == z,
        m == n,
        d == e,
{
    if y < z {
        lemma_years_apart(y, z);
    } else if z < y {
        lemma_years_apart(z, y);
    }
}

proof fn lemma_years_apart(y: int, z: int)
    requires
        y < z,
    ensures
        days_before_year(z) >= days_before_year(y) + 365 + leap_day(y),
{
    assert((z + 3) / 4 >= (y + 4) / 4);
    lemma_next_year(y);
    if z > y + 1 {
        lemma_years_grow(y + 1, z);
    }
}

/// A year is 365 days long, or one more.
pub proof fn lemma_next_year(y: int)
    ensures
        days_before_year(y + 1) == days_before_year(y) + 365 + leap_day(y),
{
    let q = y / 400;
    let k = y % 400;
    assert(y == 400 * q + k);
    lemma_march(q, k);
}

proof fn lemma_years_grow(y: int, z: int)
    requires
        y <= z,
    ensures
        days_before_year(y) <= days_before_year(z),
    decreases z - y,
{
    if y < z {
        lemma_next_year(y);
        lemma_years_grow(y + 1, z);
    }
}

/// A kind of temporal value, as it is stored.
#[derive(Clone, Copy, Debug, PartialEq, Eq, Structural)]
pub enum Temporal {
    /// Days since 1970.
    Date32,
    /// Milliseconds since 1970, read as a date.
    Date64,
    /// Units since midnight.
    Time(TimeUnit),
    /// Units since 1970, in a zone or not.
    Timestamp(TimeUnit, bool),
    /// Units.
    Duration(TimeUnit),
}

/// Whether `text` is that of the temporal `value`, exact, and in UTC for instants.
pub open spec fn is_exact_text(kind: Temporal, value: i64, text: Seq<char>) -> bool {
    match kind {
        Temporal::Date32 => is_date_text(value as int, text),
        Temporal::Date64 => is_date_text(value as int / 86_400_000, text),
        Temporal::Time(unit) => text == clock_text(value * nanos_per(unit)),
        Temporal::Timestamp(unit, zoned) => is_timestamp_text(
            value * nanos_per(unit),
            zoned,
            text,
        ),
        Temporal::Duration(unit) => text == duration_text(value * nanos_per(unit)),
    }
}

/// Whether `text` is that of the time `nanos` after 1970 began, with `Z` where it is `zoned`.
pub open spec fn is_timestamp_text(nanos: int, zoned: bool, text: Seq<char>) -> bool {
    exists|day: Seq<char>| #[trigger]
        is_date_text(nanos / (DAY as int), day) && text == day + seq!['T'] + clock_text(
            nanos % (DAY as int),
        ) + (if zoned {
            seq!['Z']
        } else {
            Seq::empty()
        })
}

/// The text of a temporal value exactly: dates with as many year digits as they need, instants in
/// UTC.
pub fn exact(kind: Temporal, value: i64) -> (text: String)
    ensures
        is_exact_text(kind, value, text@),
{
    match kind {
        Temporal::Date32 => date(value as i128),
        Temporal::Date64 => {
            let days: i64 = match value.checked_div_euclid(86_400_000) {
                Some(days) => days,
                None => 0,
            };
            date(days as i128)
        },
        Temporal::Time(unit) => clock(nanos(value, unit)),
        Temporal::Duration(unit) => duration(nanos(value, unit)),
        Temporal::Timestamp(unit, zoned) => {
            let instant: i128 = nanos(value, unit);
            let (days, rest): (i128, i128) = match (
                instant.checked_div_euclid(DAY),
                instant.checked_rem_euclid(DAY),
            ) {
                (Some(days), Some(rest)) => (days, rest),
                _ => (0, 0),
            };
            let day: String = date(days);
            let time: String = clock(rest);
            let mut text = String::new();
            text.append(day.as_str());
            text.push('T');
            text.append(time.as_str());
            if zoned {
                text.push('Z');
            }
            proof {
                assert(is_date_text(instant as int / (DAY as int), day@));
                assert(text@ =~= day@ + seq!['T'] + clock_text(instant as int % (DAY as int)) + (
                if zoned {
                    seq!['Z']
                } else {
                    Seq::empty()
                }));
            }
            text
        },
    }
}

} // verus!
