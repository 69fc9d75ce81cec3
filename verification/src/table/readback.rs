//! Exact texts of temporal values read back as the values: their digits say which date, which time
//! of day and how many seconds they are of.

use crate::table::temporal::{
    clock_text, date_text, day_number, duration_text, fraction_text, is_date, is_date_text,
    is_exact_text, magnitude, nanos_per, sign, trimmed, Temporal,
};
use crate::text::{
    dec, lemma_dec_len, lemma_dec_reads_back, lemma_padded_reads_back, padded_dec, ten_to, value_of,
};
use vstd::prelude::*;

verus! {

/// Whether `text` is one decimal digit or more.
pub open spec fn is_number(text: Seq<char>) -> bool {
    &&& text.len() > 0
    &&& forall|i: int| 0 <= i < text.len() ==> '0' <= #[trigger] text[i] <= '9'
}

/// Ten to the power `e`.
pub open spec fn power_of_ten(e: nat) -> int
    decreases e,
{
    if e == 0 {
        1
    } else {
        10 * power_of_ten((e - 1) as nat)
    }
}

/// Whether `text` writes `nanos`, a fraction of a second: nothing where there is none, and else a
/// point and up to nine digits.
pub open spec fn is_fraction(text: Seq<char>, nanos: int) -> bool {
    if text.len() == 0 {
        nanos == 0
    } else {
        let digits = text.skip(1);
        &&& text[0] == '.'
        &&& is_number(digits)
        &&& digits.len() <= 9
        &&& 0 < nanos < 1_000_000_000
        &&& nanos == value_of(digits) * power_of_ten((9 - digits.len()) as nat)
    }
}

/// Whether `text` writes a time of day `nanos` after midnight: its sign, two digits of hours or
/// more, as few as they need, two of minutes, two of seconds, and the fraction of a second, in as
/// few groups of three digits as it needs.
pub open spec fn is_clock(text: Seq<char>, nanos: int) -> bool {
    exists|before: Seq<char>, hours: Seq<char>, minutes: Seq<char>, seconds: Seq<char>, after: Seq<char>, part: int|
        {
            &&& text == before + hours + seq![':'] + minutes + seq![':'] + seconds + after
            &&& before == (if nanos < 0 {
                seq!['-']
            } else {
                Seq::<char>::empty()
            })
            &&& #[trigger] is_number(hours)
            &&& hours.len() >= 2
            &&& hours.len() > 2 ==> hours[0] != '0'
            &&& #[trigger] is_number(minutes)
            &&& minutes.len() == 2
            &&& value_of(minutes) < 60
            &&& #[trigger] is_number(seconds)
            &&& seconds.len() == 2
            &&& value_of(seconds) < 60
            &&& #[trigger] is_fraction(after, part)
            &&& after.len() == 0 || after.len() == 4 || after.len() == 7 || after.len() == 10
            &&& after.len() == 7 ==> part % 1_000_000 != 0
            &&& after.len() == 10 ==> part % 1_000 != 0
            &&& (if nanos < 0 {
                -nanos
            } else {
                nanos
            }) == (value_of(hours) * 3_600 + value_of(minutes) * 60 + value_of(seconds))
                * 1_000_000_000 + part
            &&& #[trigger] (before + hours).len() >= 0
        }
}

/// Whether `text` writes the duration of `nanos`: its sign, `PT`, the whole seconds, their fraction
/// without zeros at its end, and `S`.
pub open spec fn is_duration(text: Seq<char>, nanos: int) -> bool {
    exists|before: Seq<char>, whole: Seq<char>, after: Seq<char>, part: int|
        {
            &&& text == before + seq!['P', 'T'] + whole + after + seq!['S']
            &&& before == (if nanos < 0 {
                seq!['-']
            } else {
                Seq::<char>::empty()
            })
            &&& #[trigger] is_number(whole)
            &&& whole.len() > 1 ==> whole[0] != '0'
            &&& #[trigger] is_fraction(after, part)
            &&& after.len() > 0 ==> after.last() != '0'
            &&& (if nanos < 0 {
                -nanos
            } else {
                nanos
            }) == value_of(whole) * 1_000_000_000 + part
            &&& #[trigger] (before + whole).len() >= 0
        }
}

/// Whether `text` writes the year `y`: four digits from 0 to 9999, and else a sign and four or more.
pub open spec fn is_year(text: Seq<char>, y: int) -> bool {
    if 0 <= y <= 9_999 {
        is_number(text) && text.len() == 4 && value_of(text) == y
    } else {
        let digits = text.skip(1);
        &&& text.len() >= 5
        &&& text[0] == (if y < 0 {
            '-'
        } else {
            '+'
        })
        &&& is_number(digits)
        &&& digits.len() > 4 ==> digits[0] != '0'
        &&& value_of(digits) == (if y < 0 {
            -y
        } else {
            y
        })
    }
}

/// Whether `text` writes the day `d` of the month `m` of the year `y`, the year first.
pub open spec fn is_written_date(text: Seq<char>, y: int, m: int, d: int) -> bool {
    exists|year: Seq<char>, month: Seq<char>, day: Seq<char>|
        {
            &&& text == year + seq!['-'] + month + seq!['-'] + day
            &&& #[trigger] is_year(year, y)
            &&& #[trigger] is_number(month)
            &&& month.len() == 2
            &&& value_of(month) == m
            &&& #[trigger] is_number(day)
            &&& day.len() == 2
            &&& value_of(day) == d
        }
}

/// How many days the month `m` of the year `y` has.
pub open spec fn month_days(y: int, m: int) -> int {
    if m == 2 {
        if y % 400 == 0 || (y % 4 == 0 && y % 100 != 0) {
            29
        } else {
            28
        }
    } else if m == 4 || m == 6 || m == 9 || m == 11 {
        30
    } else {
        31
    }
}

/// The date after the day `d` of the month `m` of the year `y`.
pub open spec fn next_date(y: int, m: int, d: int) -> (int, int, int) {
    if d < month_days(y, m) {
        (y, m, d + 1)
    } else if m < 12 {
        (y, m + 1, 1)
    } else {
        (y + 1, 1, 1)
    }
}

/// Days are counted as the calendar turns: from the first of January 1970 on, by one from each date
/// to the next, through months of their lengths and leap years.
pub proof fn law_days_follow_the_calendar(y: int, m: int, d: int)
    ensures
        is_date(y, m, d) <==> 1 <= m <= 12 && 1 <= d <= month_days(y, m),
        day_number(1970, 1, 1) == 0,
        is_date(y, m, d) ==> {
            let (z, n, e) = next_date(y, m, d);
            is_date(z, n, e) && day_number(z, n, e) == day_number(y, m, d) + 1
        },
{
    crate::table::temporal::lemma_next_year(y);
    assert(is_date(y, m, d) <==> 1 <= m <= 12 && 1 <= d <= month_days(y, m));
    if is_date(y, m, d) {
        let (z, n, e) = next_date(y, m, d);
        assert(is_date(z, n, e));
    }
}

proof fn lemma_padded(n: nat, width: nat)
    requires
        n < ten_to(width),
        1 <= width,
    ensures
        is_number(padded_dec(n, width as int)),
        padded_dec(n, width as int).len() == width,
        value_of(padded_dec(n, width as int)) == n,
{
    lemma_padded_reads_back(n, width as int);
    lemma_dec_len(n, width);
}

/// A number is written without a zero in front of it.
proof fn lemma_first_digit(n: nat)
    ensures
        dec(n).len() > 1 ==> dec(n)[0] != '0',
        n > 0 ==> dec(n)[0] != '0',
        dec(n).len() >= 1,
    decreases n,
{
    if n >= 10 {
        lemma_first_digit(n / 10);
        assert(dec(n)[0] == dec(n / 10)[0]);
    }
}

/// A number that is longer than it is padded to is not padded.
proof fn lemma_first_padded(n: nat, width: int)
    ensures
        padded_dec(n, width).len() > width && width >= 1 ==> padded_dec(n, width)[0] != '0',
{
    lemma_first_digit(n);
    if padded_dec(n, width).len() > width {
        assert(padded_dec(n, width) =~= dec(n));
    }
}

proof fn lemma_powers()
    ensures
        ten_to(2) == 100,
        ten_to(3) == 1_000,
        ten_to(4) == 10_000,
        ten_to(6) == 1_000_000,
        ten_to(9) == 1_000_000_000,
        power_of_ten(0) == 1,
        power_of_ten(3) == 1_000,
        power_of_ten(6) == 1_000_000,
{
    reveal_with_fuel(ten_to, 10);
    reveal_with_fuel(power_of_ten, 7);
}

proof fn lemma_fraction(fraction: nat)
    requires
        fraction < 1_000_000_000,
    ensures
        is_fraction(fraction_text(fraction), fraction as int),
        ({
            let n = fraction_text(fraction).len();
            &&& n == 0 || n == 4 || n == 7 || n == 10
            &&& n == 7 ==> fraction % 1_000_000 != 0
            &&& n == 10 ==> fraction % 1_000 != 0
        }),
{
    lemma_powers();
    let text = fraction_text(fraction);
    if fraction == 0 {
    } else if fraction % 1_000_000 == 0 {
        lemma_padded(fraction / 1_000_000, 3);
        assert(text.skip(1) =~= padded_dec(fraction / 1_000_000, 3));
    } else if fraction % 1_000 == 0 {
        lemma_padded(fraction / 1_000, 6);
        assert(text.skip(1) =~= padded_dec(fraction / 1_000, 6));
    } else {
        lemma_padded(fraction, 9);
        assert(text.skip(1) =~= padded_dec(fraction, 9));
    }
}

/// A time of day's text says the time: its hours, minutes, seconds and fraction add up to it.
pub proof fn law_clocks_read_back(nanos: int)
    ensures
        is_clock(clock_text(nanos), nanos),
{
    lemma_powers();
    let m = magnitude(nanos) as int;
    let s = m / 1_000_000_000;
    let part = m % 1_000_000_000;
    let before = sign(nanos);
    let hours = padded_dec((s / 3_600) as nat, 2);
    let minutes = padded_dec((s / 60 % 60) as nat, 2);
    let seconds = padded_dec((s % 60) as nat, 2);
    let after = fraction_text(part as nat);
    lemma_padded_reads_back((s / 3_600) as nat, 2);
    lemma_first_padded((s / 3_600) as nat, 2);
    lemma_padded((s / 60 % 60) as nat, 2);
    lemma_padded((s % 60) as nat, 2);
    lemma_fraction(part as nat);
    assert(is_number(hours));
    assert(s == (s / 3_600) * 3_600 + (s / 60 % 60) * 60 + s % 60);
    assert(clock_text(nanos) =~= before + hours + seq![':'] + minutes + seq![':'] + seconds
        + after);
    assert((before + hours).len() >= 0);
    assert(is_number(minutes) && is_number(seconds) && is_fraction(after, part));
}

/// Zeros at a fraction's end may be left out.
proof fn lemma_trimmed_value(digits: Seq<char>, nanos: int)
    requires
        is_number(digits),
        digits.len() <= 9,
        0 < nanos,
        nanos == value_of(digits) * power_of_ten((9 - digits.len()) as nat),
    ensures
        ({
            let cut = trimmed(digits);
            &&& is_number(cut)
            &&& cut.len() <= 9
            &&& cut.last() != '0'
            &&& nanos == value_of(cut) * power_of_ten((9 - cut.len()) as nat)
        }),
    decreases digits.len(),
{
    if digits.last() == '0' {
        let front = digits.drop_last();
        let left = (9 - digits.len()) as nat;
        assert(value_of(digits) == 10 * value_of(front));
        assert(power_of_ten((left + 1) as nat) == 10 * power_of_ten(left));
        let (v, p) = (value_of(front), power_of_ten(left));
        assert((10 * v) * p == v * (10 * p)) by (nonlinear_arith);
        if front.len() == 0 {
            assert(value_of(front) == 0);
            assert(nanos == 0) by (nonlinear_arith)
                requires
                    nanos == (10 * v) * p,
                    v == 0,
            ;
        }
        assert forall|i: int| 0 <= i < front.len() implies '0' <= #[trigger] front[i] <= '9' by {
            assert(front[i] == digits[i]);
        }
        lemma_trimmed_value(front, nanos);
    }
}

/// A duration's text says how long it is: its whole seconds and their fraction add up to it.
pub proof fn law_durations_read_back(nanos: int)
    ensures
        is_duration(duration_text(nanos), nanos),
{
    lemma_powers();
    let m = magnitude(nanos) as int;
    let part = m % 1_000_000_000;
    let before = sign(nanos);
    let whole = dec((m / 1_000_000_000) as nat);
    lemma_dec_reads_back((m / 1_000_000_000) as nat);
    lemma_first_digit((m / 1_000_000_000) as nat);
    assert(is_number(whole));
    let digits = padded_dec(part as nat, 9);
    let after = if part == 0 {
        Seq::<char>::empty()
    } else {
        seq!['.'] + trimmed(digits)
    };
    if part != 0 {
        lemma_padded(part as nat, 9);
        lemma_trimmed_value(digits, part);
        assert(after.skip(1) =~= trimmed(digits));
        assert(after.last() == trimmed(digits).last());
    }
    assert(duration_text(nanos) =~= before + seq!['P', 'T'] + whole + after + seq!['S']);
    assert((before + whole).len() >= 0);
    assert(is_fraction(after, part));
}

/// A date's text says which date it is: its year, its month and its day, in that order.
pub proof fn law_dates_read_back(days: int, text: Seq<char>)
    requires
        is_date_text(days, text),
    ensures
        exists|y: int, m: int, d: int| #[trigger]
            is_written_date(text, y, m, d) && is_date(y, m, d) && day_number(y, m, d) == days,
{
    lemma_powers();
    let (y, m, d) = choose|y: int, m: int, d: int| #[trigger]
        is_date(y, m, d) && day_number(y, m, d) == days && text == date_text(y, m, d);
    let year = if y < 0 {
        seq!['-'] + padded_dec((-y) as nat, 4)
    } else if y <= 9_999 {
        padded_dec(y as nat, 4)
    } else {
        seq!['+'] + dec(y as nat)
    };
    if y < 0 {
        lemma_padded_reads_back((-y) as nat, 4);
        lemma_first_padded((-y) as nat, 4);
        assert(year.skip(1) =~= padded_dec((-y) as nat, 4));
    } else if y <= 9_999 {
        lemma_padded(y as nat, 4);
    } else {
        lemma_dec_reads_back(y as nat);
        lemma_first_digit(y as nat);
        assert(year.skip(1) =~= dec(y as nat));
        lemma_long(y as nat);
    }
    assert(is_year(year, y));
    let month = padded_dec(m as nat, 2);
    let day = padded_dec(d as nat, 2);
    lemma_padded(m as nat, 2);
    lemma_padded(d as nat, 2);
    assert(text =~= year + seq!['-'] + month + seq!['-'] + day);
    assert(is_number(month) && is_number(day));
    assert(is_written_date(text, y, m, d));
}

proof fn lemma_long(n: nat)
    requires
        n > 9_999,
    ensures
        dec(n).len() >= 4,
{
    reveal_with_fuel(dec, 5);
    assert(n / 10 >= 10 && n / 10 / 10 >= 10 && n / 10 / 10 / 10 >= 1);
}

/// The exact text of a temporal value says the value: of a date its day, of a time of day and a
/// duration its length in its unit, and of a timestamp its day and the time of that day, with `Z`
/// where it is an instant.
pub proof fn law_exact_texts_read_back(kind: Temporal, value: i64, text: Seq<char>)
    requires
        is_exact_text(kind, value, text),
    ensures
        match kind {
            Temporal::Date32 => exists|y: int, m: int, d: int| #[trigger]
                is_written_date(text, y, m, d) && is_date(y, m, d) && day_number(y, m, d) == value,
            Temporal::Date64 => exists|y: int, m: int, d: int| #[trigger]
                is_written_date(text, y, m, d) && is_date(y, m, d) && day_number(y, m, d)
                    * 86_400_000 <= value < (day_number(y, m, d) + 1) * 86_400_000,
            Temporal::Time(unit) => is_clock(text, value * nanos_per(unit)),
            Temporal::Duration(unit) => is_duration(text, value * nanos_per(unit)),
            Temporal::Timestamp(unit, zoned) => exists|
                y: int,
                m: int,
                d: int,
                date: Seq<char>,
                time: Seq<char>,
                of_day: int,
            |
                {
                    &&& text == date + seq!['T'] + time + (if zoned {
                        seq!['Z']
                    } else {
                        Seq::<char>::empty()
                    })
                    &&& #[trigger] is_written_date(date, y, m, d)
                    &&& is_date(y, m, d)
                    &&& #[trigger] is_clock(time, of_day)
                    &&& 0 <= of_day < 86_400_000_000_000
                    &&& day_number(y, m, d) * 86_400_000_000_000 + of_day == value * nanos_per(unit)
                },
        },
{
    match kind {
        Temporal::Date32 => law_dates_read_back(value as int, text),
        Temporal::Date64 => {
            law_dates_read_back(value as int / 86_400_000, text);
            let (y, m, d) = choose|y: int, m: int, d: int| #[trigger]
                is_written_date(text, y, m, d) && is_date(y, m, d) && day_number(y, m, d)
                    == value as int / 86_400_000;
            assert(is_written_date(text, y, m, d));
        },
        Temporal::Time(unit) => law_clocks_read_back(value * nanos_per(unit)),
        Temporal::Duration(unit) => law_durations_read_back(value * nanos_per(unit)),
        Temporal::Timestamp(unit, zoned) => {
            let nanos = value * nanos_per(unit);
            let days = nanos / 86_400_000_000_000;
            let of_day = nanos % 86_400_000_000_000;
            let end = if zoned {
                seq!['Z']
            } else {
                Seq::<char>::empty()
            };
            let date = choose|date: Seq<char>| #[trigger]
                is_date_text(days, date) && text == date + seq!['T'] + clock_text(of_day) + end;
            law_dates_read_back(days, date);
            law_clocks_read_back(of_day);
            let (y, m, d) = choose|y: int, m: int, d: int| #[trigger]
                is_written_date(date, y, m, d) && is_date(y, m, d) && day_number(y, m, d) == days;
            assert(is_written_date(date, y, m, d) && is_clock(clock_text(of_day), of_day));
        },
    }
}

} // verus!
