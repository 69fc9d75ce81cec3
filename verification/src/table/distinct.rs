//! Exact texts of temporal values keep every value: no two values have one text.

use crate::table::temporal::{
    clock_text, date_text, day_number, duration_text, fraction_text, is_date, is_date_text,
    is_exact_text, is_timestamp_text, law_a_day_is_one_date, magnitude, nanos_per, sign, trimmed,
    Temporal, TimeUnit, DAY,
};
use crate::text::{
    dec, digit_char, lemma_dec_len, lemma_padded_reads_back, padded_dec, ten_to, zeros,
};
use vstd::prelude::*;

verus! {

/// Whether `c` is a decimal digit.
pub open spec fn is_digit(c: char) -> bool {
    '0' <= c <= '9'
}

/// Whether every character of `text` is a decimal digit.
spec fn is_digits(text: Seq<char>) -> bool {
    forall|i: int| 0 <= i < text.len() ==> is_digit(#[trigger] text[i])
}

proof fn lemma_dec_digits(n: nat)
    ensures
        is_digits(dec(n)),
        dec(n).len() >= 1,
    decreases n,
{
    if n >= 10 {
        lemma_dec_digits(n / 10);
    }
    assert(is_digit(digit_char((n % 10) as int)));
}

proof fn lemma_padded_digits(n: nat, width: int)
    ensures
        is_digits(padded_dec(n, width)),
        padded_dec(n, width).len() >= 1,
        padded_dec(n, width).len() >= width,
{
    lemma_dec_digits(n);
}

/// Two numbers written with one padding as one text are one number.
proof fn lemma_padded_distinct(a: nat, b: nat, width: int)
    requires
        padded_dec(a, width) == padded_dec(b, width),
    ensures
        a == b,
{
    lemma_padded_reads_back(a, width);
    lemma_padded_reads_back(b, width);
}

proof fn lemma_dec_distinct(a: nat, b: nat)
    requires
        dec(a) == dec(b),
    ensures
        a == b,
{
    assert(padded_dec(a, 0) =~= dec(a));
    assert(padded_dec(b, 0) =~= dec(b));
    lemma_padded_distinct(a, b, 0);
}

/// Digits end where the first other character stands.
proof fn lemma_digits_end(a: Seq<char>, rest: Seq<char>, b: Seq<char>, other: Seq<char>)
    requires
        a + rest == b + other,
        is_digits(a),
        is_digits(b),
        rest.len() > 0,
        other.len() > 0,
        !is_digit(rest[0]),
        !is_digit(other[0]),
    ensures
        a == b,
        rest == other,
{
    let whole = a + rest;
    assert(whole == b + other);
    if a.len() < b.len() {
        assert(whole[a.len() as int] == rest[0]);
        assert((b + other)[a.len() as int] == b[a.len() as int]);
    }
    if b.len() < a.len() {
        assert((b + other)[b.len() as int] == other[0]);
        assert(whole[b.len() as int] == a[b.len() as int]);
    }
    assert(a =~= whole.take(a.len() as int));
    assert(b =~= whole.take(b.len() as int));
    assert(rest =~= whole.skip(a.len() as int));
    assert(other =~= whole.skip(b.len() as int));
}

/// Texts of one length in front of one text are the same, as is what follows.
proof fn lemma_same_front(a: Seq<char>, rest: Seq<char>, b: Seq<char>, other: Seq<char>)
    requires
        a + rest == b + other,
        a.len() == b.len(),
    ensures
        a == b,
        rest == other,
{
    let whole = a + rest;
    assert(a =~= whole.take(a.len() as int));
    assert(b =~= (b + other).take(b.len() as int));
    assert(rest =~= whole.skip(a.len() as int));
    assert(other =~= (b + other).skip(b.len() as int));
}

proof fn lemma_two_digits(n: nat)
    requires
        n < 100,
    ensures
        padded_dec(n, 2).len() == 2,
{
    assert(ten_to(2) == 100) by {
        reveal_with_fuel(ten_to, 3);
    }
    lemma_dec_len(n, 2);
    lemma_dec_digits(n);
}

/// The same fraction's text is the same fraction.
proof fn lemma_fraction_distinct(a: nat, b: nat)
    requires
        a < 1_000_000_000,
        b < 1_000_000_000,
        fraction_text(a) == fraction_text(b),
    ensures
        a == b,
{
    lemma_fraction_len(a);
    lemma_fraction_len(b);
    let width = fraction_text(a).len() - 1;
    if a != 0 && b != 0 {
        let x = fraction_text(a).skip(1);
        let y = fraction_text(b).skip(1);
        if width == 3 {
            assert(x =~= padded_dec(a / 1_000_000, 3));
            assert(y =~= padded_dec(b / 1_000_000, 3));
            lemma_padded_distinct(a / 1_000_000, b / 1_000_000, 3);
        } else if width == 6 {
            assert(x =~= padded_dec(a / 1_000, 6));
            assert(y =~= padded_dec(b / 1_000, 6));
            lemma_padded_distinct(a / 1_000, b / 1_000, 6);
        } else {
            assert(x =~= padded_dec(a, 9));
            assert(y =~= padded_dec(b, 9));
            lemma_padded_distinct(a, b, 9);
        }
    }
}

proof fn lemma_fraction_len(fraction: nat)
    requires
        fraction < 1_000_000_000,
    ensures
        fraction == 0 ==> fraction_text(fraction).len() == 0,
        fraction != 0 ==> fraction_text(fraction)[0] == '.',
        fraction != 0 && fraction % 1_000_000 == 0 ==> fraction_text(fraction).len() == 4,
        fraction % 1_000_000 != 0 && fraction % 1_000 == 0 ==> fraction_text(fraction).len() == 7,
        fraction % 1_000 != 0 ==> fraction_text(fraction).len() == 10,
{
    assert(ten_to(3) == 1_000) by {
        reveal_with_fuel(ten_to, 4);
    }
    assert(ten_to(6) == 1_000_000) by {
        reveal_with_fuel(ten_to, 7);
    }
    assert(ten_to(9) == 1_000_000_000) by {
        reveal_with_fuel(ten_to, 10);
    }
    if fraction % 1_000_000 == 0 {
        lemma_dec_len(fraction / 1_000_000, 3);
    } else if fraction % 1_000 == 0 {
        lemma_dec_len(fraction / 1_000, 6);
        assert(fraction != 0);
    } else {
        lemma_dec_len(fraction, 9);
        assert(fraction != 0);
    }
}

/// A sign in front of digits is told from no sign.
proof fn lemma_signs(a: int, rest: Seq<char>, b: int, other: Seq<char>)
    requires
        sign(a) + rest == sign(b) + other,
        rest.len() > 0,
        other.len() > 0,
        rest[0] != '-',
        other[0] != '-',
    ensures
        (a < 0) == (b < 0),
        rest == other,
{
    let whole = sign(a) + rest;
    assert(whole == sign(b) + other);
    if a < 0 {
        assert(whole[0] == '-');
        if b >= 0 {
            assert(sign(b) + other =~= other);
        }
    } else {
        assert(whole =~= rest);
        if b < 0 {
            assert((sign(b) + other)[0] == '-');
        }
    }
    lemma_same_front(sign(a), rest, sign(b), other);
}

/// Two pairs of digits between one sign, and what follows them.
spec fn pairs(c: char, p: Seq<char>, s: Seq<char>, rest: Seq<char>) -> Seq<char> {
    seq![c] + p + seq![c] + s + rest
}

proof fn lemma_pairs(
    c: char,
    p: Seq<char>,
    s: Seq<char>,
    f: Seq<char>,
    q: Seq<char>,
    t: Seq<char>,
    g: Seq<char>,
)
    requires
        p.len() == 2,
        s.len() == 2,
        q.len() == 2,
        t.len() == 2,
        pairs(c, p, s, f) == pairs(c, q, t, g),
    ensures
        p == q,
        s == t,
        f == g,
{
    let (a, b) = (pairs(c, p, s, f), pairs(c, q, t, g));
    assert(p =~= a.subrange(1, 3) && q =~= b.subrange(1, 3));
    assert(s =~= a.subrange(4, 6) && t =~= b.subrange(4, 6));
    assert(f =~= a.skip(6) && g =~= b.skip(6));
}

/// What follows the hours of a clock's text.
spec fn after_hours(m: int) -> Seq<char> {
    pairs(
        ':',
        padded_dec((m / 1_000_000_000 / 60 % 60) as nat, 2),
        padded_dec((m / 1_000_000_000 % 60) as nat, 2),
        fraction_text((m % 1_000_000_000) as nat),
    )
}

proof fn lemma_clock_shape(a: int)
    ensures
        ({
            let m = magnitude(a) as int;
            let hours = padded_dec((m / 1_000_000_000 / 3_600) as nat, 2);
            &&& clock_text(a) == sign(a) + (hours + after_hours(m))
            &&& is_digits(hours)
            &&& (hours + after_hours(m))[0] != '-'
            &&& (hours + after_hours(m)).len() > 0
            &&& after_hours(m).len() > 0
            &&& after_hours(m)[0] == ':'
        }),
{
    let m = magnitude(a) as int;
    let hours = padded_dec((m / 1_000_000_000 / 3_600) as nat, 2);
    lemma_padded_digits((m / 1_000_000_000 / 3_600) as nat, 2);
    assert(clock_text(a) =~= sign(a) + (hours + after_hours(m)));
    assert(is_digit(hours[0]));
    assert((hours + after_hours(m))[0] == hours[0]);
}

/// What follows the hours tells the minutes, the seconds and the fraction.
proof fn lemma_after_hours(m: int, n: int)
    requires
        0 <= m,
        0 <= n,
        after_hours(m) == after_hours(n),
    ensures
        m / 1_000_000_000 / 60 % 60 == n / 1_000_000_000 / 60 % 60,
        m / 1_000_000_000 % 60 == n / 1_000_000_000 % 60,
        m % 1_000_000_000 == n % 1_000_000_000,
{
    let (i, j) = (
        (m / 1_000_000_000 / 60 % 60) as nat,
        (n / 1_000_000_000 / 60 % 60) as nat,
    );
    let (k, l) = ((m / 1_000_000_000 % 60) as nat, (n / 1_000_000_000 % 60) as nat);
    let (f, g) = ((m % 1_000_000_000) as nat, (n % 1_000_000_000) as nat);
    lemma_two_digits(i);
    lemma_two_digits(j);
    lemma_two_digits(k);
    lemma_two_digits(l);
    lemma_pairs(
        ':',
        padded_dec(i, 2),
        padded_dec(k, 2),
        fraction_text(f),
        padded_dec(j, 2),
        padded_dec(l, 2),
        fraction_text(g),
    );
    lemma_padded_distinct(i, j, 2);
    lemma_padded_distinct(k, l, 2);
    lemma_fraction_distinct(f, g);
}

proof fn lemma_same_time(m: int, n: int)
    requires
        0 <= m,
        0 <= n,
        m / 1_000_000_000 / 3_600 == n / 1_000_000_000 / 3_600,
        m / 1_000_000_000 / 60 % 60 == n / 1_000_000_000 / 60 % 60,
        m / 1_000_000_000 % 60 == n / 1_000_000_000 % 60,
        m % 1_000_000_000 == n % 1_000_000_000,
    ensures
        m == n,
{
    let (a, b) = (m / 1_000_000_000, n / 1_000_000_000);
    assert(a / 3_600 == a / 60 / 60);
    assert(b / 3_600 == b / 60 / 60);
    assert(a / 60 == b / 60);
    assert(a == b);
}

/// No two times have one clock's text.
pub proof fn law_clock_texts_are_distinct(a: int, b: int)
    requires
        clock_text(a) == clock_text(b),
    ensures
        a == b,
{
    let (m, n) = (magnitude(a) as int, magnitude(b) as int);
    let (i, j) = (
        (m / 1_000_000_000 / 3_600) as nat,
        (n / 1_000_000_000 / 3_600) as nat,
    );
    lemma_clock_shape(a);
    lemma_clock_shape(b);
    let (x, y) = (padded_dec(i, 2), padded_dec(j, 2));
    lemma_signs(a, x + after_hours(m), b, y + after_hours(n));
    lemma_digits_end(x, after_hours(m), y, after_hours(n));
    lemma_padded_distinct(i, j, 2);
    lemma_after_hours(m, n);
    lemma_same_time(m, n);
}

/// Digits and the zeros trimmed from them are the digits.
proof fn lemma_trimmed(digits: Seq<char>)
    ensures
        trimmed(digits).len() <= digits.len(),
        digits == trimmed(digits) + zeros(digits.len() - trimmed(digits).len()),
    decreases digits.len(),
{
    if digits.len() > 0 && digits.last() == '0' {
        let front = digits.drop_last();
        lemma_trimmed(front);
        assert(digits =~= front.push('0'));
        assert(digits =~= trimmed(front) + zeros(digits.len() - trimmed(front).len()));
    } else {
        assert(digits =~= digits + zeros(0));
    }
}

/// What follows the whole seconds of a duration's text.
spec fn after_seconds(fraction: nat) -> Seq<char> {
    if fraction == 0 {
        seq!['S']
    } else {
        seq!['.'] + trimmed(padded_dec(fraction, 9)) + seq!['S']
    }
}

proof fn lemma_after_seconds(f: nat, g: nat)
    requires
        f < 1_000_000_000,
        g < 1_000_000_000,
        after_seconds(f) == after_seconds(g),
    ensures
        f == g,
{
    let (r, s) = (after_seconds(f), after_seconds(g));
    assert(f == 0 ==> r[0] == 'S');
    assert(f != 0 ==> r[0] == '.');
    assert(g == 0 ==> s[0] == 'S');
    assert(g != 0 ==> s[0] == '.');
    if f != 0 && g != 0 {
        let (p, q) = (padded_dec(f, 9), padded_dec(g, 9));
        lemma_trimmed(p);
        lemma_trimmed(q);
        assert(trimmed(p) =~= r.subrange(1, r.len() - 1));
        assert(trimmed(q) =~= s.subrange(1, s.len() - 1));
        assert(ten_to(9) == 1_000_000_000) by {
            reveal_with_fuel(ten_to, 10);
        }
        lemma_dec_len(f, 9);
        lemma_dec_len(g, 9);
        assert(p.len() == 9 && q.len() == 9);
        lemma_padded_distinct(f, g, 9);
    }
}

proof fn lemma_duration_shape(a: int)
    ensures
        ({
            let m = magnitude(a) as int;
            let whole = dec((m / 1_000_000_000) as nat);
            let rest = after_seconds((m % 1_000_000_000) as nat);
            &&& duration_text(a) == sign(a) + (seq!['P', 'T'] + (whole + rest))
            &&& is_digits(whole)
            &&& (seq!['P', 'T'] + (whole + rest))[0] != '-'
            &&& (seq!['P', 'T'] + (whole + rest)).len() > 0
            &&& rest.len() > 0
            &&& !is_digit(rest[0])
        }),
{
    let m = magnitude(a) as int;
    let whole = dec((m / 1_000_000_000) as nat);
    let rest = after_seconds((m % 1_000_000_000) as nat);
    lemma_dec_digits((m / 1_000_000_000) as nat);
    assert(duration_text(a) =~= sign(a) + (seq!['P', 'T'] + (whole + rest)));
    assert((seq!['P', 'T'] + (whole + rest))[0] == 'P');
    assert(rest[0] == 'S' || rest[0] == '.');
}

/// No two durations have one text.
pub proof fn law_duration_texts_are_distinct(a: int, b: int)
    requires
        duration_text(a) == duration_text(b),
    ensures
        a == b,
{
    let (m, n) = (magnitude(a) as int, magnitude(b) as int);
    let (i, j) = ((m / 1_000_000_000) as nat, (n / 1_000_000_000) as nat);
    let (f, g) = ((m % 1_000_000_000) as nat, (n % 1_000_000_000) as nat);
    lemma_duration_shape(a);
    lemma_duration_shape(b);
    let (x, y) = (dec(i) + after_seconds(f), dec(j) + after_seconds(g));
    lemma_signs(a, seq!['P', 'T'] + x, b, seq!['P', 'T'] + y);
    lemma_same_front(seq!['P', 'T'], x, seq!['P', 'T'], y);
    lemma_digits_end(dec(i), after_seconds(f), dec(j), after_seconds(g));
    lemma_dec_distinct(i, j);
    lemma_after_seconds(f, g);
    assert(m == n);
}

/// The year of a date's text.
spec fn year_text(y: int) -> Seq<char> {
    if y < 0 {
        seq!['-'] + padded_dec((-y) as nat, 4)
    } else if y <= 9_999 {
        padded_dec(y as nat, 4)
    } else {
        seq!['+'] + dec(y as nat)
    }
}

/// What follows the year of a date's text.
spec fn after_year(m: int, d: int) -> Seq<char> {
    pairs('-', padded_dec(m as nat, 2), padded_dec(d as nat, 2), Seq::empty())
}

proof fn lemma_date_shape(y: int, m: int, d: int)
    requires
        is_date(y, m, d),
    ensures
        date_text(y, m, d) == year_text(y) + after_year(m, d),
        after_year(m, d).len() > 0,
        after_year(m, d)[0] == '-',
        year_text(y).len() > 0,
        y < 0 ==> year_text(y)[0] == '-',
        0 <= y <= 9_999 ==> is_digits(year_text(y)) && is_digit(year_text(y)[0]),
        y > 9_999 ==> year_text(y)[0] == '+',
{
    assert(date_text(y, m, d) =~= year_text(y) + after_year(m, d));
    if 0 <= y <= 9_999 {
        lemma_padded_digits(y as nat, 4);
    }
}

/// One year's text in front of one text is one year.
proof fn lemma_years_distinct(y: int, r: Seq<char>, z: int, s: Seq<char>)
    requires
        y < 0 && z < 0 || 0 <= y <= 9_999 && 0 <= z <= 9_999 || y > 9_999 && z > 9_999,
        year_text(y) + r == year_text(z) + s,
        r.len() > 0,
        s.len() > 0,
        r[0] == '-',
        s[0] == '-',
    ensures
        y == z,
        r == s,
{
    if y < 0 {
        let (a, b) = (padded_dec((-y) as nat, 4), padded_dec((-z) as nat, 4));
        lemma_padded_digits((-y) as nat, 4);
        lemma_padded_digits((-z) as nat, 4);
        assert(year_text(y) + r =~= seq!['-'] + (a + r));
        assert(year_text(z) + s =~= seq!['-'] + (b + s));
        lemma_same_front(seq!['-'], a + r, seq!['-'], b + s);
        lemma_digits_end(a, r, b, s);
        lemma_padded_distinct((-y) as nat, (-z) as nat, 4);
    } else if y <= 9_999 {
        lemma_padded_digits(y as nat, 4);
        lemma_padded_digits(z as nat, 4);
        lemma_digits_end(padded_dec(y as nat, 4), r, padded_dec(z as nat, 4), s);
        lemma_padded_distinct(y as nat, z as nat, 4);
    } else {
        let (a, b) = (dec(y as nat), dec(z as nat));
        lemma_dec_digits(y as nat);
        lemma_dec_digits(z as nat);
        assert(year_text(y) + r =~= seq!['+'] + (a + r));
        assert(year_text(z) + s =~= seq!['+'] + (b + s));
        lemma_same_front(seq!['+'], a + r, seq!['+'], b + s);
        lemma_digits_end(a, r, b, s);
        lemma_dec_distinct(y as nat, z as nat);
    }
}

/// No two dates have one text.
pub proof fn law_date_texts_are_distinct(y: int, m: int, d: int, z: int, n: int, e: int)
    requires
        is_date(y, m, d),
        is_date(z, n, e),
        date_text(y, m, d) == date_text(z, n, e),
    ensures
        y == z,
        m == n,
        d == e,
{
    lemma_date_shape(y, m, d);
    lemma_date_shape(z, n, e);
    let whole = date_text(y, m, d);
    assert(whole[0] == year_text(y)[0]);
    assert(whole[0] == year_text(z)[0]);
    lemma_years_distinct(y, after_year(m, d), z, after_year(n, e));
    lemma_two_digits(m as nat);
    lemma_two_digits(n as nat);
    lemma_two_digits(d as nat);
    lemma_two_digits(e as nat);
    lemma_pairs(
        '-',
        padded_dec(m as nat, 2),
        padded_dec(d as nat, 2),
        Seq::empty(),
        padded_dec(n as nat, 2),
        padded_dec(e as nat, 2),
        Seq::empty(),
    );
    lemma_padded_distinct(m as nat, n as nat, 2);
    lemma_padded_distinct(d as nat, e as nat, 2);
}

proof fn lemma_days_distinct(a: int, b: int, text: Seq<char>)
    requires
        is_date_text(a, text),
        is_date_text(b, text),
    ensures
        a == b,
{
    let (y, m, d) = choose|y: int, m: int, d: int| #[trigger]
        is_date(y, m, d) && day_number(y, m, d) == a && text == date_text(y, m, d);
    let (z, n, e) = choose|z: int, n: int, e: int| #[trigger]
        is_date(z, n, e) && day_number(z, n, e) == b && text == date_text(z, n, e);
    law_date_texts_are_distinct(y, m, d, z, n, e);
}

/// A date's text holds no `T`.
proof fn lemma_date_text_chars(days: int, text: Seq<char>)
    requires
        is_date_text(days, text),
    ensures
        forall|i: int| 0 <= i < text.len() ==> #[trigger] text[i] != 'T',
{
    let (y, m, d) = choose|y: int, m: int, d: int| #[trigger]
        is_date(y, m, d) && day_number(y, m, d) == days && text == date_text(y, m, d);
    lemma_padded_digits((-y) as nat, 4);
    lemma_padded_digits(y as nat, 4);
    lemma_dec_digits(y as nat);
    lemma_padded_digits(m as nat, 2);
    lemma_padded_digits(d as nat, 2);
    assert(text =~= year_text(y) + after_year(m, d));
    assert forall|i: int| 0 <= i < year_text(y).len() implies #[trigger] year_text(y)[i] != 'T' by {
        if y < 0 {
            if i > 0 {
                assert(is_digit(padded_dec((-y) as nat, 4)[i - 1]));
            }
        } else if y <= 9_999 {
            assert(is_digit(padded_dec(y as nat, 4)[i]));
        } else {
            if i > 0 {
                assert(is_digit(dec(y as nat)[i - 1]));
            }
        }
    }
    let rest = after_year(m, d);
    lemma_two_digits(m as nat);
    lemma_two_digits(d as nat);
    assert forall|i: int| 0 <= i < rest.len() implies #[trigger] rest[i] != 'T' by {
        if 1 <= i < 3 {
            assert(is_digit(padded_dec(m as nat, 2)[i - 1]));
        } else if 4 <= i {
            assert(is_digit(padded_dec(d as nat, 2)[i - 4]));
        }
    }
    assert forall|i: int| 0 <= i < text.len() implies #[trigger] text[i] != 'T' by {
        if i < year_text(y).len() {
            assert(text[i] == year_text(y)[i]);
        } else {
            assert(text[i] == rest[i - year_text(y).len()]);
        }
    }
}

/// A character that neither text in front of it holds tells where they end.
proof fn lemma_around(
    c: char,
    x: Seq<char>,
    p: Seq<char>,
    y: Seq<char>,
    q: Seq<char>,
    end: Seq<char>,
)
    requires
        x + seq![c] + p + end == y + seq![c] + q + end,
        forall|i: int| 0 <= i < x.len() ==> #[trigger] x[i] != c,
        forall|i: int| 0 <= i < y.len() ==> #[trigger] y[i] != c,
    ensures
        x == y,
        p == q,
{
    let text = x + seq![c] + p + end;
    let other = y + seq![c] + q + end;
    assert(text[x.len() as int] == c);
    assert(other[y.len() as int] == c);
    if x.len() < y.len() {
        assert(other[x.len() as int] == y[x.len() as int]);
    }
    if y.len() < x.len() {
        assert(text[y.len() as int] == x[y.len() as int]);
    }
    assert(x =~= text.take(x.len() as int));
    assert(y =~= other.take(y.len() as int));
    assert(text.len() == x.len() + 1 + p.len() + end.len());
    assert(other.len() == y.len() + 1 + q.len() + end.len());
    assert(p =~= text.subrange(x.len() as int + 1, text.len() - end.len()));
    assert(q =~= other.subrange(y.len() as int + 1, other.len() - end.len()));
}

/// Days and the rest of a day tell an instant.
proof fn lemma_same_instant(a: int, b: int)
    requires
        a / (DAY as int) == b / (DAY as int),
        a % (DAY as int) == b % (DAY as int),
    ensures
        a == b,
{
}

proof fn lemma_instants_distinct(a: int, b: int, zoned: bool, text: Seq<char>)
    requires
        is_timestamp_text(a, zoned, text),
        is_timestamp_text(b, zoned, text),
    ensures
        a == b,
{
    let end = if zoned {
        seq!['Z']
    } else {
        Seq::empty()
    };
    let (k, l) = (a / (DAY as int), b / (DAY as int));
    let (r, s) = (a % (DAY as int), b % (DAY as int));
    let x = choose|x: Seq<char>| #[trigger]
        is_date_text(k, x) && text == x + seq!['T'] + clock_text(r) + end;
    let y = choose|y: Seq<char>| #[trigger]
        is_date_text(l, y) && text == y + seq!['T'] + clock_text(s) + end;
    lemma_date_text_chars(k, x);
    lemma_date_text_chars(l, y);
    lemma_around('T', x, clock_text(r), y, clock_text(s), end);
    lemma_days_distinct(k, l, x);
    law_clock_texts_are_distinct(r, s);
    lemma_same_instant(a, b);
}

proof fn lemma_counts_distinct(a: i64, b: i64, unit: TimeUnit)
    requires
        a * nanos_per(unit) == b * nanos_per(unit),
    ensures
        a == b,
{
    match unit {
        TimeUnit::Second => {},
        TimeUnit::Millisecond => {},
        TimeUnit::Microsecond => {},
        TimeUnit::Nanosecond => {},
    }
}

/// No two values of a type have one exact text, but for the times of one day of a `Date64`, which
/// is read as a date.
pub proof fn law_exact_texts_are_distinct(kind: Temporal, a: i64, b: i64, text: Seq<char>)
    requires
        is_exact_text(kind, a, text),
        is_exact_text(kind, b, text),
    ensures
        kind != Temporal::Date64 ==> a == b,
        kind == Temporal::Date64 ==> a as int / 86_400_000 == b as int / 86_400_000,
{
    match kind {
        Temporal::Date32 => lemma_days_distinct(a as int, b as int, text),
        Temporal::Date64 => lemma_days_distinct(
            a as int / 86_400_000,
            b as int / 86_400_000,
            text,
        ),
        Temporal::Time(unit) => {
            law_clock_texts_are_distinct(a * nanos_per(unit), b * nanos_per(unit));
            lemma_counts_distinct(a, b, unit);
        },
        Temporal::Timestamp(unit, zoned) => {
            lemma_instants_distinct(a * nanos_per(unit), b * nanos_per(unit), zoned, text);
            lemma_counts_distinct(a, b, unit);
        },
        Temporal::Duration(unit) => {
            law_duration_texts_are_distinct(a * nanos_per(unit), b * nanos_per(unit));
            lemma_counts_distinct(a, b, unit);
        },
    }
}

} // verus!
