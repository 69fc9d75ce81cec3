//! Dates and wall-clock times placed in a zone, and instants rendered in it.
//!
//! A wall-clock value in a zone is the instant it names there; where the zone's clocks repeat it,
//! the earlier one, and where they skip it, the instant the offset in force then gives. Every
//! product is checked: a value beyond the `i64` of its unit is refused, never wrapped.

use crate::table::temporal::{nanos_per, per_second, units_per_second, TimeUnit, DAY};
use crate::text::{chars_of, push_signed, signed_dec, text_view, value_of};
use arrow_array::temporal_conversions::as_datetime;
use arrow_array::timezone::Tz;
use arrow_array::types::TimestampSecondType;
use chrono::{LocalResult, Offset, TimeZone};
use vstd::prelude::*;
use vstd::string::*;

verus! {

/// The first second `chrono` holds: the first of January of the year -262143.
pub const FIRST_SECOND: i64 = -8_334_601_228_800;

/// The last second `chrono` holds: the last of December of the year 262142.
pub const LAST_SECOND: i64 = 8_210_266_876_799;

/// Whether `chrono` holds the second `second` after 1970 began.
pub open spec fn is_held(second: int) -> bool {
    FIRST_SECOND <= second <= LAST_SECOND
}

/// Whether `chrono` holds the second `second` after 1970 began.
pub fn held(second: i64) -> (held: bool)
    ensures
        held == is_held(second as int),
{
    FIRST_SECOND <= second && second <= LAST_SECOND
}

/// What a zone's clocks show at a wall-clock time: seconds they are ahead of UTC.
#[derive(Clone, Copy, Debug, PartialEq, Eq, Structural)]
pub enum LocalOffset {
    /// One instant shows it.
    Single(i32),
    /// Two do, the earlier first.
    Ambiguous(i32, i32),
    /// The clocks skip it.
    Skipped,
}

/// What Arrow says against the zone name `zone`: nothing where it knows the zone.
pub uninterp spec fn zone_fault(zone: Seq<char>) -> Option<Seq<char>>;

/// Whether Arrow knows the zone named `zone`.
pub open spec fn zone_known(zone: Seq<char>) -> bool {
    zone_fault(zone) is None
}

/// Whether `zone` begins with a sign, as offsets do and names do not.
pub open spec fn is_signed(zone: Seq<char>) -> bool {
    zone.len() > 0 && (zone[0] == '+' || zone[0] == '-')
}

/// Whether `zone` is an offset: a sign and `HH`, `HHMM` or `HH:MM`.
pub open spec fn is_offset(zone: Seq<char>) -> bool {
    &&& is_signed(zone)
    &&& {
        ||| zone.len() == 3 && all_digits(zone.skip(1))
        ||| zone.len() == 5 && all_digits(zone.skip(1))
        ||| zone.len() == 6 && zone[3] == ':' && all_digits(zone.subrange(1, 3)) && all_digits(
            zone.skip(4),
        )
    }
}

/// `arrow_array::timezone::Tz`'s `FromStr`: the text of the error where it does not take the
/// name. Which names its table holds is left to the name `zone_fault`; of those that begin with a
/// sign it takes offsets only.
#[verifier::external_body]
fn zone_parse(zone: &str) -> (fault: Option<String>)
    ensures
        match fault {
            Some(fault) => zone_fault(zone@) == Some(fault@),
            None => zone_fault(zone@) is None && (is_signed(zone@) ==> is_offset(zone@)),
        },
{
    zone.parse::<Tz>().err().map(|error| error.to_string())
}

/// What the clocks of `zone` are ahead of UTC where they show the second `second` of their own.
pub uninterp spec fn offset_at_local(zone: Seq<char>, second: i64) -> LocalOffset;

/// `chrono`'s `TimeZone::offset_from_local_datetime` for Arrow's zone `zone`, at the wall-clock
/// second `second`; what a zone's clocks show is left to the name.
#[verifier::external_body]
fn offset_from_local(zone: &str, second: i64) -> (offset: LocalOffset)
    requires
        zone_known(zone@),
        is_held(second as int),
    ensures
        offset == offset_at_local(zone@, second),
{
    let tz: Tz = zone.parse().unwrap();
    let local = as_datetime::<TimestampSecondType>(second).unwrap();
    match tz.offset_from_local_datetime(&local) {
        LocalResult::Single(one) => LocalOffset::Single(one.fix().local_minus_utc()),
        LocalResult::Ambiguous(a, b) => {
            LocalOffset::Ambiguous(a.fix().local_minus_utc(), b.fix().local_minus_utc())
        }
        LocalResult::None => LocalOffset::Skipped,
    }
}

/// What the clocks of `zone` are ahead of UTC at the second `second` of UTC.
pub uninterp spec fn offset_at_utc(zone: Seq<char>, second: i64) -> i32;

/// `chrono`'s `TimeZone::offset_from_utc_datetime` for Arrow's zone `zone`, at the second
/// `second` of UTC: less than a day either way; what it is is left to the name.
#[verifier::external_body]
pub(crate) fn offset_from_utc(zone: &str, second: i64) -> (offset: i32)
    requires
        zone_known(zone@),
        is_held(second as int),
    ensures
        offset == offset_at_utc(zone@, second),
        -86_400 < offset < 86_400,
{
    let tz: Tz = zone.parse().unwrap();
    let utc = as_datetime::<TimestampSecondType>(second).unwrap();
    tz.offset_from_utc_datetime(&utc).fix().local_minus_utc()
}

/// The number `text` is, read as Rust reads an `i64`: an optional sign and digits.
pub open spec fn parsed(text: Seq<char>) -> Option<int> {
    let signed = text.len() > 0 && (text[0] == '+' || text[0] == '-');
    let digits = if signed {
        text.skip(1)
    } else {
        text
    };
    let value = if signed && text[0] == '-' {
        -value_of(digits)
    } else {
        value_of(digits)
    };
    if digits.len() > 0 && all_digits(digits) && i64::MIN <= value <= i64::MAX {
        Some(value)
    } else {
        None
    }
}

/// Whether `text` is made of digits.
pub open spec fn all_digits(text: Seq<char>) -> bool {
    forall|i: int| 0 <= i < text.len() ==> '0' <= #[trigger] text[i] <= '9'
}

/// The value of a decimal digit.
fn digit_value(c: char) -> (value: u128)
    requires
        '0' <= c <= '9',
    ensures
        value == c as int - 48,
{
    (c as u32 - 48) as u128
}

proof fn lemma_value_nonnegative(text: Seq<char>)
    requires
        all_digits(text),
    ensures
        0 <= value_of(text),
    decreases text.len(),
{
    if text.len() > 0 {
        assert('0' <= text[text.len() - 1] <= '9');
        assert forall|i: int| 0 <= i < text.drop_last().len() implies '0'
            <= #[trigger] text.drop_last()[i] <= '9' by {
            assert(text.drop_last()[i] == text[i]);
        }
        lemma_value_nonnegative(text.drop_last());
    }
}

/// The number that `text` is from `from` up to `to`, read as Rust reads an `i64`.
fn parse_number(text: &Vec<char>, from: usize, to: usize) -> (number: Option<i64>)
    requires
        from <= to <= text@.len(),
    ensures
        match number {
            Some(number) => parsed(text@.subrange(from as int, to as int)) == Some(number as int),
            None => parsed(text@.subrange(from as int, to as int)) is None,
        },
{
    let ghost whole = text@.subrange(from as int, to as int);
    let signed: bool = from < to && (text[from] == '+' || text[from] == '-');
    let negative: bool = from < to && text[from] == '-';
    let start: usize = if signed {
        from + 1
    } else {
        from
    };
    let ghost digits = text@.subrange(start as int, to as int);
    proof {
        if from < to {
            assert(whole[0] == text@[from as int]);
        }
        if signed {
            assert(whole.skip(1) =~= digits);
        } else {
            assert(whole =~= digits);
        }
    }
    if start == to {
        return None;
    }
    let mut value: u128 = 0;
    let mut over: bool = false;
    let mut at: usize = start;
    proof {
        assert(digits.take(0) =~= Seq::<char>::empty());
        assert(!all_digits(digits) ==> parsed(whole) is None);
    }
    while at < to
        invariant
            start <= at <= to <= text@.len(),
            digits == text@.subrange(start as int, to as int),
            whole == text@.subrange(from as int, to as int),
            !all_digits(digits) ==> parsed(whole) is None,
            forall|i: int| 0 <= i < at - start ==> '0' <= #[trigger] digits[i] <= '9',
            !over ==> value == value_of(digits.take(at - start)) && value
                <= 9_223_372_036_854_775_808,
            over ==> value_of(digits.take(at - start)) > 9_223_372_036_854_775_808,
        decreases to - at,
    {
        let c: char = text[at];
        proof {
            let n = at - start;
            assert(c == digits[n]);
            assert(digits.take(n + 1).drop_last() =~= digits.take(n));
            assert(digits.take(n + 1).last() == c);
            assert(all_digits(digits.take(n)));
            lemma_value_nonnegative(digits.take(n));
        }
        if !('0' <= c && c <= '9') {
            assert(!all_digits(digits));
            return None;
        }
        if !over {
            value = value * 10 + digit_value(c);
            if value > 9_223_372_036_854_775_808 {
                over = true;
            }
        }
        at = at + 1;
    }
    proof {
        assert(digits.take(at - start) =~= digits);
        assert(all_digits(digits));
        lemma_value_nonnegative(digits);
    }
    if over {
        return None;
    }
    if negative {
        Some((-(value as i128)) as i64)
    } else if value <= 9_223_372_036_854_775_807 {
        Some(value as i64)
    } else {
        None
    }
}

/// Whether `zone` reads "UTC" or "Z".
pub open spec fn is_utc(zone: Seq<char>) -> bool {
    zone == seq!['U', 'T', 'C'] || zone == seq!['Z']
}

/// Where the first colon of `zone` at or after `from` stands; its length where there is none.
pub open spec fn first_colon(zone: Seq<char>, from: int) -> int
    decreases zone.len() - from,
{
    if from >= zone.len() {
        zone.len() as int
    } else if zone[from] == ':' {
        from
    } else {
        first_colon(zone, from + 1)
    }
}

/// The hours and minutes the signed `zone` writes: what its first colon parts, or its second and
/// third character and the rest.
pub open spec fn written_offset(zone: Seq<char>) -> (Seq<char>, Seq<char>) {
    let colon = first_colon(zone, 1);
    if colon < zone.len() {
        (zone.subrange(1, colon), zone.skip(colon + 1))
    } else {
        (zone.subrange(1, 3), zone.skip(3))
    }
}

/// Seconds a zone written as `UTC`, `Z` or a signed `HH:MM` or `HHMM` is ahead of UTC; none for a
/// named zone.
pub open spec fn fixed(zone: Seq<char>) -> Option<int> {
    let (hours, minutes) = written_offset(zone);
    if is_utc(zone) {
        Some(0)
    } else if !is_signed(zone) {
        None
    } else if let (Some(h), Some(m)) = (parsed(hours), parsed(minutes)) {
        Some(
            (if zone[0] == '+' {
                h * 3_600 + m * 60
            } else {
                -(h * 3_600 + m * 60)
            }),
        )
    } else {
        None
    }
}

/// Whether the signed `zone` can be read: two ASCII characters or more stand behind the sign, and
/// its seconds and their parts fit an `i64`, whichever the sign.
pub open spec fn is_readable(zone: Seq<char>) -> bool {
    let (hours, minutes) = written_offset(zone);
    &&& zone.len() >= 3
    &&& zone[1] as u32 <= 127
    &&& zone[2] as u32 <= 127
    &&& parsed(hours) matches Some(h) ==> parsed(minutes) matches Some(m) ==> {
        &&& i64::MIN <= h * 3_600 <= i64::MAX
        &&& i64::MIN <= m * 60 <= i64::MAX
        &&& i64::MIN < h * 3_600 + m * 60 <= i64::MAX
    }
}

/// Seconds a zone written as `UTC`, `Z` or a signed `HH:MM` or `HHMM` is ahead of UTC; `None` for
/// a named zone.
pub fn fixed_offset(zone: &str) -> (offset: Option<i64>)
    requires
        is_signed(zone@) ==> is_readable(zone@),
    ensures
        match offset {
            Some(offset) => fixed(zone@) == Some(offset as int),
            None => fixed(zone@) is None,
        },
{
    let text: Vec<char> = chars_of(zone);
    if text.len() == 3 && text[0] == 'U' && text[1] == 'T' && text[2] == 'C' {
        assert(zone@ =~= seq!['U', 'T', 'C']);
        return Some(0);
    }
    if text.len() == 1 && text[0] == 'Z' {
        assert(zone@ =~= seq!['Z']);
        return Some(0);
    }
    assert(!is_utc(zone@));
    if text.len() == 0 || (text[0] != '+' && text[0] != '-') {
        return None;
    }
    let mut colon: usize = 1;
    while colon < text.len() && text[colon] != ':'
        invariant
            text@ == zone@,
            1 <= colon <= text@.len(),
            first_colon(zone@, 1) == first_colon(zone@, colon as int),
        decreases text.len() - colon,
    {
        colon = colon + 1;
    }
    let (end, start): (usize, usize) = if colon < text.len() {
        (colon, colon + 1)
    } else {
        (3, 3)
    };
    proof {
        assert(zone@.skip(start as int) =~= zone@.subrange(start as int, zone@.len() as int));
    }
    let hours: i64 = match parse_number(&text, 1, end) {
        Some(hours) => hours,
        None => return None,
    };
    let minutes: i64 = match parse_number(&text, start, text.len()) {
        Some(minutes) => minutes,
        None => return None,
    };
    let seconds: i64 = hours * 3_600 + minutes * 60;
    if text[0] == '+' {
        Some(seconds)
    } else {
        Some(-seconds)
    }
}

proof fn lemma_two_digits(text: Seq<char>)
    requires
        all_digits(text),
        text.len() <= 2,
    ensures
        0 <= value_of(text) <= 99,
{
    reveal_with_fuel(value_of, 3);
    if text.len() == 2 {
        assert(text.drop_last().drop_last().len() == 0);
        assert(text.drop_last().last() == text[0]);
        assert('0' <= text[0] <= '9' && '0' <= text[1] <= '9');
    } else if text.len() == 1 {
        assert(text.drop_last().len() == 0);
        assert('0' <= text[0] <= '9');
    }
}

proof fn lemma_digits_parse(text: Seq<char>)
    requires
        all_digits(text),
        text.len() <= 2,
    ensures
        parsed(text) matches Some(n) ==> 0 <= n <= 99,
{
    lemma_two_digits(text);
    if text.len() > 0 {
        assert('0' <= text[0] <= '9');
    }
}

/// An offset Arrow takes can be read.
proof fn lemma_offsets_are_readable(zone: Seq<char>)
    requires
        is_offset(zone),
    ensures
        is_readable(zone),
{
    let (hours, minutes) = written_offset(zone);
    reveal_with_fuel(first_colon, 6);
    if zone.len() == 6 {
        assert(zone.subrange(1, 3)[0] == zone[1]);
        assert(zone.subrange(1, 3)[1] == zone[2]);
        assert(first_colon(zone, 1) == 3);
    } else {
        assert(forall|i: int| 1 <= i < zone.len() ==> zone[i] == zone.skip(1)[i - 1]);
        assert(zone.skip(1)[0] == zone[1]);
        assert(zone.skip(1)[1] == zone[2]);
        if zone.len() == 5 {
            assert(zone.skip(1)[2] == zone[3]);
            assert(zone.skip(1)[3] == zone[4]);
        }
        assert(first_colon(zone, 1) == zone.len());
    }
    assert(all_digits(hours));
    assert(all_digits(minutes));
    lemma_digits_parse(hours);
    lemma_digits_parse(minutes);
}

/// A zone Arrow knows.
#[derive(Debug)]
pub struct Zone {
    name: String,
}

impl Zone {
    /// The zone's name.
    pub closed spec fn view(&self) -> Seq<char> {
        self.name@
    }

    #[verifier::type_invariant]
    spec fn known(self) -> bool {
        zone_known(self.name@) && (is_signed(self.name@) ==> is_offset(self.name@))
    }

    /// The zone named `name`, or what Arrow says against it.
    pub fn parse(name: String) -> (zone: Result<Zone, String>)
        ensures
            match zone {
                Ok(zone) => zone@ == name@ && zone_known(name@),
                Err(fault) => zone_fault(name@) == Some(fault@),
            },
    {
        match zone_parse(name.as_str()) {
            Some(fault) => Err(fault),
            None => Ok(Zone { name }),
        }
    }

    /// The zone's name.
    pub fn name(&self) -> (name: &String)
        ensures
            name@ == self@,
    {
        &self.name
    }

    /// Seconds the zone is ahead of UTC at all times; none where it is named.
    pub fn fixed(&self) -> (offset: Option<i64>)
        ensures
            match offset {
                Some(offset) => fixed(self@) == Some(offset as int),
                None => fixed(self@) is None,
            },
            zone_known(self@),
    {
        proof {
            use_type_invariant(self);
            if is_signed(self.name@) {
                lemma_offsets_are_readable(self.name@);
            }
        }
        fixed_offset(self.name.as_str())
    }
}

/// Why a value is not placed in a zone.
#[derive(Debug)]
pub enum PlaceFault {
    /// Its instant, or the value itself, is beyond the `i64` of its unit.
    Overflow { value: i64 },
    /// A named zone's offsets are not known for its year.
    BeyondYears { value: i64, zone: String },
    /// Arrow does not know the zone, and says why.
    UnknownZone { error: String },
    /// The value times `factor`, its count of finer units, is beyond an `i64`.
    Rescale { value: i64, factor: i64 },
}

/// A fault as plain values.
pub ghost enum PlaceFaultView {
    Overflow { value: i64 },
    BeyondYears { value: i64, zone: Seq<char> },
    UnknownZone { error: Seq<char> },
    Rescale { value: i64, factor: i64 },
}

impl View for PlaceFault {
    type V = PlaceFaultView;

    open spec fn view(&self) -> PlaceFaultView {
        match *self {
            PlaceFault::Overflow { value } => PlaceFaultView::Overflow { value },
            PlaceFault::BeyondYears { value, zone } => PlaceFaultView::BeyondYears {
                value,
                zone: zone@,
            },
            PlaceFault::UnknownZone { error } => PlaceFaultView::UnknownZone { error: error@ },
            PlaceFault::Rescale { value, factor } => PlaceFaultView::Rescale { value, factor },
        }
    }
}

impl PlaceFaultView {
    /// The fault as text.
    pub open spec fn text(self) -> Seq<char> {
        match self {
            PlaceFaultView::Overflow { value } => "value "@ + signed_dec(value as int)
                + " is beyond what its unit's i64 holds"@,
            PlaceFaultView::BeyondYears { value, zone } => "value "@ + signed_dec(value as int)
                + " is beyond the years zone "@ + zone + "'s offsets are known for"@,
            PlaceFaultView::UnknownZone { error } => error,
            PlaceFaultView::Rescale { value, factor } => "Overflow happened on: "@ + signed_dec(
                value as int,
            ) + " * "@ + signed_dec(factor as int),
        }
    }
}

impl PlaceFault {
    /// The fault as text.
    pub fn message(&self) -> (text: String)
        ensures
            text@ == self@.text(),
    {
        let mut text = String::new();
        match self {
            PlaceFault::Overflow { value } => {
                text.append("value ");
                push_signed(&mut text, *value);
                text.append(" is beyond what its unit's i64 holds");
            },
            PlaceFault::BeyondYears { value, zone } => {
                text.append("value ");
                push_signed(&mut text, *value);
                text.append(" is beyond the years zone ");
                text.append(zone.as_str());
                text.append("'s offsets are known for");
            },
            PlaceFault::UnknownZone { error } => {
                text.append(error.as_str());
            },
            PlaceFault::Rescale { value, factor } => {
                text.append("Overflow happened on: ");
                push_signed(&mut text, *value);
                text.append(" * ");
                push_signed(&mut text, *factor);
            },
        }
        proof {
            assert(text@ =~= self@.text());
        }
        text
    }
}

/// The second of the clock that `value`, in `unit`, falls in.
pub open spec fn second_of(value: int, unit: TimeUnit) -> int {
    value / units_per_second(unit)
}

/// The second of the clock that `value`, in `unit`, falls in.
pub fn second(value: i64, unit: TimeUnit) -> (second: i64)
    ensures
        second == second_of(value as int, unit),
{
    match value.checked_div_euclid(per_second(unit)) {
        Some(second) => second,
        None => 0,
    }
}

/// Seconds the clocks of the named `zone` are ahead of UTC where they show the second `second`:
/// the earlier instant's where they show it twice, those in force where they skip it.
pub open spec fn offset_in_force(zone: Seq<char>, second: i64) -> i32 {
    match offset_at_local(zone, second) {
        LocalOffset::Single(offset) => offset,
        LocalOffset::Ambiguous(offset, _) => offset,
        LocalOffset::Skipped => offset_at_utc(zone, second),
    }
}

/// The wall-clock `value`, of `unit`, less `offset` seconds.
pub open spec fn shifted(value: i64, unit: TimeUnit, offset: int) -> Result<i64, PlaceFaultView> {
    let product = offset * units_per_second(unit);
    if i64::MIN <= product <= i64::MAX && i64::MIN <= value - product <= i64::MAX {
        Ok((value - product) as i64)
    } else {
        Err(PlaceFaultView::Overflow { value })
    }
}

/// The instant the wall-clock `value`, of `unit`, names in `zone`.
pub open spec fn instant_in(value: i64, unit: TimeUnit, zone: Seq<char>) -> Result<
    i64,
    PlaceFaultView,
> {
    let second = second_of(value as int, unit);
    match fixed(zone) {
        Some(offset) => shifted(value, unit, offset),
        None if is_held(second) => shifted(
            value,
            unit,
            offset_in_force(zone, second as i64) as int,
        ),
        None => Err(PlaceFaultView::BeyondYears { value, zone }),
    }
}

/// What `placed` is as plain values.
pub open spec fn placed_view<T>(placed: Result<T, PlaceFault>) -> Result<T, PlaceFaultView> {
    match placed {
        Ok(value) => Ok(value),
        Err(fault) => Err(fault@),
    }
}

/// The wall-clock `value`, of `unit`, less `offset` seconds.
pub fn shift(value: i64, unit: TimeUnit, offset: i64) -> (instant: Result<i64, PlaceFault>)
    ensures
        placed_view(instant) == shifted(value, unit, offset as int),
{
    let product: i64 = match offset.checked_mul(per_second(unit)) {
        Some(product) => product,
        None => return Err(PlaceFault::Overflow { value }),
    };
    match value.checked_sub(product) {
        Some(instant) => Ok(instant),
        None => Err(PlaceFault::Overflow { value }),
    }
}

/// The instant the wall-clock `value`, of `unit`, names in `zone`.
pub fn instant(value: i64, unit: TimeUnit, zone: &Zone) -> (instant: Result<i64, PlaceFault>)
    ensures
        placed_view(instant) == instant_in(value, unit, zone@),
{
    if let Some(offset) = zone.fixed() {
        return shift(value, unit, offset);
    }
    let local: i64 = second(value, unit);
    if !held(local) {
        return Err(PlaceFault::BeyondYears { value, zone: zone.name.clone() });
    }
    let offset: i32 = match offset_from_local(zone.name.as_str(), local) {
        LocalOffset::Single(offset) => offset,
        LocalOffset::Ambiguous(offset, _) => offset,
        LocalOffset::Skipped => offset_from_utc(zone.name.as_str(), local),
    };
    shift(value, unit, offset as i64)
}

/// Each value of `items` as `step` makes it, nulls as they are; the first fault where there is one.
pub open spec fn collected<T>(
    items: Seq<Option<T>>,
    step: spec_fn(T) -> Result<i64, PlaceFaultView>,
) -> Result<Seq<Option<i64>>, PlaceFaultView>
    decreases items.len(),
{
    if items.len() == 0 {
        Ok(Seq::empty())
    } else {
        match (collected(items.drop_last(), step), items.last()) {
            (Err(fault), _) => Err(fault),
            (Ok(front), None) => Ok(front.push(None)),
            (Ok(front), Some(item)) => match step(item) {
                Ok(value) => Ok(front.push(Some(value))),
                Err(fault) => Err(fault),
            },
        }
    }
}

/// A fault among the first items is the fault of them all.
proof fn lemma_first_fault<T>(
    items: Seq<Option<T>>,
    step: spec_fn(T) -> Result<i64, PlaceFaultView>,
    n: int,
)
    requires
        0 <= n <= items.len(),
        collected(items.take(n), step) is Err,
    ensures
        collected(items, step) == collected(items.take(n), step),
    decreases items.len(),
{
    if n == items.len() {
        assert(items.take(n) =~= items);
    } else {
        assert(items.drop_last().take(n) =~= items.take(n));
        lemma_first_fault(items.drop_last(), step, n);
    }
}

proof fn lemma_next_item<T>(
    items: Seq<Option<T>>,
    step: spec_fn(T) -> Result<i64, PlaceFaultView>,
    n: int,
)
    requires
        0 <= n < items.len(),
    ensures
        items.take(n + 1).drop_last() == items.take(n),
        items.take(n + 1).last() == items[n],
{
    assert(items.take(n + 1).drop_last() =~= items.take(n));
}

/// What a list of `placed` values is as plain values.
pub open spec fn placed_list(placed: Result<Vec<Option<i64>>, PlaceFault>) -> Result<
    Seq<Option<i64>>,
    PlaceFaultView,
> {
    match placed {
        Ok(values) => Ok(values@),
        Err(fault) => Err(fault@),
    }
}

/// `local` wall-clock values of `unit` as the instants they name in `zone`, or as they are
/// without one.
pub open spec fn placed_in(
    local: Seq<Option<i64>>,
    unit: TimeUnit,
    zone: Option<Seq<char>>,
) -> Result<Seq<Option<i64>>, PlaceFaultView> {
    match zone {
        None => Ok(local),
        Some(zone) => match zone_fault(zone) {
            Some(error) => Err(PlaceFaultView::UnknownZone { error }),
            None => collected(local, |value: i64| instant_in(value, unit, zone)),
        },
    }
}

/// `local` wall-clock values of `unit` as the instants they name in `zone`, or as they are
/// without one.
pub fn placed(local: Vec<Option<i64>>, unit: TimeUnit, zone: Option<String>) -> (placed: Result<
    Vec<Option<i64>>,
    PlaceFault,
>)
    ensures
        placed_list(placed) == placed_in(local@, unit, text_view(zone)),
{
    let name: String = match zone {
        None => return Ok(local),
        Some(name) => name,
    };
    let known: Zone = match Zone::parse(name) {
        Ok(known) => known,
        Err(error) => return Err(PlaceFault::UnknownZone { error }),
    };
    let ghost step = |value: i64| instant_in(value, unit, known@);
    let mut values: Vec<Option<i64>> = Vec::new();
    let mut at: usize = 0;
    proof {
        assert(local@.take(0) =~= Seq::<Option<i64>>::empty());
    }
    while at < local.len()
        invariant
            0 <= at <= local@.len(),
            step == |value: i64| instant_in(value, unit, known@),
            text_view(zone) == Some(known@),
            collected(local@.take(at as int), step) == Ok::<Seq<Option<i64>>, PlaceFaultView>(
                values@,
            ),
            zone_known(known@),
        decreases local.len() - at,
    {
        proof {
            lemma_next_item(local@, step, at as int);
        }
        match local[at] {
            None => values.push(None),
            Some(value) => match instant(value, unit, &known) {
                Ok(value) => values.push(Some(value)),
                Err(fault) => {
                    proof {
                        assert(step(value) == Err::<i64, PlaceFaultView>(fault@));
                        lemma_first_fault(local@, step, at + 1);
                    }
                    return Err(fault);
                },
            },
        }
        at = at + 1;
    }
    proof {
        assert(local@.take(at as int) =~= local@);
    }
    Ok(values)
}

/// The midnight that begins `days`, in `unit`, by the wall clock.
pub open spec fn midnight(days: i64, unit: TimeUnit) -> Result<i64, PlaceFaultView> {
    let value = days * (86_400 * units_per_second(unit));
    if i64::MIN <= value <= i64::MAX {
        Ok(value as i64)
    } else {
        Err(PlaceFaultView::Overflow { value: days })
    }
}

/// Dates as timestamps of `unit` in `zone`: each date's midnight there.
pub open spec fn midnights_in(
    dates: Seq<Option<i64>>,
    unit: TimeUnit,
    zone: Option<Seq<char>>,
) -> Result<Seq<Option<i64>>, PlaceFaultView> {
    match collected(dates, |days: i64| midnight(days, unit)) {
        Ok(local) => placed_in(local, unit, zone),
        Err(fault) => Err(fault),
    }
}

/// Dates, counted in days, as timestamps of `unit` in `zone`: each date's midnight there, however
/// far it is. A date beyond the unit's `i64` is refused before the zone is looked at.
pub fn midnights(dates: &Vec<Option<i64>>, unit: TimeUnit, zone: Option<String>) -> (placed: Result<
    Vec<Option<i64>>,
    PlaceFault,
>)
    ensures
        placed_list(placed) == midnights_in(dates@, unit, text_view(zone)),
{
    let per_day: i64 = 86_400 * per_second(unit);
    let ghost step = |days: i64| midnight(days, unit);
    let mut local: Vec<Option<i64>> = Vec::new();
    let mut at: usize = 0;
    proof {
        assert(dates@.take(0) =~= Seq::<Option<i64>>::empty());
    }
    while at < dates.len()
        invariant
            0 <= at <= dates@.len(),
            step == |days: i64| midnight(days, unit),
            per_day == 86_400 * units_per_second(unit),
            collected(dates@.take(at as int), step) == Ok::<Seq<Option<i64>>, PlaceFaultView>(
                local@,
            ),
        decreases dates.len() - at,
    {
        proof {
            lemma_next_item(dates@, step, at as int);
        }
        match dates[at] {
            None => local.push(None),
            Some(days) => match days.checked_mul(per_day) {
                Some(value) => local.push(Some(value)),
                None => {
                    proof {
                        assert(step(days) is Err);
                        lemma_first_fault(dates@, step, at + 1);
                    }
                    return Err(PlaceFault::Overflow { value: days });
                },
            },
        }
        at = at + 1;
    }
    proof {
        assert(dates@.take(at as int) =~= dates@);
    }
    placed(local, unit, zone)
}

/// `value / by`, the fraction dropped.
pub open spec fn truncated(value: int, by: int) -> int {
    if value < 0 {
        -((-value) / by)
    } else {
        value / by
    }
}

/// The day a date counted in milliseconds is, the fraction of it dropped.
pub open spec fn day_of(millis: i64) -> i64 {
    truncated(millis as int, 86_400_000) as i64
}

/// Dates counted in milliseconds as dates counted in days, however far they are.
pub fn whole_days(dates: &Vec<Option<i64>>) -> (days: Vec<Option<i64>>)
    ensures
        days@.len() == dates@.len(),
        forall|i: int|
            0 <= i < dates@.len() ==> (#[trigger] days@[i]) == match dates@[i] {
                Some(millis) => Some(day_of(millis)),
                None => None,
            },
{
    let mut days: Vec<Option<i64>> = Vec::new();
    let mut at: usize = 0;
    while at < dates.len()
        invariant
            at <= dates@.len(),
            days@.len() == at,
            forall|i: int|
                0 <= i < at ==> (#[trigger] days@[i]) == match dates@[i] {
                    Some(millis) => Some(day_of(millis)),
                    None => None,
                },
        decreases dates@.len() - at,
    {
        match dates[at] {
            None => days.push(None),
            Some(millis) => {
                let wide: i128 = millis as i128;
                let whole: i128 = if wide < 0 {
                    -((-wide) / 86_400_000)
                } else {
                    wide / 86_400_000
                };
                days.push(Some(whole as i64));
            },
        }
        at = at + 1;
    }
    days
}

/// A count of `from` as a count of `to`: its fraction dropped where `to` is coarser.
pub open spec fn rescaled(value: i64, from: TimeUnit, to: TimeUnit) -> Result<i64, PlaceFaultView> {
    if units_per_second(from) > units_per_second(to) {
        Ok(truncated(value as int, units_per_second(from) / units_per_second(to)) as i64)
    } else {
        let factor = units_per_second(to) / units_per_second(from);
        if i64::MIN <= value * factor <= i64::MAX {
            Ok((value * factor) as i64)
        } else {
            Err(PlaceFaultView::Rescale { value, factor: factor as i64 })
        }
    }
}

/// Units of `fine` in one of `coarse`.
fn ratio(fine: TimeUnit, coarse: TimeUnit) -> (ratio: i64)
    requires
        units_per_second(coarse) <= units_per_second(fine),
    ensures
        ratio == units_per_second(fine) / units_per_second(coarse),
        1 <= ratio <= 1_000_000_000,
{
    match (fine, coarse) {
        (TimeUnit::Millisecond, TimeUnit::Second) => 1_000,
        (TimeUnit::Microsecond, TimeUnit::Millisecond) => 1_000,
        (TimeUnit::Nanosecond, TimeUnit::Microsecond) => 1_000,
        (TimeUnit::Microsecond, TimeUnit::Second) => 1_000_000,
        (TimeUnit::Nanosecond, TimeUnit::Millisecond) => 1_000_000,
        (TimeUnit::Nanosecond, TimeUnit::Second) => 1_000_000_000,
        _ => 1,
    }
}

/// A count of `from` as a count of `to`: its fraction dropped where `to` is coarser.
pub fn rescale(value: i64, from: TimeUnit, to: TimeUnit) -> (scaled: Result<i64, PlaceFault>)
    ensures
        placed_view(scaled) == rescaled(value, from, to),
{
    if per_second(from) > per_second(to) {
        let by: i64 = ratio(from, to);
        let wide: i128 = value as i128;
        let size: u128 = if wide < 0 {
            (-wide) as u128
        } else {
            wide as u128
        };
        let whole: u128 = size / by as u128;
        proof {
            assert(whole <= size) by (nonlinear_arith)
                requires
                    whole == size / by as u128,
                    1 <= by,
            ;
        }
        if wide < 0 {
            Ok((-(whole as i128)) as i64)
        } else {
            Ok(whole as i64)
        }
    } else {
        let factor: i64 = ratio(to, from);
        match value.checked_mul(factor) {
            Some(value) => Ok(value),
            None => Err(PlaceFault::Rescale { value, factor }),
        }
    }
}

/// Counts of `from` as counts of `unit`.
pub open spec fn times_in(values: Seq<Option<i64>>, from: TimeUnit, unit: TimeUnit) -> Result<
    Seq<Option<i64>>,
    PlaceFaultView,
> {
    collected(values, |value: i64| rescaled(value, from, unit))
}

/// Counts of `from`, times among them, as counts of `unit`: their fractions dropped where `unit` is
/// coarser.
pub fn times(values: &Vec<Option<i64>>, from: TimeUnit, unit: TimeUnit) -> (scaled: Result<
    Vec<Option<i64>>,
    PlaceFault,
>)
    ensures
        placed_list(scaled) == times_in(values@, from, unit),
{
    let ghost step = |value: i64| rescaled(value, from, unit);
    let mut scaled: Vec<Option<i64>> = Vec::new();
    let mut at: usize = 0;
    proof {
        assert(values@.take(0) =~= Seq::<Option<i64>>::empty());
    }
    while at < values.len()
        invariant
            0 <= at <= values@.len(),
            step == |value: i64| rescaled(value, from, unit),
            collected(values@.take(at as int), step) == Ok::<Seq<Option<i64>>, PlaceFaultView>(
                scaled@,
            ),
        decreases values.len() - at,
    {
        proof {
            lemma_next_item(values@, step, at as int);
        }
        match values[at] {
            None => scaled.push(None),
            Some(value) => match rescale(value, from, unit) {
                Ok(value) => scaled.push(Some(value)),
                Err(fault) => {
                    proof {
                        assert(step(value) == Err::<i64, PlaceFaultView>(fault@));
                        lemma_first_fault(values@, step, at + 1);
                    }
                    return Err(fault);
                },
            },
        }
        at = at + 1;
    }
    proof {
        assert(values@.take(at as int) =~= values@);
    }
    Ok(scaled)
}

/// Wall-clock timestamps of `from` as instants of `unit` in `zone`.
pub open spec fn localized_in(
    values: Seq<Option<i64>>,
    from: TimeUnit,
    unit: TimeUnit,
    zone: Seq<char>,
) -> Result<Seq<Option<i64>>, PlaceFaultView> {
    match times_in(values, from, unit) {
        Ok(local) => placed_in(local, unit, Some(zone)),
        Err(fault) => Err(fault),
    }
}

/// Wall-clock timestamps of `from` as instants of `unit` in `zone`.
pub fn localized(values: &Vec<Option<i64>>, from: TimeUnit, unit: TimeUnit, zone: String) -> (placed:
    Result<Vec<Option<i64>>, PlaceFault>)
    ensures
        placed_list(placed) == localized_in(values@, from, unit, zone@),
{
    match times(values, from, unit) {
        Ok(local) => placed(local, unit, Some(zone)),
        Err(fault) => Err(fault),
    }
}

/// The clocks of a zone of a fixed offset, set back by it at a placed value's instant, show the
/// value: nothing wraps, and UTC's clocks show it as it is.
pub proof fn law_fixed_zones_show_what_was_placed(value: i64, unit: TimeUnit, zone: Seq<char>)
    requires
        fixed(zone) is Some,
    ensures
        instant_in(value, unit, zone) matches Ok(instant) ==> instant + fixed(zone)->0
            * units_per_second(unit) == value,
        is_utc(zone) ==> instant_in(value, unit, zone) == Ok::<i64, PlaceFaultView>(value),
{
}

/// `value`, in `unit`, in nanoseconds.
pub open spec fn time_of(value: i64, unit: TimeUnit) -> int {
    value * nanos_per(unit)
}

/// A finer unit names the time a coarser one does, wherever its `i64` holds it.
pub proof fn law_finer_units_name_the_same_time(value: i64, from: TimeUnit, to: TimeUnit)
    requires
        units_per_second(from) <= units_per_second(to),
    ensures
        match rescaled(value, from, to) {
            Ok(scaled) => time_of(scaled, to) == time_of(value, from),
            Err(_) => forall|scaled: i64| #[trigger] time_of(scaled, to) != time_of(value, from),
        },
{
    match (from, to) {
        (TimeUnit::Second, TimeUnit::Millisecond) => {},
        (TimeUnit::Second, TimeUnit::Microsecond) => {},
        (TimeUnit::Second, TimeUnit::Nanosecond) => {},
        (TimeUnit::Millisecond, TimeUnit::Microsecond) => {},
        (TimeUnit::Millisecond, TimeUnit::Nanosecond) => {},
        (TimeUnit::Microsecond, TimeUnit::Nanosecond) => {},
        _ => {},
    }
}

/// A date's midnight is the instant its day begins at, wherever the unit's `i64` holds it.
pub proof fn law_midnights_begin_their_days(days: i64, unit: TimeUnit)
    ensures
        match midnight(days, unit) {
            Ok(value) => time_of(value, unit) == days * DAY,
            Err(_) => forall|value: i64| #[trigger] time_of(value, unit) != days * DAY,
        },
{
    assert(days * DAY == days * 86_400_000_000_000);
    match unit {
        TimeUnit::Second => {
            assert(days * (86_400 * units_per_second(unit)) == days * 86_400);
        },
        TimeUnit::Millisecond => {
            assert(days * (86_400 * units_per_second(unit)) == days * 86_400_000);
        },
        TimeUnit::Microsecond => {
            assert(days * (86_400 * units_per_second(unit)) == days * 86_400_000_000);
        },
        TimeUnit::Nanosecond => {
            assert(days * (86_400 * units_per_second(unit)) == days * 86_400_000_000_000);
        },
    }
}

/// Placing keeps every row: as many values come out as went in, nulls where they were.
pub proof fn law_placed_rows_stay(local: Seq<Option<i64>>, unit: TimeUnit, zone: Option<Seq<char>>)
    ensures
        placed_in(local, unit, zone) matches Ok(placed) ==> placed.len() == local.len() && forall|
            i: int,
        |
            0 <= i < local.len() ==> (#[trigger] placed[i] is Some) == (local[i] is Some),
{
    if let Some(zone) = zone {
        if zone_known(zone) {
            lemma_collected_rows(local, |value: i64| instant_in(value, unit, zone));
        }
    }
}

proof fn lemma_collected_rows<T>(
    items: Seq<Option<T>>,
    step: spec_fn(T) -> Result<i64, PlaceFaultView>,
)
    ensures
        collected(items, step) matches Ok(made) ==> made.len() == items.len() && forall|i: int|
            0 <= i < items.len() ==> (#[trigger] made[i] is Some) == (items[i] is Some),
    decreases items.len(),
{
    if items.len() > 0 {
        lemma_collected_rows(items.drop_last(), step);
    }
}

} // verus!
