//! What a zone's clocks show of a value once it is placed there: the value, in every unit.

use crate::table::temporal::{nanos_per, units_per_second, TimeUnit};
use crate::table::zones::{
    all_digits, collected, day_of, first_colon, fixed, instant_in, is_signed, is_utc, localized_in,
    midnight, midnights_in, offset_at_local, offset_at_utc, parsed, placed_in, rescaled, second_of,
    shifted, time_of, times_in, truncated, written_offset, zone_fault, LocalOffset, PlaceFaultView,
};
use crate::text::value_of;
use vstd::arithmetic::div_mod::lemma_fundamental_div_mod;
use vstd::prelude::*;

verus! {

/// The units are one second's thousandths, their thousandths and theirs.
pub proof fn law_units_are_thousandths(unit: TimeUnit)
    ensures
        nanos_per(TimeUnit::Nanosecond) == 1,
        nanos_per(TimeUnit::Microsecond) == 1_000 * nanos_per(TimeUnit::Nanosecond),
        nanos_per(TimeUnit::Millisecond) == 1_000 * nanos_per(TimeUnit::Microsecond),
        nanos_per(TimeUnit::Second) == 1_000 * nanos_per(TimeUnit::Millisecond),
        units_per_second(unit) * nanos_per(unit) == nanos_per(TimeUnit::Second),
{
    match unit {
        TimeUnit::Second => {},
        TimeUnit::Millisecond => {},
        TimeUnit::Microsecond => {},
        TimeUnit::Nanosecond => {},
    }
}

/// Whether the clocks of `zone` show the time `shown` at `instant`, both in nanoseconds: they are
/// ahead of UTC by the zone's fixed offset, or by what a named zone says of the second they show,
/// the earlier of two instants where both show it, and the offset in force where none does.
pub open spec fn clocks_show(zone: Seq<char>, instant: int, shown: int) -> bool {
    let second = (shown / 1_000_000_000) as i64;
    let ahead = match fixed(zone) {
        Some(offset) => offset,
        None => match offset_at_local(zone, second) {
            LocalOffset::Single(offset) => offset as int,
            LocalOffset::Ambiguous(earlier, _) => earlier as int,
            LocalOffset::Skipped => offset_at_utc(zone, second) as int,
        },
    };
    instant + ahead * 1_000_000_000 == shown
}

/// Whether `zone`, where its offset is fixed, is less than a year ahead of UTC or behind it.
pub open spec fn is_near(zone: Seq<char>) -> bool {
    fixed(zone) matches Some(offset) ==> -31_536_000 < offset < 31_536_000
}

/// The clocks of a zone, named or of a fixed offset, show a wall-clock value at the instant it is
/// placed at, whatever its unit. A value is refused exactly where no instant of its unit is that
/// one, or where a named zone's offsets are not known for its second.
pub proof fn law_clocks_show_what_was_placed(value: i64, unit: TimeUnit, zone: Seq<char>)
    requires
        is_near(zone),
    ensures
        ({
            let shown = value * nanos_per(unit);
            let second = shown / 1_000_000_000;
            let known = -8_334_601_228_800 <= second <= 8_210_266_876_799;
            match instant_in(value, unit, zone) {
                Ok(instant) => (fixed(zone) is Some || known) && clocks_show(
                    zone,
                    instant * nanos_per(unit),
                    shown,
                ),
                Err(PlaceFaultView::Overflow { value: refused }) => refused == value && (fixed(
                    zone,
                ) is Some || known) && forall|instant: i64|
                    !#[trigger] clocks_show(zone, time_of(instant, unit), shown),
                Err(PlaceFaultView::BeyondYears { value: refused, zone: named }) => refused == value
                    && named == zone && fixed(zone) is None && !known,
                Err(_) => false,
            }
        }),
{
    let shown = value * nanos_per(unit);
    let second = (shown / 1_000_000_000) as i64;
    lemma_second(value, unit);
    match fixed(zone) {
        Some(offset) => lemma_shifted(value, unit, offset),
        None => match offset_at_local(zone, second) {
            LocalOffset::Single(offset) => lemma_shifted(value, unit, offset as int),
            LocalOffset::Ambiguous(earlier, _) => lemma_shifted(value, unit, earlier as int),
            LocalOffset::Skipped => lemma_shifted(value, unit, offset_at_utc(zone, second) as int),
        },
    }
}

/// The second a value falls in.
proof fn lemma_second(value: i64, unit: TimeUnit)
    ensures
        second_of(value as int, unit) == value * nanos_per(unit) / 1_000_000_000,
{
    match unit {
        TimeUnit::Second => {},
        TimeUnit::Millisecond => {},
        TimeUnit::Microsecond => {},
        TimeUnit::Nanosecond => {},
    }
}

/// A value less an offset is refused exactly where no count of its unit is that far from it.
proof fn lemma_shifted(value: i64, unit: TimeUnit, offset: int)
    requires
        i32::MIN <= offset <= i32::MAX,
    ensures
        match shifted(value, unit, offset) {
            Ok(instant) => instant * nanos_per(unit) + offset * 1_000_000_000 == value * nanos_per(
                unit,
            ),
            Err(fault) => fault == (PlaceFaultView::Overflow { value }) && forall|instant: i64|
                (#[trigger] time_of(instant, unit)) + offset * 1_000_000_000 != value * nanos_per(
                    unit,
                ),
        },
{
    let product = offset * units_per_second(unit);
    assert(product * nanos_per(unit) == offset * 1_000_000_000) by {
        match unit {
            TimeUnit::Second => {},
            TimeUnit::Millisecond => {},
            TimeUnit::Microsecond => {},
            TimeUnit::Nanosecond => {},
        }
    }
    assert(i64::MIN <= product <= i64::MAX) by {
        match unit {
            TimeUnit::Second => {},
            TimeUnit::Millisecond => {},
            TimeUnit::Microsecond => {},
            TimeUnit::Nanosecond => {},
        }
    }
    if let Ok(instant) = shifted(value, unit, offset) {
        assert(instant * nanos_per(unit) + product * nanos_per(unit) == value * nanos_per(unit))
            by (nonlinear_arith)
            requires
                instant == value - product,
        ;
    } else {
        assert forall|instant: i64| (#[trigger] time_of(instant, unit)) + offset * 1_000_000_000
            != value * nanos_per(unit) by {
            let per = nanos_per(unit);
            assert(instant != value - product);
            assert(instant * per + product * per != value * per) by (nonlinear_arith)
                requires
                    instant != value - product,
                    per > 0,
            ;
        }
    }
}

/// What `collected` makes of items: each value as the step makes it, in its place, and nulls where
/// they were; or the fault of the first item that has one.
proof fn lemma_collected<T>(items: Seq<Option<T>>, step: spec_fn(T) -> Result<i64, PlaceFaultView>)
    ensures
        match collected(items, step) {
            Ok(made) => {
                &&& made.len() == items.len()
                &&& forall|i: int|
                    0 <= i < items.len() ==> match items[i] {
                        None => (#[trigger] made[i]) is None,
                        Some(item) => made[i] is Some && step(item) == Ok::<i64, PlaceFaultView>(
                            made[i]->0,
                        ),
                    }
            },
            Err(fault) => exists|i: int|
                {
                    &&& 0 <= i < items.len()
                    &&& #[trigger] items[i] is Some
                    &&& step(items[i]->0) == Err::<i64, PlaceFaultView>(fault)
                    &&& forall|j: int|
                        0 <= j < i && (#[trigger] items[j]) is Some ==> step(items[j]->0) is Ok
                },
        },
    decreases items.len(),
{
    if items.len() > 0 {
        let front = items.drop_last();
        lemma_collected(front, step);
        match collected(front, step) {
            Ok(made) => {
                let last = items.len() - 1;
                assert(items[last] == items.last());
                assert forall|j: int| 0 <= j < last && (#[trigger] items[j]) is Some implies step(
                    items[j]->0,
                ) is Ok by {
                    assert(front[j] == items[j]);
                    assert(made[j] == made[j]);
                }
                if let Ok(all) = collected(items, step) {
                    assert forall|i: int| 0 <= i < items.len() implies match items[i] {
                        None => (#[trigger] all[i]) is None,
                        Some(item) => all[i] is Some && step(item) == Ok::<i64, PlaceFaultView>(
                            all[i]->0,
                        ),
                    } by {
                        if i < last {
                            assert(all[i] == made[i]);
                            assert(front[i] == items[i]);
                        }
                    }
                }
            },
            Err(fault) => {
                let i = choose|i: int|
                    {
                        &&& 0 <= i < front.len()
                        &&& #[trigger] front[i] is Some
                        &&& step(front[i]->0) == Err::<i64, PlaceFaultView>(fault)
                        &&& forall|j: int|
                            0 <= j < i && (#[trigger] front[j]) is Some ==> step(front[j]->0) is Ok
                    };
                assert(items[i] == front[i]);
                assert forall|j: int| 0 <= j < i && (#[trigger] items[j]) is Some implies step(
                    items[j]->0,
                ) is Ok by {
                    assert(front[j] == items[j]);
                }
            },
        }
    }
}

/// Whether `instant`, of `unit`, is where a column in `zone`, or without one, has the wall-clock
/// time `shown` in nanoseconds.
pub open spec fn has(zone: Option<Seq<char>>, instant: i64, unit: TimeUnit, shown: int) -> bool {
    match zone {
        None => instant * nanos_per(unit) == shown,
        Some(zone) => clocks_show(zone, instant * nanos_per(unit), shown),
    }
}

/// A column of wall-clock values keeps its rows when it is placed: nulls stay null, and at each
/// instant the zone's clocks show the value of its row. A zone that is not known refuses every
/// column, and else the first value that is refused on its own refuses it.
pub proof fn law_placed_columns_show_their_values(
    local: Seq<Option<i64>>,
    unit: TimeUnit,
    zone: Option<Seq<char>>,
)
    requires
        zone matches Some(zone) ==> is_near(zone),
    ensures
        match placed_in(local, unit, zone) {
            Ok(placed) => {
                &&& zone matches Some(zone) ==> zone_fault(zone) is None
                &&& placed.len() == local.len()
                &&& forall|i: int|
                    0 <= i < local.len() ==> match local[i] {
                        None => (#[trigger] placed[i]) is None,
                        Some(value) => placed[i] is Some && has(
                            zone,
                            placed[i]->0,
                            unit,
                            value * nanos_per(unit),
                        ),
                    }
            },
            Err(PlaceFaultView::UnknownZone { error }) => zone is Some && zone_fault(zone->0)
                == Some(error),
            Err(fault) => zone is Some && zone_fault(zone->0) is None && exists|i: int|
                {
                    &&& 0 <= i < local.len()
                    &&& #[trigger] local[i] is Some
                    &&& instant_in(local[i]->0, unit, zone->0) == Err::<i64, PlaceFaultView>(fault)
                    &&& forall|j: int|
                        0 <= j < i && (#[trigger] local[j]) is Some ==> instant_in(
                            local[j]->0,
                            unit,
                            zone->0,
                        ) is Ok
                },
        },
{
    if let Some(zone) = zone {
        if zone_fault(zone) is None {
            let step = |value: i64| instant_in(value, unit, zone);
            lemma_collected(local, step);
            match collected(local, step) {
                Ok(placed) => {
                    assert forall|i: int| 0 <= i < local.len() implies match local[i] {
                        None => (#[trigger] placed[i]) is None,
                        Some(value) => placed[i] is Some && clocks_show(
                            zone,
                            placed[i]->0 * nanos_per(unit),
                            value * nanos_per(unit),
                        ),
                    } by {
                        if let Some(value) = local[i] {
                            law_clocks_show_what_was_placed(value, unit, zone);
                        }
                    }
                },
                Err(fault) => {
                    let i = choose|i: int|
                        {
                            &&& 0 <= i < local.len()
                            &&& #[trigger] local[i] is Some
                            &&& step(local[i]->0) == Err::<i64, PlaceFaultView>(fault)
                            &&& forall|j: int|
                                0 <= j < i && (#[trigger] local[j]) is Some ==> step(
                                    local[j]->0,
                                ) is Ok
                        };
                    law_clocks_show_what_was_placed(local[i]->0, unit, zone);
                    assert forall|j: int| 0 <= j < i && (#[trigger] local[j]) is Some implies
                        instant_in(local[j]->0, unit, zone) is Ok by {
                        assert(step(local[j]->0) is Ok);
                    }
                },
            }
        }
    }
}

/// A column of dates becomes instants at which the zone's clocks show the midnights that begin the
/// dates' days, row by row.
pub proof fn law_dates_become_their_midnights(
    dates: Seq<Option<i64>>,
    unit: TimeUnit,
    zone: Option<Seq<char>>,
)
    requires
        zone matches Some(zone) ==> is_near(zone),
    ensures
        midnights_in(dates, unit, zone) matches Ok(placed) ==> {
            &&& placed.len() == dates.len()
            &&& forall|i: int|
                0 <= i < dates.len() ==> match dates[i] {
                    None => (#[trigger] placed[i]) is None,
                    Some(days) => placed[i] is Some && has(
                        zone,
                        placed[i]->0,
                        unit,
                        days * 86_400_000_000_000,
                    ),
                }
        },
{
    let step = |days: i64| midnight(days, unit);
    lemma_collected(dates, step);
    if let Ok(local) = collected(dates, step) {
        law_placed_columns_show_their_values(local, unit, zone);
        if let Ok(placed) = placed_in(local, unit, zone) {
            assert forall|i: int| 0 <= i < dates.len() implies match dates[i] {
                None => (#[trigger] placed[i]) is None,
                Some(days) => placed[i] is Some && has(
                    zone,
                    placed[i]->0,
                    unit,
                    days * 86_400_000_000_000,
                ),
            } by {
                assert(local[i] == local[i]);
                if let Some(days) = dates[i] {
                    assert(step(days) == Ok::<i64, PlaceFaultView>(local[i]->0));
                    lemma_midnight(days, unit);
                }
            }
        }
    }
}

proof fn lemma_midnight(days: i64, unit: TimeUnit)
    ensures
        midnight(days, unit) matches Ok(value) ==> value * nanos_per(unit) == days
            * 86_400_000_000_000,
{
    match unit {
        TimeUnit::Second => {
            assert(days * (86_400 * units_per_second(unit)) == days * 86_400);
        },
        TimeUnit::Millisecond => {
            assert(days * (86_400 * units_per_second(unit)) == days * 86_400_000);
        },
        TimeUnit::Microsecond => {
            assert(days * (86_400 * units_per_second(unit)) == days * 86_400_000_000);
        },
        TimeUnit::Nanosecond => {
            assert(days * (86_400 * units_per_second(unit)) == days * 86_400_000_000_000);
        },
    }
}

/// Whether `kept` is what is left of `whole` once it is a multiple of `unit`: less than one of it is
/// dropped, towards zero.
pub open spec fn is_cut(whole: int, unit: int, kept: int) -> bool {
    &&& 0 <= whole ==> 0 <= whole - kept < unit
    &&& whole <= 0 ==> 0 <= kept - whole < unit
}

/// What a division drops is less than one of what it divides by, and is dropped towards zero.
pub proof fn law_divisions_drop_towards_zero(value: int, by: int)
    requires
        by > 0,
    ensures
        is_cut(value, by, truncated(value, by) * by),
{
    let size = if value < 0 {
        -value
    } else {
        value
    };
    lemma_fundamental_div_mod(size, by);
    let whole = size / by;
    assert(by * whole == whole * by) by (nonlinear_arith);
    assert((-whole) * by == -(whole * by)) by (nonlinear_arith);
    assert(0 <= size % by < by) by (nonlinear_arith)
        requires
            by > 0,
    ;
}

/// A count of one unit as a count of another names the same time where it is finer, and loses less
/// than one of it, towards zero, where it is coarser; it is refused exactly where the count does
/// not fit.
pub proof fn law_counts_name_the_same_time(value: i64, from: TimeUnit, to: TimeUnit)
    ensures
        match rescaled(value, from, to) {
            Ok(scaled) => {
                &&& is_cut(value * nanos_per(from), nanos_per(to), scaled * nanos_per(to))
                &&& nanos_per(to) <= nanos_per(from) ==> scaled * nanos_per(to) == value
                    * nanos_per(from)
            },
            Err(PlaceFaultView::Rescale { value: refused, factor }) => {
                &&& refused == value
                &&& factor * nanos_per(to) == nanos_per(from)
                &&& !(i64::MIN <= value * factor <= i64::MAX)
            },
            Err(_) => false,
        },
{
    let (f, t) = (units_per_second(from), units_per_second(to));
    let (whole, part) = (nanos_per(from), nanos_per(to));
    if f > t {
        lemma_ratio(from, to);
        lemma_coarser(value, f / t, whole, part);
    } else {
        lemma_ratio(to, from);
        lemma_finer(value as int, t / f, whole, part);
    }
}

/// How many of a finer unit one of a coarser one is, in counts a second and in nanoseconds.
proof fn lemma_ratio(fine: TimeUnit, coarse: TimeUnit)
    requires
        units_per_second(fine) >= units_per_second(coarse),
    ensures
        1 <= units_per_second(fine) / units_per_second(coarse) <= 1_000_000_000,
        (units_per_second(fine) / units_per_second(coarse)) * nanos_per(fine) == nanos_per(coarse),
        units_per_second(fine) > units_per_second(coarse) <==> nanos_per(fine) < nanos_per(coarse),
{
    let (f, t) = (units_per_second(fine), units_per_second(coarse));
    let ratio: int = match (fine, coarse) {
        (TimeUnit::Millisecond, TimeUnit::Second) => 1_000,
        (TimeUnit::Microsecond, TimeUnit::Millisecond) => 1_000,
        (TimeUnit::Nanosecond, TimeUnit::Microsecond) => 1_000,
        (TimeUnit::Microsecond, TimeUnit::Second) => 1_000_000,
        (TimeUnit::Nanosecond, TimeUnit::Millisecond) => 1_000_000,
        (TimeUnit::Nanosecond, TimeUnit::Second) => 1_000_000_000,
        _ => 1,
    };
    assert(f == ratio * t);
    assert(f / t == ratio) by (nonlinear_arith)
        requires
            f == ratio * t,
            t > 0,
    ;
}

proof fn lemma_finer(value: int, factor: int, whole: int, part: int)
    requires
        factor * part == whole,
        part > 0,
    ensures
        (value * factor) * part == value * whole,
        is_cut(value * whole, part, (value * factor) * part),
{
    assert((value * factor) * part == value * (factor * part)) by (nonlinear_arith);
}

proof fn lemma_coarser(value: i64, by: int, whole: int, part: int)
    requires
        by * whole == part,
        by > 0,
        whole > 0,
    ensures
        i64::MIN <= truncated(value as int, by) <= i64::MAX,
        is_cut(value * whole, part, truncated(value as int, by) * part),
{
    let kept = truncated(value as int, by);
    law_divisions_drop_towards_zero(value as int, by);
    let rest = value - kept * by;
    assert(kept * part == kept * by * whole) by (nonlinear_arith)
        requires
            by * whole == part,
    ;
    assert(value * whole - kept * by * whole == rest * whole) by (nonlinear_arith)
        requires
            rest == value - kept * by,
    ;
    if value >= 0 {
        assert(0 <= rest * whole < by * whole) by (nonlinear_arith)
            requires
                0 <= rest < by,
                whole > 0,
        ;
        assert(value * whole >= 0) by (nonlinear_arith)
            requires
                value >= 0,
                whole > 0,
        ;
        assert(0 <= kept <= value) by {
            vstd::arithmetic::div_mod::lemma_div_pos_is_pos(value as int, by);
            vstd::arithmetic::div_mod::lemma_div_is_ordered_by_denominator(value as int, 1, by);
        }
    }
    if value <= 0 {
        assert(-(by * whole) < rest * whole <= 0) by (nonlinear_arith)
            requires
                -by < rest <= 0,
                whole > 0,
        ;
        assert(value * whole <= 0) by (nonlinear_arith)
            requires
                value <= 0,
                whole > 0,
        ;
        if value < 0 {
            vstd::arithmetic::div_mod::lemma_div_pos_is_pos(-value, by);
            vstd::arithmetic::div_mod::lemma_div_is_ordered_by_denominator(-value, 1, by);
            assert(value <= kept <= 0);
        }
    }
    if value * whole == 0 {
        assert(value == 0) by (nonlinear_arith)
            requires
                value * whole == 0,
                whole > 0,
        ;
    }
    if value * whole > 0 {
        assert(value > 0) by (nonlinear_arith)
            requires
                value * whole > 0,
                whole > 0,
        ;
    }
    if value * whole < 0 {
        assert(value < 0) by (nonlinear_arith)
            requires
                value * whole < 0,
                whole > 0,
        ;
    }
}

/// A column of counts keeps its rows in another unit: nulls stay null, and each count names the
/// time it did, but for the fraction a coarser unit drops.
pub proof fn law_rescaled_columns_keep_their_times(
    values: Seq<Option<i64>>,
    from: TimeUnit,
    unit: TimeUnit,
)
    ensures
        times_in(values, from, unit) matches Ok(scaled) ==> {
            &&& scaled.len() == values.len()
            &&& forall|i: int|
                0 <= i < values.len() ==> match values[i] {
                    None => (#[trigger] scaled[i]) is None,
                    Some(value) => scaled[i] is Some && is_cut(
                        value * nanos_per(from),
                        nanos_per(unit),
                        scaled[i]->0 * nanos_per(unit),
                    ),
                }
        },
{
    let step = |value: i64| rescaled(value, from, unit);
    lemma_collected(values, step);
    if let Ok(scaled) = collected(values, step) {
        assert forall|i: int| 0 <= i < values.len() implies match values[i] {
            None => (#[trigger] scaled[i]) is None,
            Some(value) => scaled[i] is Some && is_cut(
                value * nanos_per(from),
                nanos_per(unit),
                scaled[i]->0 * nanos_per(unit),
            ),
        } by {
            if let Some(value) = values[i] {
                law_counts_name_the_same_time(value, from, unit);
            }
        }
    }
}

/// Whether the clocks of `zone` show, at `instant` of `unit`, the wall-clock time `exact` but for a
/// fraction of a unit.
pub open spec fn shows_cut(zone: Seq<char>, instant: i64, unit: TimeUnit, exact: int) -> bool {
    exists|shown: int| #[trigger]
        is_cut(exact, nanos_per(unit), shown) && clocks_show(zone, instant * nanos_per(unit), shown)
}

/// A column of wall-clock times becomes instants at which the zone's clocks show them, row by row:
/// exactly, where the instants' unit is as fine, and else without the fraction it drops.
pub proof fn law_localized_columns_show_their_times(
    values: Seq<Option<i64>>,
    from: TimeUnit,
    unit: TimeUnit,
    zone: Seq<char>,
)
    requires
        is_near(zone),
    ensures
        localized_in(values, from, unit, zone) matches Ok(placed) ==> {
            &&& placed.len() == values.len()
            &&& forall|i: int|
                0 <= i < values.len() ==> match values[i] {
                    None => (#[trigger] placed[i]) is None,
                    Some(value) => {
                        &&& placed[i] is Some
                        &&& shows_cut(zone, placed[i]->0, unit, value * nanos_per(from))
                        &&& nanos_per(unit) <= nanos_per(from) ==> clocks_show(
                            zone,
                            placed[i]->0 * nanos_per(unit),
                            value * nanos_per(from),
                        )
                    },
                }
        },
{
    let step = |value: i64| rescaled(value, from, unit);
    lemma_collected(values, step);
    if let Ok(local) = collected(values, step) {
        law_placed_columns_show_their_values(local, unit, Some(zone));
        if let Ok(placed) = placed_in(local, unit, Some(zone)) {
            assert forall|i: int| 0 <= i < values.len() implies match values[i] {
                None => (#[trigger] placed[i]) is None,
                Some(value) => {
                    &&& placed[i] is Some
                    &&& shows_cut(zone, placed[i]->0, unit, value * nanos_per(from))
                    &&& nanos_per(unit) <= nanos_per(from) ==> clocks_show(
                        zone,
                        placed[i]->0 * nanos_per(unit),
                        value * nanos_per(from),
                    )
                },
            } by {
                assert(local[i] == local[i]);
                if let Some(value) = values[i] {
                    assert(step(value) == Ok::<i64, PlaceFaultView>(local[i]->0));
                    law_counts_name_the_same_time(value, from, unit);
                    let shown = local[i]->0 * nanos_per(unit);
                    assert(is_cut(value * nanos_per(from), nanos_per(unit), shown));
                }
            }
        }
    }
}

/// The digit `d`, which is below ten.
pub open spec fn digit(d: int) -> char {
    ('0' as int + d) as char
}

/// An offset says how far its clocks are ahead of UTC as it is written: two digits of hours and two
/// of minutes, with a colon between them or none, ahead behind a `+` and behind UTC behind any other
/// sign. `UTC` and `Z` are not ahead, and a name has no fixed offset.
pub proof fn law_offsets_read_as_written(a: int, b: int, c: int, d: int, zone: Seq<char>)
    requires
        0 <= a < 10,
        0 <= b < 10,
        0 <= c < 10,
        0 <= d < 10,
    ensures
        ({
            let seconds = (10 * a + b) * 3_600 + (10 * c + d) * 60;
            let parted = seq![digit(a), digit(b), ':', digit(c), digit(d)];
            let joined = seq![digit(a), digit(b), digit(c), digit(d)];
            &&& fixed(seq!['+'] + parted) == Some(seconds)
            &&& fixed(seq!['-'] + parted) == Some(-seconds)
            &&& fixed(seq!['+'] + joined) == Some(seconds)
            &&& fixed(seq!['-'] + joined) == Some(-seconds)
        }),
        fixed(seq!['U', 'T', 'C']) == Some(0int),
        fixed(seq!['Z']) == Some(0int),
        zone.len() > 0 && zone[0] != '+' && zone[0] != '-' && zone != seq!['U', 'T', 'C'] && zone
            != seq!['Z'] ==> fixed(zone) is None,
{
    lemma_written(a, b, c, d, '+', true);
    lemma_written(a, b, c, d, '-', true);
    lemma_written(a, b, c, d, '+', false);
    lemma_written(a, b, c, d, '-', false);
}

proof fn lemma_written(a: int, b: int, c: int, d: int, sign: char, parted: bool)
    requires
        0 <= a < 10,
        0 <= b < 10,
        0 <= c < 10,
        0 <= d < 10,
        sign == '+' || sign == '-',
    ensures
        ({
            let seconds = (10 * a + b) * 3_600 + (10 * c + d) * 60;
            let zone = seq![sign] + (if parted {
                seq![digit(a), digit(b), ':', digit(c), digit(d)]
            } else {
                seq![digit(a), digit(b), digit(c), digit(d)]
            });
            fixed(zone) == Some(if sign == '+' {
                seconds
            } else {
                -seconds
            })
        }),
{
    let zone = seq![sign] + (if parted {
        seq![digit(a), digit(b), ':', digit(c), digit(d)]
    } else {
        seq![digit(a), digit(b), digit(c), digit(d)]
    });
    reveal_with_fuel(first_colon, 7);
    assert(zone[0] == sign && zone[1] == digit(a) && zone[2] == digit(b));
    let (hours, minutes) = written_offset(zone);
    if parted {
        assert(zone[3] == ':');
        assert(first_colon(zone, 1) == 3);
    } else {
        assert(zone[3] == digit(c) && zone[4] == digit(d));
        assert(first_colon(zone, 1) == 5);
    }
    assert(hours =~= seq![digit(a), digit(b)]);
    assert(minutes =~= seq![digit(c), digit(d)]);
    lemma_pair(a, b);
    lemma_pair(c, d);
    assert(!is_utc(zone)) by {
        assert(zone.len() > 3);
    }
    assert(is_signed(zone));
}

proof fn lemma_pair(a: int, b: int)
    requires
        0 <= a < 10,
        0 <= b < 10,
    ensures
        parsed(seq![digit(a), digit(b)]) == Some(10 * a + b),
{
    let text = seq![digit(a), digit(b)];
    reveal_with_fuel(value_of, 3);
    assert(text.drop_last() =~= seq![digit(a)]);
    assert(text.drop_last().drop_last() =~= Seq::<char>::empty());
    assert(text.drop_last().last() == digit(a));
    assert(text.last() == digit(b));
    assert(all_digits(text));
    assert(text[0] != '+' && text[0] != '-');
}

/// A date counted in milliseconds is of the day that it is no whole day away from, towards 1970.
pub proof fn law_milliseconds_are_of_their_day(millis: i64)
    ensures
        ({
            let before = day_of(millis) * 86_400_000;
            &&& millis >= 0 ==> before <= millis < before + 86_400_000
            &&& millis <= 0 ==> before - 86_400_000 < millis <= before
        }),
{
}

} // verus!
