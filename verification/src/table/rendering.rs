//! Temporal values as text: as Arrow renders them wherever it can, and exactly, in UTC, where it
//! cannot.
//!
//! Arrow renders dates, times and timestamps through `chrono`, which holds a few hundred thousand
//! years. Durations are always rendered here, as Arrow renders them in range: `PT1.5S`.

use crate::table::temporal::{day_number, exact, is_exact_text, Temporal, TimeUnit};
use crate::table::zones::{
    fixed, held, is_held, offset_at_utc, offset_from_utc, second, second_of, zone_fault,
    zone_known, Zone,
};
use crate::text::text_view;
use arrow_array::Int64Array;
use arrow_cast::cast;
use arrow_cast::display::{ArrayFormatter, FormatOptions};
use arrow_schema::DataType;
use vstd::prelude::*;
use vstd::string::*;

verus! {

/// Arrow's text of `value` in the zoneless type named `named_type`, stored as `storage`, a
/// `Date64` by `date_format`; none where it renders none.
pub uninterp spec fn arrow_rendering(
    storage: Seq<char>,
    named_type: Seq<char>,
    date_format: Seq<char>,
    value: i64,
) -> Option<Seq<char>>;

/// Arrow's `ArrayFormatter` on one date, time or timestamp of the type `named_type` names, without a
/// zone, as `arrow_cast::cast` reads it from its `storage`, a `Date64` by `date_format`: the text, or
/// none where it fails. What the text is is left to the name.
#[verifier::external_body]
fn arrow_text(storage: &str, named_type: &str, date_format: &str, value: i64) -> (text: Option<
    String,
>)
    requires
        is_rendered_as(storage@, named_type@, value),
        date_format@ == "%Y-%m-%d"@,
    ensures
        match text {
            Some(text) => arrow_rendering(storage@, named_type@, date_format@, value) == Some(text@),
            None => arrow_rendering(storage@, named_type@, date_format@, value) is None,
        },
{
    let stored: DataType = storage.parse().ok()?;
    let data_type: DataType = named_type.parse().ok()?;
    let plain = cast(&Int64Array::from(vec![value]), &stored).ok()?;
    let array = cast(&plain, &data_type).ok()?;
    let options = FormatOptions::default().with_datetime_format(Some(date_format));
    let formatter = ArrayFormatter::try_new(array.as_ref(), &options).ok()?;
    formatter.value(0).try_to_string().ok()
}

/// Arrow's text of the instant `value`, of `unit`, in `zone`; none where it renders none.
pub uninterp spec fn arrow_zoned_rendering(
    unit: TimeUnit,
    zone: Seq<char>,
    value: i64,
) -> Option<Seq<char>>;

/// Arrow's `ArrayFormatter` on one timestamp of `unit` in `zone`: the text, or none where it
/// fails. It panics on an instant that `chrono` holds and whose wall-clock time in the zone it does
/// not. What the text is is left to the name.
#[verifier::external_body]
fn arrow_zoned_text(unit: TimeUnit, zone: &str, value: i64) -> (text: Option<String>)
    requires
        is_held(second_of(value as int, unit)) ==> is_held(
            second_of(value as int, unit) + offset_at_utc(
                zone@,
                second_of(value as int, unit) as i64,
            ),
        ),
    ensures
        match text {
            Some(text) => arrow_zoned_rendering(unit, zone@, value) == Some(text@),
            None => arrow_zoned_rendering(unit, zone@, value) is None,
        },
{
    let unit = match unit {
        TimeUnit::Second => arrow_schema::TimeUnit::Second,
        TimeUnit::Millisecond => arrow_schema::TimeUnit::Millisecond,
        TimeUnit::Microsecond => arrow_schema::TimeUnit::Microsecond,
        TimeUnit::Nanosecond => arrow_schema::TimeUnit::Nanosecond,
    };
    let data_type = DataType::Timestamp(unit, Some(zone.into()));
    let array = cast(&Int64Array::from(vec![value]), &data_type).ok()?;
    let formatter = ArrayFormatter::try_new(array.as_ref(), &FormatOptions::default()).ok()?;
    formatter.value(0).try_to_string().ok()
}

/// Whether a type stores its values in 32 bits.
pub open spec fn is_narrow(kind: Temporal) -> bool {
    kind == Temporal::Date32 || kind == Temporal::Time(TimeUnit::Second) || kind == Temporal::Time(
        TimeUnit::Millisecond,
    )
}

/// Whether a type's values are instants of a zone.
pub open spec fn has_zone(kind: Temporal) -> bool {
    kind matches Temporal::Timestamp(_, zoned) && zoned
}

/// Whether `value` is one a type stores.
pub open spec fn is_stored(kind: Temporal, value: i64) -> bool {
    is_narrow(kind) ==> i32::MIN <= value <= i32::MAX
}

/// How Arrow names the integers a type stores.
pub open spec fn storage_name(kind: Temporal) -> Seq<char> {
    if is_narrow(kind) {
        "Int32"@
    } else {
        "Int64"@
    }
}

/// How Arrow names a type that has no zone.
pub open spec fn named_type(kind: Temporal) -> Seq<char> {
    match kind {
        Temporal::Date32 => "Date32"@,
        Temporal::Date64 => "Date64"@,
        Temporal::Time(TimeUnit::Second) => "Time32(Second)"@,
        Temporal::Time(TimeUnit::Millisecond) => "Time32(Millisecond)"@,
        Temporal::Time(TimeUnit::Microsecond) => "Time64(Microsecond)"@,
        Temporal::Time(TimeUnit::Nanosecond) => "Time64(Nanosecond)"@,
        Temporal::Timestamp(TimeUnit::Second, _) => "Timestamp(Second)"@,
        Temporal::Timestamp(TimeUnit::Millisecond, _) => "Timestamp(Millisecond)"@,
        Temporal::Timestamp(TimeUnit::Microsecond, _) => "Timestamp(Microsecond)"@,
        Temporal::Timestamp(TimeUnit::Nanosecond, _) => "Timestamp(Nanosecond)"@,
        Temporal::Duration(TimeUnit::Second) => "Duration(Second)"@,
        Temporal::Duration(TimeUnit::Millisecond) => "Duration(Millisecond)"@,
        Temporal::Duration(TimeUnit::Microsecond) => "Duration(Microsecond)"@,
        Temporal::Duration(TimeUnit::Nanosecond) => "Duration(Nanosecond)"@,
    }
}

/// Whether `storage` and `arrow_name` are Arrow's names for a type that has neither a zone nor is a
/// duration, and `value` is one it stores.
pub open spec fn is_rendered_as(storage: Seq<char>, arrow_name: Seq<char>, value: i64) -> bool {
    exists|kind: Temporal|
        !(kind is Duration) && storage == storage_name(kind) && arrow_name == #[trigger] named_type(
            kind,
        ) && is_stored(kind, value)
}

/// How Arrow names a type that has no zone.
fn name_of(kind: Temporal) -> (name: &'static str)
    ensures
        name@ == named_type(kind),
{
    match kind {
        Temporal::Date32 => "Date32",
        Temporal::Date64 => "Date64",
        Temporal::Time(TimeUnit::Second) => "Time32(Second)",
        Temporal::Time(TimeUnit::Millisecond) => "Time32(Millisecond)",
        Temporal::Time(TimeUnit::Microsecond) => "Time64(Microsecond)",
        Temporal::Time(TimeUnit::Nanosecond) => "Time64(Nanosecond)",
        Temporal::Timestamp(TimeUnit::Second, _) => "Timestamp(Second)",
        Temporal::Timestamp(TimeUnit::Millisecond, _) => "Timestamp(Millisecond)",
        Temporal::Timestamp(TimeUnit::Microsecond, _) => "Timestamp(Microsecond)",
        Temporal::Timestamp(TimeUnit::Nanosecond, _) => "Timestamp(Nanosecond)",
        Temporal::Duration(TimeUnit::Second) => "Duration(Second)",
        Temporal::Duration(TimeUnit::Millisecond) => "Duration(Millisecond)",
        Temporal::Duration(TimeUnit::Microsecond) => "Duration(Microsecond)",
        Temporal::Duration(TimeUnit::Nanosecond) => "Duration(Nanosecond)",
    }
}

/// Whether `text` is what Arrow `rendered` of a value, or its exact text where Arrow rendered
/// none.
pub open spec fn is_text_of(
    kind: Temporal,
    value: i64,
    rendered: Option<Seq<char>>,
    text: Seq<char>,
) -> bool {
    match rendered {
        Some(arrow) => text == arrow,
        None => is_exact_text(kind, value, text),
    }
}

/// Whether Arrow is asked for the text of the instant `value`, of `unit`, in `zone`: `chrono` holds
/// it there, and a named zone's offset then is whole minutes, which is all the text of an offset
/// holds.
pub open spec fn is_writable(unit: TimeUnit, zone: Seq<char>, value: i64) -> bool {
    let second = second_of(value as int, unit);
    let offset = offset_at_utc(zone, second as i64);
    is_held(second) && is_held(second + offset) && (fixed(zone) is None ==> offset as int % 60 == 0)
}

/// What Arrow is asked to render, of a value of `kind` in `zone`, and renders.
pub open spec fn rendered(kind: Temporal, zone: Option<Seq<char>>, value: i64) -> Option<Seq<char>> {
    match (kind, zone) {
        (Temporal::Duration(_), _) => None,
        (Temporal::Timestamp(unit, _), Some(zone)) => if is_writable(unit, zone, value) {
            arrow_zoned_rendering(unit, zone, value)
        } else {
            None
        },
        _ => arrow_rendering(storage_name(kind), named_type(kind), "%Y-%m-%d"@, value),
    }
}

/// Whether `text` is that of the temporal `value`.
pub open spec fn is_rendering(
    kind: Temporal,
    zone: Option<Seq<char>>,
    value: i64,
    text: Seq<char>,
) -> bool {
    is_text_of(kind, value, rendered(kind, zone, value), text)
}

/// The text Arrow rendered of a value, or its exact text where Arrow rendered none.
pub fn text_of(kind: Temporal, value: i64, rendered: Option<String>) -> (text: String)
    ensures
        is_text_of(kind, value, text_view(rendered), text@),
{
    match rendered {
        Some(text) => text,
        None => exact(kind, value),
    }
}

/// Renders values of one temporal type.
#[derive(Debug)]
pub struct Renderer {
    kind: Temporal,
    zone: Option<Zone>,
}

impl Renderer {
    /// The type whose values are rendered.
    pub closed spec fn kind(&self) -> Temporal {
        self.kind
    }

    /// The zone its timestamps are in.
    pub closed spec fn zone(&self) -> Option<Seq<char>> {
        match self.zone {
            Some(zone) => Some(zone@),
            None => None,
        }
    }

    /// A renderer of values of `kind`, timestamps in `zone` where it names one; what Arrow says
    /// against the zone where it does not know it.
    pub fn new(kind: Temporal, zone: Option<String>) -> (renderer: Result<Renderer, String>)
        requires
            has_zone(kind) == zone is Some,
        ensures
            match renderer {
                Ok(renderer) => {
                    &&& renderer.kind() == kind
                    &&& renderer.zone() == text_view(zone)
                    &&& zone matches Some(zone) ==> zone_known(zone@)
                },
                Err(fault) => zone matches Some(zone) && zone_fault(zone@) == Some(fault@),
            },
    {
        match zone {
            None => Ok(Renderer { kind, zone: None }),
            Some(name) => match Zone::parse(name) {
                Ok(zone) => Ok(Renderer { kind, zone: Some(zone) }),
                Err(fault) => Err(fault),
            },
        }
    }

    /// The text of `value`.
    pub fn render(&self, value: i64) -> (text: String)
        requires
            is_stored(self.kind(), value),
        ensures
            is_rendering(self.kind(), self.zone(), value, text@),
    {
        let rendered: Option<String> = match (self.kind, &self.zone) {
            (Temporal::Duration(_), _) => None,
            (Temporal::Timestamp(unit, _), Some(zone)) => {
                let fixed: bool = zone.fixed().is_some();
                let instant: i64 = second(value, unit);
                if !held(instant) {
                    None
                } else {
                    let offset: i32 = offset_from_utc(zone.name().as_str(), instant);
                    let whole: bool = fixed || match offset.checked_rem_euclid(60) {
                        Some(rest) => rest == 0,
                        None => true,
                    };
                    if held(instant + offset as i64) && whole {
                        arrow_zoned_text(unit, zone.name().as_str(), value)
                    } else {
                        None
                    }
                }
            },
            _ => {
                let storage: &'static str = match self.kind {
                    Temporal::Date32 => "Int32",
                    Temporal::Time(TimeUnit::Second) => "Int32",
                    Temporal::Time(TimeUnit::Millisecond) => "Int32",
                    _ => "Int64",
                };
                assert(is_rendered_as(storage@, named_type(self.kind), value));
                arrow_text(storage, name_of(self.kind), "%Y-%m-%d", value)
            },
        };
        text_of(self.kind, value, rendered)
    }
}

/// Whether `texts` are those of the `values`, nulls left null.
pub open spec fn are_renderings(
    kind: Temporal,
    zone: Option<Seq<char>>,
    values: Seq<Option<i64>>,
    texts: Seq<Option<String>>,
) -> bool {
    &&& texts.len() == values.len()
    &&& forall|i: int|
        0 <= i < texts.len() ==> match (values[i], #[trigger] texts[i]) {
            (None, None) => true,
            (Some(value), Some(text)) => is_rendering(kind, zone, value, text@),
            _ => false,
        }
}

/// Each value of `values`, of `kind`, as text; nulls stay null. What Arrow says against the zone
/// where it does not know it, whatever the values.
pub fn text(values: &Vec<Option<i64>>, kind: Temporal, zone: Option<String>) -> (texts: Result<
    Vec<Option<String>>,
    String,
>)
    requires
        has_zone(kind) == zone is Some,
        forall|i: int|
            0 <= i < values@.len() ==> (#[trigger] values@[i] matches Some(value) ==> is_stored(
                kind,
                value,
            )),
    ensures
        match texts {
            Ok(texts) => {
                &&& are_renderings(kind, text_view(zone), values@, texts@)
                &&& zone matches Some(zone) ==> zone_known(zone@)
            },
            Err(fault) => zone matches Some(zone) && zone_fault(zone@) == Some(fault@),
        },
{
    let renderer: Renderer = match Renderer::new(kind, zone) {
        Ok(renderer) => renderer,
        Err(fault) => return Err(fault),
    };
    let mut texts: Vec<Option<String>> = Vec::new();
    let mut at: usize = 0;
    while at < values.len()
        invariant
            0 <= at <= values@.len(),
            renderer.kind() == kind,
            are_renderings(kind, renderer.zone(), values@.take(at as int), texts@),
            forall|i: int|
                0 <= i < values@.len() ==> (#[trigger] values@[i] matches Some(value) ==> is_stored(
                    kind,
                    value,
                )),
        decreases values.len() - at,
    {
        let item: Option<String> = match values[at] {
            None => None,
            Some(value) => Some(renderer.render(value)),
        };
        texts.push(item);
        at = at + 1;
    }
    proof {
        assert(values@.take(at as int) =~= values@);
    }
    Ok(texts)
}

/// How Arrow calls a unit.
pub open spec fn unit_name(unit: TimeUnit) -> Seq<char> {
    match unit {
        TimeUnit::Second => "Second"@,
        TimeUnit::Millisecond => "Millisecond"@,
        TimeUnit::Microsecond => "Microsecond"@,
        TimeUnit::Nanosecond => "Nanosecond"@,
    }
}

/// Arrow's name for a type says its unit, and in how many bits its dates and times of day are
/// stored: as many as the integers that it is read from.
pub proof fn law_arrow_names_say_units_and_widths(kind: Temporal)
    ensures
        match kind {
            Temporal::Date32 => named_type(kind) == "Date32"@,
            Temporal::Date64 => named_type(kind) == "Date64"@,
            Temporal::Time(unit) => named_type(kind) == (if is_narrow(kind) {
                "Time32("@
            } else {
                "Time64("@
            }) + unit_name(unit) + ")"@,
            Temporal::Timestamp(unit, _) => named_type(kind) == "Timestamp("@ + unit_name(unit)
                + ")"@,
            Temporal::Duration(unit) => named_type(kind) == "Duration("@ + unit_name(unit) + ")"@,
        },
        storage_name(kind) == (if is_narrow(kind) {
            "Int32"@
        } else {
            "Int64"@
        }),
        is_narrow(kind) <==> kind is Date32 || (kind is Time && kind->Time_0 != TimeUnit::Microsecond
            && kind->Time_0 != TimeUnit::Nanosecond),
{
    reveal_strlit("Second");
    reveal_strlit("Millisecond");
    reveal_strlit("Microsecond");
    reveal_strlit("Nanosecond");
    reveal_strlit(")");
    reveal_strlit("Time32(");
    reveal_strlit("Time64(");
    reveal_strlit("Timestamp(");
    reveal_strlit("Duration(");
    reveal_strlit("Time32(Second)");
    reveal_strlit("Time32(Millisecond)");
    reveal_strlit("Time64(Microsecond)");
    reveal_strlit("Time64(Nanosecond)");
    reveal_strlit("Timestamp(Second)");
    reveal_strlit("Timestamp(Millisecond)");
    reveal_strlit("Timestamp(Microsecond)");
    reveal_strlit("Timestamp(Nanosecond)");
    reveal_strlit("Duration(Second)");
    reveal_strlit("Duration(Millisecond)");
    reveal_strlit("Duration(Microsecond)");
    reveal_strlit("Duration(Nanosecond)");
    match kind {
        Temporal::Time(unit) => {
            let family = if is_narrow(kind) {
                "Time32("@
            } else {
                "Time64("@
            };
            assert(named_type(kind) =~= family + unit_name(unit) + ")"@);
        },
        Temporal::Timestamp(unit, _) => {
            assert(named_type(kind) =~= "Timestamp("@ + unit_name(unit) + ")"@);
        },
        Temporal::Duration(unit) => {
            assert(named_type(kind) =~= "Duration("@ + unit_name(unit) + ")"@);
        },
        _ => {},
    }
}

/// Every value has a text, and Arrow's where it has one that says all of it. A duration's is always
/// exact. An instant's is exact where `chrono` does not hold it, or what its zone's clocks show, or
/// where a named zone's clocks are then some seconds ahead of whole minutes; an offset that is
/// written out is written as it is.
pub proof fn law_texts_are_arrows_or_exact(
    kind: Temporal,
    zone: Option<Seq<char>>,
    value: i64,
    text: Seq<char>,
)
    requires
        is_rendering(kind, zone, value, text),
        has_zone(kind) == zone is Some,
    ensures
        kind is Duration ==> is_exact_text(kind, value, text),
        kind matches Temporal::Timestamp(unit, true) ==> {
            let second = second_of(value as int, unit);
            let ahead = offset_at_utc(zone->0, second as i64);
            let arrow = arrow_zoned_rendering(unit, zone->0, value);
            if !is_held(second) || !is_held(second + ahead) || (ahead as int % 60 != 0 && fixed(
                zone->0,
            ) is None) || arrow is None {
                is_exact_text(kind, value, text)
            } else {
                text == arrow->0
            }
        },
        !(kind is Duration) && zone is None ==> {
            let arrow = arrow_rendering(storage_name(kind), named_type(kind), "%Y-%m-%d"@, value);
            if arrow is None {
                is_exact_text(kind, value, text)
            } else {
                text == arrow->0
            }
        },
{
}

/// A second is held exactly where it is of the years -262143 to 262142, from the first of January
/// of the first to the last of December of the last.
pub proof fn law_held_seconds_are_of_held_years(second: int)
    ensures
        is_held(second) <==> day_number(-262_143, 1, 1) * 86_400 <= second < (day_number(
            262_142,
            12,
            31,
        ) + 1) * 86_400,
{
}

} // verus!
