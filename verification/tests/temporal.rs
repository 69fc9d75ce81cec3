//! Dates, times, instants and durations as text, and where local times are placed.

use rdlt_engine::table::rendering::{text, text_of, Renderer};
use rdlt_engine::table::temporal::{civil, clock, date, duration, exact, nanos, Temporal, TimeUnit};
use rdlt_engine::table::zones::{
    fixed_offset, held, instant, localized, midnights, placed, rescale, second, shift, times,
    whole_days, PlaceFault, Zone,
};

const NANOS_PER_SECOND: i128 = 1_000_000_000;

fn rendered(values: Vec<i64>, kind: Temporal, zone: Option<&str>) -> Vec<String> {
    let values = values.into_iter().map(Some).collect();
    text(&values, kind, zone.map(str::to_owned))
        .expect("the values render")
        .into_iter()
        .map(|text| text.expect("no value is null"))
        .collect()
}

#[test]
fn dates_render_across_the_whole_range() {
    assert_eq!(date(0), "1970-01-01");
    assert_eq!(date(11_016), "2000-02-29", "the last day of a 400-year cycle");
    assert_eq!(date(-135_081), "1600-02-29");
    assert_eq!(date(-25_508), "1900-03-01");
    assert_eq!(date(47_540), "2100-02-28");
    assert_eq!(date(-719_162), "0001-01-01");
    assert_eq!(date(-719_528), "0000-01-01");
    assert_eq!(date(-719_529), "-0001-12-31");
    assert_eq!(date(2_932_897), "+10000-01-01");
    assert_eq!(date(i128::from(i32::MAX)), "+5881580-07-11");
}

#[test]
fn durations_render_as_arrow_renders_them() {
    assert_eq!(duration(1_500_000_000), "PT1.5S");
    assert_eq!(duration(0), "PT0S");
    assert_eq!(duration(-500_000_000), "-PT0.5S");
    assert_eq!(duration(2_000_000_000), "PT2S");
    assert_eq!(duration(i128::from(i64::MIN) * NANOS_PER_SECOND), "-PT9223372036854775808S");
    assert_eq!(
        rendered(vec![1_500, 0, -500, 2_000], Temporal::Duration(TimeUnit::Millisecond), None),
        ["PT1.5S", "PT0S", "-PT0.5S", "PT2S"]
    );
}

#[test]
fn dates_become_their_midnight_in_a_fixed_zone() {
    let zone = Some("+05:30".to_owned());
    let placed = midnights(&vec![Some(0), Some(1), None], TimeUnit::Millisecond, zone);
    assert_eq!(placed.ok(), Some(vec![Some(-19_800_000), Some(66_600_000), None]));
    let utc = midnights(&vec![Some(-1)], TimeUnit::Second, None);
    assert_eq!(utc.ok(), Some(vec![Some(-86_400)]));
}

#[test]
fn a_midnight_a_named_zone_skips_or_repeats_is_placed_by_the_offset_in_force_or_the_earlier() {
    let skipped = Some("America/Sao_Paulo".to_owned());
    let placed = midnights(&vec![Some(17_839)], TimeUnit::Second, skipped);
    assert_eq!(placed.ok(), Some(vec![Some(1_541_300_400)]), "03:00 UTC, at -03:00");
    let repeated = Some("America/Havana".to_owned());
    let placed = midnights(&vec![Some(18_203)], TimeUnit::Second, repeated);
    assert_eq!(placed.ok(), Some(vec![Some(1_572_753_600)]), "the earlier midnight, at -04:00");
}

#[test]
fn a_date_beyond_its_units_range_is_refused_and_a_named_zone_beyond_its_years_too() {
    assert!(midnights(&vec![Some(200_000)], TimeUnit::Nanosecond, None).is_err());
    let named = Some("Asia/Kolkata".to_owned());
    assert!(matches!(
        midnights(&vec![Some(i64::from(i32::MAX))], TimeUnit::Second, named),
        Err(PlaceFault::BeyondYears { .. })
    ));
    let fixed = Some("-03:30".to_owned());
    let far = midnights(&vec![Some(i64::from(i32::MAX))], TimeUnit::Second, fixed);
    assert_eq!(far.ok(), Some(vec![Some(i64::from(i32::MAX) * 86_400 + 12_600)]));
}

#[test]
fn dates_counted_in_milliseconds_are_placed_beyond_those_counted_in_32_bits() {
    let days = i64::from(i32::MAX) + 1;
    let dates = vec![Some(days * 86_400_000), None, Some(-86_400_000), Some(86_399_999)];
    let counted = whole_days(&dates);
    assert_eq!(counted, [Some(days), None, Some(-1), Some(0)]);
    let placed = midnights(&counted, TimeUnit::Second, None);
    assert_eq!(placed.ok(), Some(vec![Some(days * 86_400), None, Some(-86_400), Some(0)]));
    let fixed = Some("-03:30".to_owned());
    let placed = midnights(&vec![Some(days)], TimeUnit::Millisecond, fixed);
    assert_eq!(placed.ok(), Some(vec![Some(days * 86_400_000 + 12_600_000)]));
    assert!(midnights(&vec![Some(i64::MAX)], TimeUnit::Second, None).is_err());
    assert_eq!(whole_days(&vec![Some(i64::MIN)]), [Some(i64::MIN / 86_400_000)]);
}

#[test]
fn wall_clock_times_become_the_instants_they_name_in_a_zone() {
    let naive = vec![Some(1_000), None];
    let zone = "+05:00".to_owned();
    let placed = localized(&naive, TimeUnit::Millisecond, TimeUnit::Second, zone.clone());
    assert_eq!(placed.ok(), Some(vec![Some(1 - 18_000), None]));
    let huge = vec![Some(i64::MAX / 2)];
    assert!(
        localized(&huge, TimeUnit::Second, TimeUnit::Nanosecond, zone).is_err(),
        "no unit wraps"
    );
}

#[test]
fn fixed_offsets_read_from_their_names() {
    assert_eq!(fixed_offset("UTC"), Some(0));
    assert_eq!(fixed_offset("+05:30"), Some(19_800));
    assert_eq!(fixed_offset("-03:30"), Some(-12_600));
    assert_eq!(fixed_offset("+0530"), Some(19_800));
    assert_eq!(fixed_offset("Asia/Kolkata"), None);
}

#[test]
fn instants_beyond_the_years_arrow_renders_are_rendered_in_utc() {
    let far = 100_000_000_000_000;
    assert_eq!(
        rendered(vec![far], Temporal::Timestamp(TimeUnit::Second, true), Some("+05:00")),
        ["+3170843-11-07T09:46:40Z"]
    );
    assert_eq!(
        rendered(vec![far], Temporal::Timestamp(TimeUnit::Second, false), None),
        ["+3170843-11-07T09:46:40"]
    );
}

#[test]
fn clocks_render_fractions_in_three_six_or_nine_digits() {
    assert_eq!(clock(3_661 * NANOS_PER_SECOND), "01:01:01");
    assert_eq!(clock(1_500_000_000), "00:00:01.500");
    assert_eq!(clock(1_000_001_000), "00:00:01.000001");
    assert_eq!(clock(1_000_000_001), "00:00:01.000000001");
}

#[test]
fn times_outside_a_day_render_as_signed_clocks() {
    assert_eq!(
        rendered(vec![-1_500, 90_000_000], Temporal::Time(TimeUnit::Millisecond), None),
        ["-00:00:01.500", "25:00:00"]
    );
}

#[test]
fn what_arrow_renders_is_kept() {
    let second = |zoned: bool| Temporal::Timestamp(TimeUnit::Second, zoned);
    assert_eq!(rendered(vec![0], Temporal::Date32, None), ["1970-01-01"]);
    assert_eq!(rendered(vec![86_400_000], Temporal::Date64, None), ["1970-01-02"]);
    assert_eq!(rendered(vec![1_500], Temporal::Time(TimeUnit::Millisecond), None), ["00:00:01.500"]);
    assert_eq!(rendered(vec![90], second(false), None), ["1970-01-01T00:01:30"]);
    assert_eq!(rendered(vec![90], second(true), Some("UTC")), ["1970-01-01T00:01:30Z"]);
    assert_eq!(rendered(vec![90], second(true), Some("+05:00")), ["1970-01-01T05:01:30+05:00"]);
    assert_eq!(
        rendered(vec![1_541_300_400], second(true), Some("America/Sao_Paulo")),
        ["2018-11-04T01:00:00-02:00"]
    );
}

#[test]
fn nulls_render_as_nulls() {
    let texts = text(&vec![None, Some(0)], Temporal::Date32, None);
    assert_eq!(texts, Ok(vec![None, Some("1970-01-01".to_owned())]));
}

#[test]
fn an_unknown_zone_renders_nothing() {
    let zoned = Temporal::Timestamp(TimeUnit::Second, true);
    assert!(Renderer::new(zoned, Some("Nowhere/At_All".to_owned())).is_err());
    assert!(Zone::parse("Nowhere/At_All".to_owned()).is_err());
    assert!(matches!(
        placed(vec![Some(0)], TimeUnit::Second, Some("Nowhere/At_All".to_owned())),
        Err(PlaceFault::UnknownZone { .. })
    ));
}

#[test]
fn text_falls_back_to_the_exact_form() {
    assert_eq!(text_of(Temporal::Date32, 0, Some("shown".to_owned())), "shown");
    assert_eq!(text_of(Temporal::Date32, 1, None), "1970-01-02");
    assert_eq!(exact(Temporal::Date64, -1), "1969-12-31");
    assert_eq!(exact(Temporal::Time(TimeUnit::Second), 90_000), "25:00:00");
    assert_eq!(exact(Temporal::Duration(TimeUnit::Microsecond), 1), "PT0.000001S");
    assert_eq!(
        exact(Temporal::Timestamp(TimeUnit::Millisecond, false), -1),
        "1969-12-31T23:59:59.999"
    );
}

#[test]
fn every_day_is_one_date() {
    assert_eq!(civil(0), (1970, 1, 1));
    assert_eq!(civil(-1), (1969, 12, 31));
    assert_eq!(civil(11_016), (2000, 2, 29));
    assert_eq!(civil(-719_528), (0, 1, 1));
}

#[test]
fn units_are_exact() {
    assert_eq!(nanos(i64::MAX, TimeUnit::Second), i128::from(i64::MAX) * NANOS_PER_SECOND);
    assert_eq!(second(-1, TimeUnit::Millisecond), -1);
    assert_eq!(second(999, TimeUnit::Millisecond), 0);
    assert!(held(0) && !held(i64::MAX) && !held(i64::MIN));
}

#[test]
fn a_fixed_zone_shows_what_was_placed() {
    let zone = Zone::parse("-03:30".to_owned()).expect("a fixed zone");
    assert_eq!(zone.fixed(), Some(-12_600));
    assert_eq!(zone.name(), "-03:30");
    assert_eq!(instant(1_000, TimeUnit::Second, &zone).ok(), Some(13_600));
    assert_eq!(shift(0, TimeUnit::Millisecond, 5).ok(), Some(-5_000));
    assert!(matches!(
        shift(i64::MIN, TimeUnit::Second, 1),
        Err(PlaceFault::Overflow { value: i64::MIN })
    ));
}

#[test]
fn rescaling_truncates_or_refuses() {
    assert_eq!(rescale(1_999, TimeUnit::Millisecond, TimeUnit::Second).ok(), Some(1));
    assert_eq!(rescale(2, TimeUnit::Second, TimeUnit::Microsecond).ok(), Some(2_000_000));
    assert!(matches!(
        rescale(i64::MAX, TimeUnit::Second, TimeUnit::Millisecond),
        Err(PlaceFault::Rescale { .. })
    ));
    let seconds = vec![Some(1), None, Some(-2)];
    assert_eq!(
        times(&seconds, TimeUnit::Second, TimeUnit::Nanosecond).ok(),
        Some(vec![Some(1_000_000_000), None, Some(-2_000_000_000)])
    );
    assert!(matches!(
        times(&vec![None, Some(i64::MAX), Some(i64::MIN)], TimeUnit::Second, TimeUnit::Millisecond),
        Err(PlaceFault::Rescale { value: i64::MAX, .. })
    ));
}

#[test]
fn a_named_zone_moves_by_the_offset_in_force() {
    let zone = Zone::parse("Asia/Kolkata".to_owned()).expect("a named zone");
    assert_eq!(zone.fixed(), None);
    assert_eq!(instant(0, TimeUnit::Second, &zone).ok(), Some(-19_800));
    let message = match instant(i64::MAX, TimeUnit::Second, &zone) {
        Err(fault) => fault.message(),
        Ok(_) => panic!("beyond the years a named zone holds"),
    };
    assert!(!message.is_empty());
}

#[test]
fn exact_texts_keep_every_value() {
    let values = [i64::MIN, -86_400_001, -1, 0, 1, 999, 1_000, 60_000, 86_400_000, i64::MAX];
    for kind in [
        Temporal::Time(TimeUnit::Millisecond),
        Temporal::Timestamp(TimeUnit::Microsecond, false),
        Temporal::Timestamp(TimeUnit::Second, true),
        Temporal::Duration(TimeUnit::Nanosecond),
    ] {
        let mut texts: Vec<String> = values.iter().map(|value| exact(kind, *value)).collect();
        texts.sort();
        texts.dedup();
        assert_eq!(texts.len(), values.len(), "{kind:?}");
    }
    assert_eq!(exact(Temporal::Date64, 0), exact(Temporal::Date64, 86_399_999), "one day");
}

#[test]
fn finer_units_name_the_same_time() {
    let value = 1_234_567;
    for (from, to) in [
        (TimeUnit::Second, TimeUnit::Nanosecond),
        (TimeUnit::Millisecond, TimeUnit::Microsecond),
        (TimeUnit::Second, TimeUnit::Second),
    ] {
        let scaled = rescale(value, from, to).unwrap_or_else(|fault| panic!("{}", fault.message()));
        assert_eq!(nanos(scaled, to), nanos(value, from));
    }
    let placed = midnights(&vec![Some(3), None], TimeUnit::Microsecond, None);
    let placed = placed.unwrap_or_else(|fault| panic!("{}", fault.message()));
    assert_eq!(placed[1], None, "nulls stay null");
    assert_eq!(
        placed[0].map(|value| nanos(value, TimeUnit::Microsecond)),
        Some(3 * 86_400 * NANOS_PER_SECOND)
    );
}
