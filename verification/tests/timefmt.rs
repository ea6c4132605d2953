use mda_core::error::Error;
use mda_core::timefmt::{
    age_phrase, humanize_age, parse_time, relative_span, split_relative, Lookback, Stamp,
};

fn now() -> jiff::Timestamp {
    jiff::Timestamp::now()
}

fn stamp(t: jiff::Timestamp) -> Stamp {
    Stamp { second: t.as_second(), nanosecond: t.subsec_nanosecond() }
}

fn render(t: Stamp) -> String {
    jiff::Timestamp::new(t.second, t.nanosecond).unwrap().to_string()
}

#[test]
fn relative_and_absolute_forms() {
    let now = now();
    let t = parse_time("7d").unwrap();
    assert!(((now.as_second() - t.second) - 7 * 86_400).abs() <= 2);
    assert!(parse_time("90m").is_ok());
    assert!(parse_time("2w").is_ok());
    assert!(parse_time("3x").is_err());
    assert_eq!(render(parse_time("2026-09-21").unwrap()), "2026-09-21T00:00:00Z");
    assert!(parse_time("2026-09-21T10:00:00Z").is_ok());
    assert!(parse_time("yesterday").is_err());
    assert_eq!(humanize_age(stamp(now)), "just now");
    assert_eq!(humanize_age(stamp(now - jiff::SignedDuration::from_mins(90))), "1 hour ago");
}

#[test]
fn absurd_durations_are_errors_not_panics() {
    for s in ["9223372036854775807h", "9223372036854775807d", "999999999999999w", "99999999999999999999m"]
    {
        assert!(parse_time(s).is_err(), "{s}");
    }
}

#[test]
fn relative_forms_split_into_number_and_unit() {
    assert_eq!(split_relative("90m"), Some(("90".to_owned(), "m".to_owned())));
    assert_eq!(split_relative("12hours"), Some(("12".to_owned(), "hours".to_owned())));
    assert_eq!(split_relative("90"), None);
    assert_eq!(split_relative("m"), None);
    assert_eq!(split_relative("7d!"), None);
    assert_eq!(split_relative(""), None);
    assert_eq!(split_relative("2026-09-21"), None);
}

#[test]
fn spans_convert_days_and_weeks_to_hours_and_refuse_overflow() {
    assert_eq!(relative_span("30m"), Some(Some(Lookback::Minutes(30))));
    assert_eq!(relative_span("24h"), Some(Some(Lookback::Hours(24))));
    assert_eq!(relative_span("7d"), Some(Some(Lookback::Hours(168))));
    assert_eq!(relative_span("2w"), Some(Some(Lookback::Hours(336))));
    assert_eq!(relative_span("3x"), Some(None));
    assert_eq!(relative_span("9223372036854775807d"), Some(None));
    assert_eq!(relative_span("99999999999999999999m"), Some(None));
    assert_eq!(
        relative_span("9223372036854775807h"),
        Some(Some(Lookback::Hours(9_223_372_036_854_775_807)))
    );
    assert_eq!(relative_span("yesterday"), None);
}

#[test]
fn errors_are_configuration_errors() {
    assert!(matches!(parse_time("3x"), Err(Error::Config(_))));
    assert!(matches!(parse_time("9223372036854775807h"), Err(Error::Config(_))));
    assert!(matches!(parse_time("nonsense"), Err(Error::Config(_))));
}

#[test]
fn absolute_times_keep_their_instant() {
    let t = parse_time("  2026-09-21T10:00:00.5Z ").unwrap();
    assert_eq!(t, Stamp { second: 1_789_984_800, nanosecond: 500_000_000 });
    let d = parse_time("1970-01-02").unwrap();
    assert_eq!(d, Stamp { second: 86_400, nanosecond: 0 });
}

#[test]
fn ages_in_words() {
    assert_eq!(age_phrase(-5), "just now");
    assert_eq!(age_phrase(59), "just now");
    assert_eq!(age_phrase(60), "1 min ago");
    assert_eq!(age_phrase(3_599), "59 mins ago");
    assert_eq!(age_phrase(3_600), "1 hour ago");
    assert_eq!(age_phrase(2 * 86_400), "2 days ago");
    assert_eq!(age_phrase(2_592_000), "1 month ago");
    assert_eq!(age_phrase(3 * 31_536_000), "3 years ago");
}
