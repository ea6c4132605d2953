use mda_core::card::{Entities, SectionSummary};
use mda_core::diff::SectionDelta;
use mda_core::error::Error;
use mda_core::eval::pages_of;
use mda_core::markdown::parse_str;
use mda_core::timefmt::{humanize_age, parse_time, Stamp, AGE_UNKNOWN};
use mda_core::upsert::birth_time;
use mda_core::validate::{is_calendar_day, normalize, validate, Caps};

fn stamp(t: jiff::Timestamp) -> Stamp {
    Stamp { second: t.as_second(), nanosecond: t.subsec_nanosecond() }
}

fn nanos(t: Stamp) -> i128 {
    i128::from(t.second) * 1_000_000_000 + i128::from(t.nanosecond)
}

fn card(tldr: &str, summary: &str) -> SectionSummary {
    SectionSummary {
        tldr: tldr.into(),
        summary: summary.into(),
        keywords: vec!["deploy".into()],
        questions_answered: vec!["How do I roll back a deploy?".into()],
        entities: Entities {
            commands: vec!["deployctl rollback".into()],
            products: vec![],
            technologies: vec![],
            people: vec![],
            orgs: vec![],
            files_paths: vec![],
        },
        mentioned_dates: vec![],
        decisions: vec!["Blue-green deploys stay.".into()],
        action_items: vec!["Automate the rollback.".into()],
    }
}

const TEXT: &str = "Run deployctl rollback to undo a deploy.";

#[test]
fn thirty_minutes_back_is_thirty_minutes_before_the_clock() {
    let before = nanos(stamp(jiff::Timestamp::now()));
    let t = nanos(parse_time("30m").unwrap());
    let after = nanos(stamp(jiff::Timestamp::now()));
    let span = 30 * 60 * 1_000_000_000_i128;
    assert!(before - span <= t && t <= after - span);
}

#[test]
fn two_hours_back_is_two_hours_before_the_clock() {
    let before = nanos(stamp(jiff::Timestamp::now()));
    let t = nanos(parse_time(" 2h ").unwrap());
    let after = nanos(stamp(jiff::Timestamp::now()));
    let span = 2 * 3_600 * 1_000_000_000_i128;
    assert!(before - span <= t && t <= after - span);
}

#[test]
fn humanize_age_counts_back_from_the_clock() {
    let now = jiff::Timestamp::now();
    let two_days = humanize_age(stamp(now - jiff::SignedDuration::from_hours(49)));
    assert_eq!(two_days, "2 days ago");
    let future = humanize_age(stamp(now + jiff::SignedDuration::from_hours(5)));
    assert_eq!(future, "just now");
    assert_ne!(two_days, AGE_UNKNOWN);
}

#[test]
fn birth_time_after_modification_is_dropped() {
    let at = |second: i64, nanosecond: i32| Stamp { second, nanosecond };
    assert_eq!(birth_time(Some(at(100, 0)), at(200, 0)), Some(at(100, 0)));
    assert_eq!(birth_time(Some(at(200, 0)), at(200, 0)), Some(at(200, 0)));
    assert_eq!(birth_time(Some(at(200, 5)), at(200, 4)), None);
    assert_eq!(birth_time(Some(at(300, 0)), at(200, 999_999_999)), None);
    assert_eq!(birth_time(None, at(200, 0)), None);
}

#[test]
fn calendar_days_follow_the_gregorian_rule() {
    assert!(!is_calendar_day("2026-02-31"));
    assert!(is_calendar_day("2024-02-29"));
    assert!(!is_calendar_day("2023-02-29"));
    assert!(!is_calendar_day("1900-02-29"));
    assert!(is_calendar_day("2000-02-29"));
    assert!(!is_calendar_day("2026-04-31"));
    assert!(is_calendar_day("2026-12-31"));
    assert!(!is_calendar_day("2026-13-01"));
    assert!(!is_calendar_day("2026-00-10"));
    assert!(!is_calendar_day("2026-01-00"));
}

#[test]
fn refused_exactly_when_tldr_or_summary_is_blank() {
    let caps = Caps::default();
    assert!(matches!(validate(TEXT, card("   ", "Body."), &caps), Err(Error::Validation { .. })));
    assert!(matches!(validate(TEXT, card("Tldr.", "\t\n"), &caps), Err(Error::Validation { .. })));
    assert!(validate(TEXT, card(" Tldr. ", " Body. "), &caps).is_ok());
}

#[test]
fn every_kept_string_respects_max_chars() {
    let caps = Caps { max_chars: 6, ..Caps::default() };
    let v = validate(TEXT, card("A tldr that is long.", "A summary that is long."), &caps).unwrap();
    assert_eq!(v.summary.tldr, "A tldr");
    assert_eq!(v.summary.summary, "A summary th");
    assert_eq!(v.summary.questions_answered, vec!["How do"]);
    assert_eq!(v.summary.decisions, vec!["Blue-g"]);
    assert_eq!(v.summary.action_items, vec!["Automa"]);
    assert_eq!(v.summary.entities.commands, vec!["deploy"]);
    assert!(v.trimmed.is_empty(), "clipping strings is not cutting a list");
}

#[test]
fn normalize_leaves_single_inner_spaces_only() {
    assert_eq!(normalize("  a \t b\u{00A0}\u{2003}c  "), "a b c");
    assert_eq!(normalize(" \t\n\u{3000}"), "");
    assert_eq!(normalize("x"), "x");
}

#[test]
fn pages_come_out_once_in_first_occurrence_order() {
    let paths: Vec<String> = ["c.md", "a.md", "c.md", "b.md", "a.md"].iter().map(|s| s.to_string()).collect();
    assert_eq!(pages_of(&paths), vec!["c.md", "a.md", "b.md"]);
}

#[test]
fn added_hashes_come_in_first_occurrence_order() {
    let doc = parse_str("# B\n\nbee\n\n# A\n\nay\n\n# B\n\nbee\n\n# C\n\nsea\n");
    let h: Vec<String> = doc.sections.iter().map(|s| s.hash.clone()).collect();
    assert_eq!(h[0], h[2]);
    let d = SectionDelta::compute(&vec![], &doc);
    assert_eq!(d.added, vec![h[0].clone(), h[1].clone(), h[3].clone()]);
}

#[test]
fn lone_carriage_returns_are_line_endings() {
    let mixed = "# A\rtext\n## B\rmore\n";
    assert_eq!(parse_str(mixed), parse_str("# A\ntext\n## B\nmore\n"));
    assert_eq!(parse_str(mixed), parse_str(&mixed.replace('\n', "\r\n")));
}

#[test]
fn a_blank_line_inside_a_fence_is_never_a_cut_point() {
    let text = "# H\n\n```\na\n\nb\n```\nafter\n";
    let (out, cut) = mda_core::planner::chunk_text(text, &mda_core::planner::PlanConfig { max_tokens: 3 });
    assert!(cut);
    assert_eq!(out, "# H\n\n[… section truncated for summarization: 7 more lines not shown]");
}

#[test]
fn removed_names_the_hashes_with_fewer_copies_now() {
    let before = parse_str("# A\n\nsame\n\n# A\n\nsame\n\n# B\n\nbee\n\n# C\n\nsea\n");
    let after = parse_str("# A\n\nsame\n\n# C\n\nsea\n");
    let known: Vec<mda_core::diff::Known> = before
        .sections
        .iter()
        .map(|s| mda_core::diff::Known { hash: s.hash.clone(), index: s.index })
        .collect();
    let d = SectionDelta::compute(&known, &after);
    let mut removed = d.removed.clone();
    removed.sort();
    let mut expected = vec![before.sections[0].hash.clone(), before.sections[2].hash.clone()];
    expected.sort();
    assert_eq!(removed, expected);
    assert!(!d.removed.contains(&before.sections[3].hash));
}
