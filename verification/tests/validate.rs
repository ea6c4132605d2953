use mda_core::card::DatePrecision::{Day, Month, Relative, Year};
use mda_core::card::{DatePrecision, Entities, MentionedDate, SectionSummary};
use mda_core::error::Error;
use mda_core::validate::{iso_matches, normalize, normalize_iso, validate, years_in, Caps};

fn base() -> SectionSummary {
    SectionSummary {
        tldr: "Rollback uses deployctl.".into(),
        summary: "Run deployctl rollback. Verify afterwards.".into(),
        keywords: vec!["Rollback".into(), "deploy".into(), "rollback".into(), String::new()],
        questions_answered: vec!["How do I roll back?".into()],
        entities: Entities {
            commands: vec!["deployctl rollback --to <previous-sha>".into(), "rm -rf /".into()],
            products: vec!["PagerDuty".into()],
            technologies: vec![],
            people: vec![],
            orgs: vec![],
            files_paths: vec![],
        },
        mentioned_dates: vec![],
        decisions: vec![],
        action_items: vec![],
    }
}

const TEXT: &str = "### Rollback\n\nSince “March 2026” we use blue–green. Run `deployctl rollback --to <previous-sha>` and page via PagerDuty.\n";

#[test]
fn keywords_are_lowercased_and_deduped_and_empties_dropped() {
    let v = validate(TEXT, base(), &Caps::default()).unwrap();
    assert_eq!(v.summary.keywords, vec!["rollback", "deploy"]);
}

#[test]
fn ungrounded_entities_are_dropped_and_reported() {
    let v = validate(TEXT, base(), &Caps::default()).unwrap();
    assert_eq!(v.summary.entities.commands, vec!["deployctl rollback --to <previous-sha>"]);
    assert_eq!(v.dropped_entities, vec!["commands:rm -rf /"]);
    assert_eq!(v.summary.entities.products, vec!["PagerDuty"]);
}

#[test]
fn date_with_curly_quotes_in_source_is_grounded() {
    let mut s = base();
    s.mentioned_dates.push(MentionedDate {
        raw: "March 2026".into(),
        iso: "2026-03".into(),
        precision: DatePrecision::Month,
        evidence: "Since \"March 2026\" we use blue-green".into(),
    });
    let v = validate(TEXT, s, &Caps::default()).unwrap();
    assert_eq!(v.summary.mentioned_dates.len(), 1);
    assert!(v.dropped_dates.is_empty());
}

#[test]
fn date_with_invented_evidence_is_dropped() {
    let mut s = base();
    s.mentioned_dates.push(MentionedDate {
        raw: "April 2026".into(),
        iso: "2026-04".into(),
        precision: DatePrecision::Month,
        evidence: "In April 2026 we migrated".into(),
    });
    let v = validate(TEXT, s, &Caps::default()).unwrap();
    assert!(v.summary.mentioned_dates.is_empty());
    assert_eq!(v.dropped_dates.len(), 1);
}

#[test]
fn date_whose_evidence_does_not_contain_raw_is_dropped() {
    let mut s = base();
    s.mentioned_dates.push(MentionedDate {
        raw: "2026-03-01".into(),
        iso: "2026-03-01".into(),
        precision: DatePrecision::Day,
        evidence: "we use blue-green".into(),
    });
    let v = validate(TEXT, s, &Caps::default()).unwrap();
    assert!(v.summary.mentioned_dates.is_empty());
}

#[test]
fn malformed_iso_is_dropped() {
    let mut s = base();
    s.mentioned_dates.push(MentionedDate {
        raw: "March 2026".into(),
        iso: "2026-13".into(),
        precision: DatePrecision::Month,
        evidence: "Since \"March 2026\" we use".into(),
    });
    let v = validate(TEXT, s, &Caps::default()).unwrap();
    assert!(v.summary.mentioned_dates.is_empty());
}

#[test]
fn iso_forms_follow_precision() {
    assert!(iso_matches("2026", Year, "2026"));
    assert!(iso_matches("2026-09", Month, "Sept 2026"));
    assert!(iso_matches("2026-09-21", Day, "21 September 2026"));
    assert!(iso_matches("2026-07", Month, "July"), "no year in raw: accept");
    assert!(iso_matches("2026-09-21", Relative, "last Monday"));
    assert!(!iso_matches("2026-09", Day, "Sept 2026"), "day precision needs a full date");
    assert!(!iso_matches("2026-02-31", Day, "31 Feb 2026"), "not a calendar day");
    assert!(!iso_matches("2026-13", Month, "x 2026"));
    assert!(!iso_matches("26", Year, "26"));
    assert!(!iso_matches("2026-9", Month, "Sept 2026"));
    assert!(!iso_matches("2026-09-21T10:00", Day, "2026-09-21"));
    assert!(!iso_matches("Q4 2026", Year, "Q4 2026"));
    assert!(!iso_matches("2099-03", Month, "March 2026"), "fabricated year");
    assert_eq!(years_in("from 1999 to 2026, not 12345 or 999"), vec!["1999", "2026"]);
}

#[test]
fn timestamp_style_iso_is_normalised_to_precision() {
    assert_eq!(normalize_iso("2026-07-01T00:00:00Z", Month), "2026-07");
    assert_eq!(normalize_iso("2026-07-28T00:00:00Z", Day), "2026-07-28");
    assert_eq!(normalize_iso("2026-03-01 00:00", Year), "2026");
    assert_eq!(normalize_iso("2026-09", Month), "2026-09");
    assert_eq!(normalize_iso("2026-09", Day), "2026-09", "too short for day: left alone");
    assert_eq!(normalize_iso("garbage", Day), "garbage");
    let mut s = base();
    s.mentioned_dates.push(MentionedDate {
        raw: "March 2026".into(),
        iso: "2026-03-01T00:00:00Z".into(),
        precision: Month,
        evidence: "Since \"March 2026\" we use".into(),
    });
    let v = validate(TEXT, s, &Caps::default()).unwrap();
    assert_eq!(v.summary.mentioned_dates[0].iso, "2026-03");
}

#[test]
fn fabricated_iso_year_is_dropped() {
    let mut s = base();
    s.mentioned_dates.push(MentionedDate {
        raw: "March 2026".into(),
        iso: "2099-03".into(),
        precision: DatePrecision::Month,
        evidence: "Since \"March 2026\" we use blue-green".into(),
    });
    let v = validate(TEXT, s, &Caps::default()).unwrap();
    assert!(v.summary.mentioned_dates.is_empty());
    assert_eq!(v.dropped_dates.len(), 1);
}

#[test]
fn lists_are_capped_and_reported() {
    let mut s = base();
    s.decisions = (0..10).map(|i| format!("decision {i}")).collect();
    let v = validate(TEXT, s, &Caps::default()).unwrap();
    assert_eq!(v.summary.decisions.len(), 4);
    assert!(v.trimmed.iter().any(|t| t == "decisions"));
    assert!(!v.is_clean());
}

#[test]
fn long_strings_are_clipped_on_char_boundary() {
    let mut s = base();
    s.tldr = "é".repeat(500);
    let v = validate(TEXT, s, &Caps::default()).unwrap();
    assert_eq!(v.summary.tldr.chars().count(), 400);
}

#[test]
fn empty_tldr_is_rejected() {
    let mut s = base();
    s.tldr = "   ".into();
    let err = validate(TEXT, s, &Caps::default()).unwrap_err();
    assert!(matches!(err, Error::Validation { .. }), "{err:?}");
}

#[test]
fn normalize_folds_typography_and_whitespace() {
    assert_eq!(normalize("“a” – b\u{a0}c   d\n\te…"), "\"a\" - b c d e...");
    assert_eq!(normalize("  leading and trailing  "), "leading and trailing");
    assert_eq!(normalize(""), "");
}

#[test]
fn clean_card_is_clean() {
    let mut s = base();
    s.keywords = vec!["rollback".into()];
    s.entities.commands.pop();
    let v = validate(TEXT, s, &Caps::default()).unwrap();
    assert!(v.is_clean(), "{v:?}");
}

#[test]
fn empty_summary_body_is_rejected_too() {
    let mut s = base();
    s.summary = "\n\t ".into();
    assert!(matches!(validate(TEXT, s, &Caps::default()), Err(Error::Validation { .. })));
}

#[test]
fn entity_and_date_caps_are_reported() {
    let mut s = base();
    s.entities.products = vec!["PagerDuty".into(), "deployctl".into(), "blue".into()];
    let caps = Caps { entities_per_category: 2, ..Caps::default() };
    let v = validate(TEXT, s, &caps).unwrap();
    assert_eq!(v.summary.entities.products, vec!["PagerDuty", "deployctl"]);
    assert!(v.trimmed.iter().any(|t| t == "products"));
}
