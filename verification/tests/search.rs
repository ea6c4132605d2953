use mda_core::search::{
    fetch_depth, matched, or_expression, passes, path_under_prefix, snippet_of, use_or_fallback,
    without_stopwords, Matched,
};
use mda_core::timefmt::Stamp;
use mda_core::store::{
    doc_id_for, fts_escape, section_id_for, CreatedAtSource, EventKind, SectionState,
};

#[test]
fn stop_words_leave_the_and_form_but_never_empty_it() {
    assert_eq!(
        without_stopwords("how do I roll back a deploy with deployctl"),
        "roll back deploy deployctl"
    );
    assert_eq!(without_stopwords("What is the CAP theorem?"), "CAP theorem?");
    assert_eq!(without_stopwords("what is it"), "what is it", "all stop-words: the query stays");
}

#[test]
fn snippet_skips_markup_only_lines() {
    let s = snippet_of(
        "## Title\n\n<Tabs\n  scrollable\n  size=\"small\"\n>\n<TabPanel id=\"a\"> </TabPanel>\n\nprose here\n\n</TabPanel>\n</Tabs>\n",
    );
    assert_eq!(s, "prose here");
    assert_eq!(
        snippet_of("## T\n\nimport X from 'y'\n\n<Note>with text</Note>\nrun --to <sha>\n"),
        "<Note>with text</Note> run --to <sha>"
    );
    assert_eq!(
        snippet_of("# H\n<Note\n kind=\"tip\">Important prose\nFollowing prose.\na < b > c\n"),
        "Important prose Following prose. a < b > c"
    );
    assert_eq!(snippet_of("# H\n<Note\n kind=\"tip\"\nnever closed\n"), "");
}

#[test]
fn snippet_skips_heading_and_collapses() {
    let s = snippet_of("## Title\n\nfirst line\n  second   line\n");
    assert_eq!(s, "first line second line");
    let long = format!("# H\n{}", "x".repeat(500));
    assert!(snippet_of(&long).ends_with('…'));
    assert_eq!(snippet_of(&long).chars().count(), 201);
}

#[test]
fn or_expression_joins_escaped_terms() {
    let e = or_expression("roll back deploy");
    assert!(e.contains(" OR "));
    assert_eq!(e.matches(" OR ").count(), 2);
    assert_eq!(e, "\"roll\" OR \"back\" OR \"deploy\"");
    assert_eq!(or_expression("* roll"), "\"roll\"");
}

#[test]
fn fts_escape_neutralises_syntax() {
    assert_eq!(fts_escape("hello world"), r#""hello" "world""#);
    assert_eq!(fts_escape(r#"say "hi""#), r#""say" """hi""""#);
    assert_eq!(fts_escape("foo*"), r#""foo"*"#);
    assert_eq!(fts_escape("fo*o"), r#""fo*o""#);
    assert_eq!(fts_escape("a OR b"), r#""a" "OR" "b""#);
    assert_eq!(fts_escape("NEAR(a b)"), r#""NEAR(a" "b)""#);
    assert_eq!(fts_escape("title:foo"), r#""title:foo""#);
    assert_eq!(fts_escape("  \t\n "), "");
    assert_eq!(fts_escape("*"), "");
    assert_eq!(fts_escape("-x ^y"), r#""-x" "^y""#);
}

#[test]
fn doc_id_is_16_hex_over_forward_slash_path() {
    let id = doc_id_for("docs/plan.md");
    assert_eq!(id.len(), 16);
    assert!(id.chars().all(|c| c.is_ascii_hexdigit()));
    assert_eq!(id, doc_id_for("docs\\plan.md"));
    assert_ne!(id, doc_id_for("docs/plan2.md"));
}

#[test]
fn doc_id_is_the_blake3_prefix() {
    // blake3("") = af1349b9f5f9a1a6a0404dea36dcc9499bcb25c9adc112b7cc9a93cae41f3262
    assert_eq!(doc_id_for(""), "af1349b9f5f9a1a6");
}

#[test]
fn section_ids_and_stored_names() {
    assert_eq!(section_id_for("abcd", 12), "abcd#12");
    assert_eq!(CreatedAtSource::Birthtime.as_str(), "birthtime");
    assert_eq!(CreatedAtSource::parse("first_seen"), Some(CreatedAtSource::FirstSeen));
    assert_eq!(CreatedAtSource::parse("x"), None);
    assert_eq!(SectionState::parse("failed"), Some(SectionState::Failed));
    assert_eq!(SectionState::parse("Failed"), None);
    assert_eq!(SectionState::Summarized.as_str(), "summarized");
    assert_eq!(EventKind::DocRenamed.as_str(), "doc_renamed");
    assert_eq!(EventKind::parse("section_failed"), Some(EventKind::SectionFailed));
    assert_eq!(EventKind::parse("nope"), None);
}

fn at(second: i64) -> Stamp {
    Stamp { second, nanosecond: 0 }
}

#[test]
fn filters_bound_time_and_path() {
    let t = at(100);
    assert!(passes(t, "docs/a.md", None, None, None));
    assert!(passes(t, "docs/a.md", Some(at(100)), Some(at(100)), None), "bounds are inclusive");
    assert!(!passes(t, "docs/a.md", Some(at(101)), None, None));
    assert!(!passes(t, "docs/a.md", None, Some(at(99)), None));
    assert!(!passes(Stamp { second: 100, nanosecond: 5 }, "a.md", None, Some(at(100)), None));
    assert!(passes(t, "docs/a.md", None, None, Some("./docs")));
    assert!(passes(t, "docs/a.md", None, None, Some("././docs/")));
    assert!(!passes(t, "notes/a.md", None, None, Some("docs")));
}

#[test]
fn prefix_drops_every_leading_dot_slash() {
    assert!(path_under_prefix("a/b.md", "./././a"));
    assert!(path_under_prefix("a/b.md", ""));
    assert!(path_under_prefix("a/b.md", "./"));
    assert!(!path_under_prefix("a/b.md", "../a"));
}

#[test]
fn fetch_depth_is_four_k_with_a_floor() {
    assert_eq!(fetch_depth(10, false), 40);
    assert_eq!(fetch_depth(2, false), 16);
    assert_eq!(fetch_depth(10, true), 200);
    assert_eq!(fetch_depth(100, true), 400);
    assert_eq!(fetch_depth(usize::MAX, false), usize::MAX);
}

#[test]
fn or_fallback_runs_only_when_nothing_eligible_matched() {
    assert!(use_or_fallback(false, true, "\"a\" OR \"b\"", "\"a\" \"b\""));
    assert!(!use_or_fallback(true, true, "\"a\" OR \"b\"", "\"a\" \"b\""));
    assert!(!use_or_fallback(false, false, "\"a\" OR \"b\"", "\"a\" \"b\""));
    assert!(!use_or_fallback(false, true, "\"a\"", "\"a\""), "the same query again is pointless");
    assert!(!use_or_fallback(false, true, "", "\"a\""));
}

#[test]
fn fused_hits_are_labelled_by_their_lists() {
    assert_eq!(matched(true, true), Matched::Both);
    assert_eq!(matched(true, false), Matched::Cards);
    assert_eq!(matched(false, true), Matched::Raw);
    assert_eq!(matched(false, false), Matched::Vector);
}
