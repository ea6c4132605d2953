use mda_core::markdown::{parse_str, Document};
use mda_core::store::{doc_id_for, CreatedAtSource, EventKind};
use mda_core::timefmt::Stamp;
use mda_core::upsert::{first_created_at, plan_upsert, DocTimes, UpsertPlan};

const DOC_A: &str = "# Alpha\n\nintro text about zebras\n\n## Deploy\n\nrun the deploy script\n\n## Rollback\n\nrevert to the previous release\n";

fn ts(secs: i64) -> Stamp {
    Stamp { second: 1_700_000_000 + secs, nanosecond: 0 }
}

fn hashes(doc: &Document) -> Vec<String> {
    doc.sections.iter().map(|s| s.hash.clone()).collect()
}

/// The stored sections after a plan: each hash with its `updated_at`.
fn stored(doc: &Document, plan: &UpsertPlan) -> Vec<(String, Stamp)> {
    doc.sections.iter().zip(&plan.updated_at).map(|(s, at)| (s.hash.clone(), *at)).collect()
}

fn first_upsert(doc: &Document) -> UpsertPlan {
    plan_upsert(doc_id_for("a.md"), &None, &doc.hash, &Vec::new(), &hashes(doc), &Vec::new(), ts(0))
}

#[test]
fn new_document_is_created_with_every_hash_new() {
    let doc = parse_str(DOC_A);
    let p = first_upsert(&doc);
    assert!(p.outcome.created);
    assert!(p.outcome.changed);
    assert_eq!(p.outcome.new_hashes, hashes(&doc));
    assert_eq!((p.outcome.reused, p.outcome.unchanged, p.outcome.removed), (0, 0, 0));
    assert_eq!(p.event, Some(EventKind::DocCreated));
    assert!(!p.restored);
    assert_eq!(p.updated_at, vec![ts(0); doc.sections.len()]);
}

#[test]
fn same_document_again_is_unchanged() {
    let doc = parse_str(DOC_A);
    let first = first_upsert(&doc);
    let old = stored(&doc, &first);
    let known = first.outcome.new_hashes.clone();
    let existing = Some((doc.hash.clone(), false));
    let p = plan_upsert(doc_id_for("a.md"), &existing, &doc.hash, &old, &hashes(&doc), &known, ts(1));
    assert!(!p.outcome.created);
    assert!(!p.outcome.changed);
    assert!(p.outcome.new_hashes.is_empty());
    assert_eq!(p.outcome.unchanged, first.outcome.new_hashes.len());
    assert_eq!((p.outcome.reused, p.outcome.removed), (0, 0));
    assert_eq!(p.event, None, "no DocChanged for identical content");
    assert_eq!(p.updated_at, vec![ts(0); doc.sections.len()]);
}

#[test]
fn editing_one_section_yields_new_hashes_and_keeps_unchanged_times() {
    let doc = parse_str(DOC_A);
    let first = first_upsert(&doc);
    let old = stored(&doc, &first);
    let known = first.outcome.new_hashes.clone();
    let edited = DOC_A
        .replace("intro text about zebras", "intro text about zebras\n\nmore intro\nand more")
        .replace("run the deploy script", "run the NEW deploy script");
    let doc2 = parse_str(&edited);
    let existing = Some((doc.hash.clone(), false));
    let p = plan_upsert(doc_id_for("a.md"), &existing, &doc2.hash, &old, &hashes(&doc2), &known, ts(10));
    assert!(!p.outcome.created);
    assert!(p.outcome.changed);
    assert_eq!(p.outcome.new_hashes.len(), 2, "preamble-with-title and Deploy changed");
    assert_eq!(p.outcome.unchanged, 1);
    assert_eq!(p.outcome.removed, 2);
    assert_eq!(p.event, Some(EventKind::DocChanged));
    assert_eq!(p.updated_at, vec![ts(10), ts(10), ts(0)], "unchanged content keeps its updated_at");
}

#[test]
fn same_text_in_two_docs_shares_one_summary() {
    let a = parse_str(DOC_A);
    let known = first_upsert(&a).outcome.new_hashes;
    let b = parse_str("# Beta\n\n## Deploy\n\nrun the deploy script\n");
    let p = plan_upsert(doc_id_for("b.md"), &None, &b.hash, &Vec::new(), &hashes(&b), &known, ts(1));
    assert_eq!(p.outcome.new_hashes.len(), 1, "only the Beta preamble is new");
    assert_eq!(p.outcome.reused, 1);
    assert_eq!(p.outcome.unchanged, 0);
}

#[test]
fn a_hash_repeated_in_one_document_is_new_once_then_reused() {
    let h = vec!["x".to_owned(), "y".to_owned(), "x".to_owned()];
    let p = plan_upsert("d".to_owned(), &None, &"doc".to_owned(), &Vec::new(), &h, &Vec::new(), ts(3));
    assert_eq!(p.outcome.new_hashes, vec!["x".to_owned(), "y".to_owned()]);
    assert_eq!(p.outcome.reused, 1);
    assert_eq!(p.outcome.new_hashes.len() + p.outcome.reused + p.outcome.unchanged, h.len());
}

#[test]
fn removed_counts_distinct_stored_hashes_and_the_first_time_wins() {
    let old = vec![("a".to_owned(), ts(1)), ("b".to_owned(), ts(2)), ("b".to_owned(), ts(5)), ("a".to_owned(), ts(9))];
    let existing = Some(("old".to_owned(), false));
    let p = plan_upsert("d".to_owned(), &existing, &"new".to_owned(), &old, &vec!["a".to_owned()], &Vec::new(), ts(20));
    assert_eq!(p.outcome.removed, 1);
    assert_eq!(p.outcome.unchanged, 1);
    assert_eq!(p.updated_at, vec![ts(1)]);
}

#[test]
fn a_tombstoned_document_comes_back_restored() {
    let existing = Some(("h".to_owned(), true));
    let p = plan_upsert("d".to_owned(), &existing, &"h".to_owned(), &Vec::new(), &Vec::new(), &Vec::new(), ts(0));
    assert!(p.outcome.created && p.outcome.changed);
    assert_eq!(p.event, Some(EventKind::DocCreated));
    assert!(p.restored);
}

#[test]
fn birthtime_becomes_created_at_else_first_seen() {
    let t = DocTimes { created_at: Some(ts(-5)), modified_at: ts(0), now: ts(7), size_bytes: 1 };
    assert_eq!(first_created_at(&t), (ts(-5), CreatedAtSource::Birthtime));
    let t = DocTimes { created_at: None, ..t };
    assert_eq!(first_created_at(&t), (ts(7), CreatedAtSource::FirstSeen));
}
