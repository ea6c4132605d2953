use mda_core::daemon::{
    next_backoff, pause_after, react, rename_target, round_size, DaemonConfig, Reaction, Request,
    RoundResult,
};
use mda_core::markdown::parse_str;
use mda_core::pipeline::{
    is_heading_only, lines_range, pick_section, select_round, start_of_day, synthetic_summary,
    count_indexed, needs_discovery, needs_upsert, single_report, sync_step, unchanged_index,
    IndexReport, SyncOutcome, sync_target, timeline_fetch, timeline_window, FileState,
    IgnoreReason, StaleDoc, SummarizeOptions, SyncStep,
};
use mda_core::stale::merge_stale;
use mda_core::store::PendingSection;

fn pending(path: &str, hash: &str) -> PendingSection {
    PendingSection {
        section_hash: hash.to_owned(),
        section_id: format!("{path}#0"),
        rel_path: path.to_owned(),
        heading_path: vec!["H".to_owned()],
        text: "# H\n\nbody".to_owned(),
        token_estimate: 3,
    }
}

#[test]
fn hot_paths_go_first_in_their_order_and_the_rest_keeps_its_order() {
    let p = vec![pending("a.md", "1"), pending("b.md", "2"), pending("c.md", "3"), pending("b.md", "4")];
    let opts = SummarizeOptions {
        limit: None,
        hot_paths: vec!["c.md".to_owned(), "b.md".to_owned()],
        initial_concurrency: None,
    };
    let r = select_round(p, &opts, None, 0);
    let order: Vec<&str> = r.pending.iter().map(|p| p.section_hash.as_str()).collect();
    assert_eq!(order, vec!["3", "2", "4", "1"]);
    assert_eq!(r.deferred, 0);
    assert!(!r.budget_exhausted);
}

#[test]
fn limit_and_budget_cut_the_round() {
    let p: Vec<PendingSection> = (0..10).map(|i| pending("a.md", &i.to_string())).collect();
    let opts = SummarizeOptions { limit: Some(4), ..SummarizeOptions::default() };
    let r = select_round(p.clone(), &opts, None, 0);
    assert_eq!((r.pending.len(), r.deferred, r.budget_exhausted), (4, 6, false));
    // 7_000 tokens left pay for two sections.
    let r = select_round(p.clone(), &opts, Some(10_000), 3_000);
    assert_eq!((r.pending.len(), r.deferred, r.budget_exhausted), (2, 8, true));
    // The budget covers the limit: the limit, not the budget, cut the round.
    let r = select_round(p, &opts, Some(1_000_000), 0);
    assert_eq!((r.pending.len(), r.deferred, r.budget_exhausted), (4, 6, false));
}

#[test]
fn heading_only_sections_are_recognised() {
    assert!(is_heading_only("# Title\n\n   \n"));
    assert!(is_heading_only("  ## Sub"));
    assert!(!is_heading_only("# Title\nbody"));
    assert!(!is_heading_only(""));
    assert!(!is_heading_only("plain\n"));
}

#[test]
fn synthetic_card_names_the_heading() {
    let mut p = pending("a.md", "h");
    p.heading_path = vec!["Deploy".to_owned(), "Rollback Plan".to_owned()];
    let s = synthetic_summary(&p);
    assert_eq!(s.tldr, "Heading only: Rollback Plan.");
    assert_eq!(
        s.summary,
        "The section \"Deploy › Rollback Plan\" contains only its heading; its content lives in the subsections below it."
    );
    assert_eq!(s.keywords, vec!["rollback", "plan"]);
    assert_eq!(s.questions_answered, vec!["Where is the Rollback Plan section?"]);
    p.heading_path.clear();
    assert_eq!(synthetic_summary(&p).tldr, "Heading only: (untitled).");
}

#[test]
fn days_start_at_midnight_utc() {
    assert_eq!(start_of_day(0), 0);
    assert_eq!(start_of_day(86_399), 0);
    assert_eq!(start_of_day(86_400 * 3 + 5), 86_400 * 3);
    assert_eq!(start_of_day(-1), -86_400);
    assert_eq!(start_of_day(-86_400), -86_400);
}

#[test]
fn a_section_id_follows_its_section() {
    let old = parse_str("# A\n\none\n\n# B\n\ntwo\n");
    let new = parse_str("# New\n\nx\n\n# A\n\none\n\n# B\n\ntwo\n");
    let b = &old.sections[1];
    assert_eq!(pick_section(&new.sections, b.index, &b.hash, &b.heading_path), Some(2));
    let edited = parse_str("# A\n\none\n\n# B\n\nthree\n");
    assert_eq!(pick_section(&edited.sections, b.index, &b.hash, &b.heading_path), Some(1));
    assert_eq!(pick_section(&parse_str("").sections, b.index, &b.hash, &b.heading_path), None);
}

#[test]
fn opened_lines_are_clamped_to_the_file() {
    let text = "l1\nl2\nl3\n";
    assert_eq!(lines_range(text, 2, 3), "l2\nl3");
    assert_eq!(lines_range(text, 3, 9), "l3");
    assert_eq!(lines_range(text, 7, 9), "");
}

#[test]
fn daemon_pauses_double_and_stop_at_the_maximum() {
    let cfg = DaemonConfig::default();
    assert_eq!(next_backoff(&cfg, None), 5_000);
    assert_eq!(next_backoff(&cfg, Some(5_000)), 10_000);
    assert_eq!(next_backoff(&cfg, Some(200_000)), 300_000);
    let failed = RoundResult { submitted: 3, ok: 0, failed: 3, budget_exhausted: false };
    assert_eq!(pause_after(&cfg, None, &failed), Some(5_000));
    let fine = RoundResult { submitted: 3, ok: 1, failed: 2, budget_exhausted: false };
    assert_eq!(pause_after(&cfg, Some(5_000), &fine), None);
    let budget = RoundResult { submitted: 0, ok: 0, failed: 0, budget_exhausted: true };
    assert_eq!(pause_after(&cfg, None, &budget), Some(600_000));
    assert_eq!(round_size(&cfg, 16), 32);
    assert_eq!(round_size(&DaemonConfig { round_size: Some(0), ..cfg }, 16), 1);
}

#[test]
fn stale_lists_open_and_disk_findings_once_by_path() {
    let open = vec![("b.md".to_owned(), 2, 0), ("a.md".to_owned(), 0, 1)];
    let disk = vec![
        ("a.md".to_owned(), false, false),
        ("c.md".to_owned(), false, true),
        ("b.md".to_owned(), true, false),
        ("d.md".to_owned(), false, false),
    ];
    let r = merge_stale(&open, &disk);
    let row = |p: &str, pending, failed, changed, missing| StaleDoc {
        rel_path: p.to_owned(),
        pending,
        failed,
        changed_on_disk: changed,
        missing,
    };
    assert_eq!(
        r,
        vec![
            row("a.md", 0, 1, false, false),
            row("b.md", 2, 0, true, false),
            row("c.md", 0, 0, false, true),
        ]
    );
    assert!(merge_stale(&Vec::new(), &Vec::new()).is_empty());
}

#[test]
fn timeline_fetches_deeper_under_a_filter_and_cuts_at_the_limit() {
    assert_eq!(timeline_fetch(10, false), 10);
    assert_eq!(timeline_fetch(10, true), 500);
    assert_eq!(timeline_fetch(100, true), 800);
    let paths: Vec<String> = ["docs/a.md", "notes/b.md", "docs/c.md", "docs/d.md"].iter().map(|s| s.to_string()).collect();
    assert_eq!(timeline_window(&paths, None, 2), vec![0, 1]);
    assert_eq!(timeline_window(&paths, Some("./docs"), 2), vec![0, 2]);
    assert_eq!(timeline_window(&paths, Some("docs"), 10), vec![0, 2, 3]);
    assert_eq!(timeline_window(&paths, Some("docs"), 0), vec![0, 2, 3], "a zero limit cuts nothing");
    assert_eq!(timeline_window(&paths, Some("zzz"), 3), Vec::<usize>::new());
}

#[test]
fn watcher_reports_are_judged_by_path_then_by_disk() {
    let root = "/w";
    assert_eq!(sync_target(root, "/w/notes.txt"), Err(IgnoreReason::NotMarkdown));
    assert_eq!(sync_target(root, "/elsewhere/a.md"), Err(IgnoreReason::OutsideRoot));
    assert_eq!(sync_target(root, "/w/.markdownattractor/x.md"), Err(IgnoreReason::StateDirectory));
    assert_eq!(sync_target(root, "/w/docs/a.md"), Ok("docs/a.md".to_owned()));
    assert_eq!(sync_step(true, FileState::File, false), SyncStep::Index);
    assert_eq!(sync_step(false, FileState::File, true), SyncStep::Index);
    assert_eq!(sync_step(false, FileState::File, false), SyncStep::Ignore(IgnoreReason::WalkerRules));
    assert_eq!(sync_step(true, FileState::NotFile, true), SyncStep::Ignore(IgnoreReason::NotRegularFile));
    assert_eq!(sync_step(true, FileState::Gone, true), SyncStep::Tombstone);
    assert_eq!(sync_step(false, FileState::Gone, true), SyncStep::Ignore(IgnoreReason::NeverIndexed));
    assert_eq!(sync_step(false, FileState::Unreadable, true), SyncStep::Fail);
    assert!(needs_discovery(false, FileState::File));
    assert!(!needs_discovery(true, FileState::File));
    assert!(!needs_discovery(false, FileState::Gone));
    assert_eq!(IgnoreReason::WalkerRules.as_str(), "ignored by walker rules");
}

#[test]
fn identical_content_skips_the_upsert_and_reports_every_section_unchanged() {
    assert!(!needs_upsert(&Some("h".to_owned()), &"h".to_owned()));
    assert!(needs_upsert(&Some("h".to_owned()), &"g".to_owned()));
    assert!(needs_upsert(&None, &"h".to_owned()));
    let o = unchanged_index("a.md", 3);
    assert_eq!(o.rel_path, "a.md");
    assert_eq!(o.upsert.doc_id, mda_core::store::doc_id_for("a.md"));
    assert!(!o.upsert.created && !o.upsert.changed);
    assert_eq!((o.upsert.unchanged, o.upsert.reused, o.upsert.removed, o.sections), (3, 0, 0, 3));
    assert!(o.upsert.new_hashes.is_empty());
}

#[test]
fn walk_reports_count_changed_documents_and_new_hashes() {
    let mut report = IndexReport { files: 2, ..IndexReport::default() };
    let mut o = unchanged_index("a.md", 2);
    count_indexed(&mut report, &o);
    assert_eq!((report.changed, report.pending), (0, 0));
    o.upsert.changed = true;
    o.upsert.new_hashes = vec!["x".to_owned(), "y".to_owned()];
    count_indexed(&mut report, &o);
    assert_eq!((report.files, report.changed, report.pending), (2, 1, 2));
    let one = single_report(&SyncOutcome::Indexed(o));
    assert_eq!((one.files, one.changed, one.pending), (1, 1, 2));
    let none = single_report(&SyncOutcome::Ignored { reason: "not markdown".to_owned() });
    assert_eq!((none.files, none.changed, none.pending), (1, 0, 0));
}

#[test]
fn a_vanished_document_follows_the_first_new_file_with_its_content() {
    let created = vec![
        ("x.md".to_owned(), "h1".to_owned()),
        ("y.md".to_owned(), "h2".to_owned()),
        ("z.md".to_owned(), "h2".to_owned()),
    ];
    assert_eq!(rename_target(&created, "h2"), Some("y.md".to_owned()));
    assert_eq!(rename_target(&created, "h3"), None);
    assert_eq!(rename_target(&Vec::new(), "h1"), None);
}

#[test]
fn each_request_has_its_reaction() {
    assert_eq!(react(Request::Ping), Reaction::ReplyOk);
    assert_eq!(react(Request::Status), Reaction::Status);
    assert_eq!(react(Request::Stop), Reaction::Stop);
    assert_eq!(react(Request::Pause), Reaction::SetPaused(true));
    assert_eq!(react(Request::Resume), Reaction::SetPaused(false));
    assert_eq!(react(Request::Index { path: Some("a.md".into()) }), Reaction::Index(Some("a.md".into())));
    assert_eq!(react(Request::Index { path: None }), Reaction::Index(None));
    assert_eq!(react(Request::Rescan), Reaction::Rescan);
    assert_eq!(react(Request::Watch), Reaction::Watch);
}
