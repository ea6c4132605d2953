use mda_core::analysis::{check_rows, AnalysisError, Manifest, RunRecord};
use mda_core::card::{Entities, MentionedDate, DatePrecision, SectionSummary};
use mda_core::daemon::{summarizer_step, DaemonConfig, RoundResult, SummarizerAction, SummarizerEvent};
use mda_core::dataset::{assemble_dataset, AnchorRow, AnswerRow, CorpusRow, QuestionRow};
use mda_core::error::Error;
use mda_core::pipeline::{apply_outcome, JobAction, JobOutcome, SummarizeReport};
use mda_core::validate::Caps;

fn report() -> SummarizeReport {
    SummarizeReport {
        submitted: 0,
        deterministic: 0,
        deferred: 0,
        budget_exhausted: false,
        ok: 0,
        failed: 0,
        clean: 0,
        dropped_dates: 0,
        dropped_entities: 0,
    }
}

fn card(tldr: &str) -> SectionSummary {
    SectionSummary {
        tldr: tldr.into(),
        summary: "Run deployctl rollback.".into(),
        keywords: vec!["rollback".into()],
        questions_answered: vec![],
        entities: Entities { people: vec!["Ada".into(), "Nobody".into()], ..Entities::default() },
        mentioned_dates: vec![MentionedDate {
            raw: "2031".into(),
            iso: "2031".into(),
            precision: DatePrecision::Year,
            evidence: "in 2031".into(),
        }],
        decisions: vec![],
        action_items: vec![],
    }
}

#[test]
fn a_stopped_job_is_deferred_not_failed() {
    let mut r = report();
    assert_eq!(apply_outcome("x", JobOutcome::Stopped, &Caps::default(), &mut r), JobAction::Defer);
    assert_eq!((r.deferred, r.failed, r.ok), (1, 0, 0));
}

#[test]
fn only_a_validated_card_is_attached_with_ungrounded_metadata_dropped() {
    let mut r = report();
    let text = "Ada runs deployctl rollback.";
    match apply_outcome(text, JobOutcome::Summary(card("Roll back.")), &Caps::default(), &mut r) {
        JobAction::Attach(v) => {
            assert_eq!(v.summary.entities.people, vec!["Ada"]);
            assert!(v.summary.mentioned_dates.is_empty());
            assert_eq!(v.dropped_dates.len(), 1);
            assert_eq!(v.dropped_entities, vec!["people:Nobody"]);
        }
        other => panic!("expected a card, got {other:?}"),
    }
    assert_eq!((r.ok, r.clean, r.dropped_dates, r.dropped_entities, r.failed), (1, 0, 1, 1, 0));
}

#[test]
fn a_refused_card_a_malformed_reply_and_a_failed_call_mark_the_section_failed() {
    let mut r = report();
    assert_eq!(
        apply_outcome("x", JobOutcome::Summary(card("   ")), &Caps::default(), &mut r),
        JobAction::MarkFailed("validation failed for section summary: tldr or summary is empty".into())
    );
    let raw = "y".repeat(400);
    let a = apply_outcome("x", JobOutcome::Malformed { reason: "not json".into(), raw }, &Caps::default(), &mut r);
    assert_eq!(a, JobAction::MarkFailed(format!("not json; model said: {}", "y".repeat(300))));
    let a = apply_outcome("x", JobOutcome::Failed { reason: "rate limited".into() }, &Caps::default(), &mut r);
    assert_eq!(a, JobAction::MarkFailed("rate limited".into()));
    assert_eq!((r.failed, r.ok, r.deferred), (3, 0, 0));
}

fn rec(id: &str, arm: &str, run: usize) -> RunRecord {
    RunRecord { id: id.into(), arm: arm.into(), run, error: false, graded: true, grounded: Some(true) }
}

#[test]
fn analysis_checks_draws_then_duplicates_then_the_arm() {
    let mda = "mda".to_owned();
    let rows = vec![rec("q1", "mda", 1), rec("q1", "mda", 1)];
    assert!(matches!(check_rows(&rows, &None, &mda, 1), Err(AnalysisError::Invalid(_))));
    assert!(matches!(check_rows(&rows, &None, &mda, 10), Err(AnalysisError::Duplicate { run: 1, .. })));
    let rows = vec![rec("q1", "grep", 1)];
    assert_eq!(check_rows(&rows, &None, &mda, 10), Err(AnalysisError::NoMdaRows("mda".into())));
    let m = Manifest { question_ids: vec!["q1".into()], arms: vec!["mda".into(), "grep".into()], runs: 3 };
    let (qs, arms, runs) = check_rows(&rows, &Some(m), &mda, 10).unwrap();
    assert_eq!((qs, arms, runs), (vec!["q1".to_owned()], vec!["mda".to_owned(), "grep".to_owned()], 3));
}

#[test]
fn summarizer_steps_wait_sleep_run_and_back_off() {
    let cfg = DaemonConfig::default();
    assert_eq!(summarizer_step(&cfg, 8, Some(5), SummarizerEvent::Cancelled), (Some(5), SummarizerAction::Stop));
    assert_eq!(summarizer_step(&cfg, 8, None, SummarizerEvent::Paused), (None, SummarizerAction::Wait(30000)));
    assert_eq!(summarizer_step(&cfg, 8, Some(5000), SummarizerEvent::Awake), (Some(5000), SummarizerAction::Sleep(5000)));
    assert_eq!(summarizer_step(&cfg, 8, None, SummarizerEvent::Awake), (None, SummarizerAction::ReadCounts));
    assert_eq!(summarizer_step(&cfg, 8, Some(5000), SummarizerEvent::CountsFailed), (Some(10000), SummarizerAction::Next));
    assert_eq!(summarizer_step(&cfg, 8, Some(5000), SummarizerEvent::Pending(0)), (None, SummarizerAction::Wait(30000)));
    assert_eq!(summarizer_step(&cfg, 8, None, SummarizerEvent::Pending(3)), (None, SummarizerAction::Run(16)));
    let all_failed = RoundResult { submitted: 4, ok: 0, failed: 4, budget_exhausted: false };
    assert_eq!(summarizer_step(&cfg, 8, None, SummarizerEvent::RoundDone(all_failed)), (Some(5000), SummarizerAction::Next));
    let fine = RoundResult { submitted: 4, ok: 4, failed: 0, budget_exhausted: false };
    assert_eq!(summarizer_step(&cfg, 8, Some(5000), SummarizerEvent::RoundDone(fine)), (None, SummarizerAction::Next));
    assert_eq!(summarizer_step(&cfg, 8, Some(200000), SummarizerEvent::RoundFailed), (Some(300000), SummarizerAction::Next));
}

fn corpus(doc: &str, project: &str, path: &str) -> CorpusRow {
    CorpusRow { doc_id: doc.into(), project: project.into(), repository_source_path: path.into() }
}

fn question(id: &str, project: &str) -> QuestionRow {
    QuestionRow { question_id: id.into(), project: project.into(), query: format!("about {id}") }
}

fn answer(id: &str, qrels: &[&str]) -> AnswerRow {
    AnswerRow {
        question_id: id.into(),
        qrel_ids: qrels.iter().map(|s| (*s).to_owned()).collect(),
        anchor_resolution: vec![AnchorRow {
            doc_id: "d1".into(),
            canonical_anchor: Some("setup".into()),
            canonical_heading: Some("Setup".into()),
        }],
        image_text_evidence_used: false,
        requires_multimodal_judgment: true,
    }
}

#[test]
fn a_dataset_is_assembled_from_its_rows() {
    let corpus = vec![
        corpus("d2", "p", "docs/b.md"),
        corpus("d1", "p", "docs/old.md"),
        corpus("d9", "other", "x.md"),
        corpus("d1", "p", "docs/a.md"),
    ];
    let questions = vec![question("q1", "p"), question("q2", "other"), question("q3", "p")];
    let answers = vec![answer("q1", &["d1", "zz"]), answer("q3", &["d2"]), answer("q1", &["d2", "d1", "d2"])];
    let d = assemble_dataset("p", &corpus, &questions, &answers).unwrap();
    assert_eq!(d.pages, vec![("d1".to_owned(), "docs/a.md".to_owned()), ("d2".to_owned(), "docs/b.md".to_owned())]);
    assert_eq!(d.questions.len(), 2);
    // The last answer record of q1 wins.
    assert_eq!(d.questions[0].relevant, vec!["docs/b.md", "docs/a.md"]);
    assert!(d.questions[0].unmapped_qrels.is_empty());
    assert_eq!(d.questions[0].anchors, vec![("docs/a.md".to_owned(), Some("Setup".to_owned()))]);
    assert!(d.questions[0].multimodal_judgment);
    assert_eq!(d.questions[1].id, "q3");
}

#[test]
fn a_missing_answer_and_an_empty_project_are_not_found() {
    let corpus = vec![corpus("d1", "p", "a.md")];
    let questions = vec![question("q1", "p"), question("q2", "b")];
    match assemble_dataset("p", &corpus, &questions, &vec![]) {
        Err(Error::NotFound(m)) => assert_eq!(m, "answers.jsonl has no record for q1"),
        other => panic!("{other:?}"),
    }
    match assemble_dataset("zz", &corpus, &questions, &vec![]) {
        Err(Error::NotFound(m)) => {
            assert_eq!(m, "no questions for project \"zz\"; projects in the dataset: [\"b\", \"p\"]")
        }
        other => panic!("{other:?}"),
    }
}
