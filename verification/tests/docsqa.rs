use mda_core::docsqa::{
    coverage, eligible, fetch_step, first_fetch, first_relevant_rank, has_repeated_question,
    map_labels, question_split, resolve_anchor, scored, scored_questions, ArmRow, Dataset, FetchStep, Question,
    FETCH_CAP,
};
use mda_core::eval::{normalize_heading, Split};

fn s(x: &str) -> String {
    x.to_owned()
}

fn pages() -> Vec<(String, String)> {
    vec![(s("d1"), s("docs/a.md")), (s("d2"), s("docs/b.md")), (s("d3"), s("docs/a.md"))]
}

fn question(id: &str, relevant: &[&str], unmapped: &[&str], anchors: Vec<(String, Option<String>)>) -> Question {
    Question {
        id: s(id),
        query: s("how?"),
        relevant: relevant.iter().map(|p| s(p)).collect(),
        anchors,
        unmapped_qrels: unmapped.iter().map(|p| s(p)).collect(),
        image_evidence: false,
        multimodal_judgment: false,
    }
}

#[test]
fn labels_map_to_pages_once_and_unknown_labels_are_kept() {
    let ids = vec![s("d1"), s("zz"), s("d3"), s("d2"), s("d1")];
    let (relevant, unmapped) = map_labels(&ids, &pages());
    assert_eq!(relevant, vec![s("docs/a.md"), s("docs/b.md")]);
    assert_eq!(unmapped, vec![s("zz")]);
}

#[test]
fn anchors_resolve_to_pages_and_section_headings() {
    let p = pages();
    assert_eq!(resolve_anchor("zz", &Some(s("x")), &Some(s("X")), &p), None);
    assert_eq!(resolve_anchor("d1", &None, &Some(s("X")), &p), Some((s("docs/a.md"), None)));
    assert_eq!(resolve_anchor("d1", &Some(s("document")), &Some(s("X")), &p), Some((s("docs/a.md"), None)));
    assert_eq!(resolve_anchor("d1", &Some(s("")), &Some(s("X")), &p), Some((s("docs/a.md"), None)));
    assert_eq!(resolve_anchor("d2", &Some(s("setup")), &Some(s("  ")), &p), Some((s("docs/b.md"), None)));
    assert_eq!(
        resolve_anchor("d2", &Some(s("setup")), &Some(s("Set up")), &p),
        Some((s("docs/b.md"), Some(s("Set up"))))
    );
}

#[test]
fn questions_are_eligible_only_with_every_label_mapped_and_indexed() {
    let indexed = vec![s("docs/a.md")];
    assert!(eligible(&question("q", &["docs/a.md"], &[], vec![]), &indexed));
    assert!(!eligible(&question("q", &["docs/a.md", "docs/b.md"], &[], vec![]), &indexed));
    assert!(!eligible(&question("q", &["docs/a.md"], &["zz"], vec![]), &indexed));
    assert!(!eligible(&question("q", &[], &[], vec![]), &indexed));
    let mut img = question("q", &["docs/a.md"], &[], vec![]);
    img.image_evidence = true;
    assert!(!eligible(&img, &indexed));
}

#[test]
fn coverage_counts_labels_exclusions_and_anchors() {
    let mut img = question("img", &["docs/a.md"], &[], vec![]);
    img.image_evidence = true;
    let mut mm = question(
        "mm",
        &["docs/a.md"],
        &[],
        vec![(s("docs/a.md"), Some(s("Deploy `now`"))), (s("docs/a.md"), None)],
    );
    mm.multimodal_judgment = true;
    let dataset = Dataset {
        project: s("demo"),
        questions: vec![
            img,
            question("gone", &["docs/b.md"], &[], vec![]),
            question("unmapped", &["docs/a.md"], &["zz"], vec![]),
            mm,
            question("miss", &["docs/a.md"], &[], vec![(s("docs/a.md"), Some(s("Rollback")))]),
        ],
        pages: pages(),
    };
    let indexed = vec![s("docs/a.md")];
    let headings = vec![(s("docs/a.md"), vec![normalize_heading("Alpha > Deploy now"), normalize_heading("Alpha")])];
    let c = coverage(&dataset, &indexed, &headings);
    assert_eq!(c.project, "demo");
    assert_eq!((c.corpus_pages, c.corpus_pages_indexed), (3, 2));
    assert_eq!((c.qrels, c.qrels_indexed, c.qrels_unmapped), (6, 4, 1));
    assert_eq!(c.questions, 5);
    assert_eq!((c.excluded_image_evidence, c.excluded_missing_page, c.eligible), (1, 2, 2));
    assert_eq!(c.multimodal_judgment, 1);
    assert_eq!((c.anchors, c.anchors_found), (3, 2));
    assert_eq!(c.questions_with_missing_anchor, 1);
    assert_eq!(c.missing_anchor_ids, vec![s("miss")]);
}

#[test]
fn a_dataset_splits_its_questions_by_id() {
    let dataset = Dataset {
        project: s("demo"),
        questions: (0..20).map(|i| question(&format!("q{i}"), &[], &[], vec![])).collect(),
        pages: Vec::new(),
    };
    let r = dataset.split(9);
    assert_eq!(r.len(), 20);
    assert_eq!(r.iter().filter(|(_, sp)| *sp == Split::Dev).count(), 6);
    assert_eq!(r.iter().filter(|(_, sp)| *sp == Split::Test).count(), 11);
    assert_eq!(r, mda_core::split::split_ids(9, &(0..20).map(|i| format!("q{i}")).collect()));
}

#[test]
fn an_arm_may_not_answer_a_question_twice() {
    let row = |id: &str| ArmRow { question_id: s(id), paths: vec![s("a.md")], truncated: false };
    assert!(!has_repeated_question(&vec![row("q1"), row("q2")]));
    assert!(has_repeated_question(&vec![row("q1"), row("q2"), row("q1")]));
    assert!(!has_repeated_question(&Vec::new()));
}

#[test]
fn questions_are_scored_within_their_split_and_holdout_stays_sealed() {
    let splits = vec![(s("q1"), Split::Dev), (s("q2"), Split::Holdout)];
    assert_eq!(question_split(&splits, "q1"), Split::Dev);
    assert_eq!(question_split(&splits, "zz"), Split::Holdout, "an unknown id is held out");
    let indexed = vec![s("docs/a.md")];
    let q = question("q1", &["docs/a.md"], &[], vec![]);
    assert!(scored(&q, &indexed, Split::Dev, None, false));
    assert!(scored(&q, &indexed, Split::Dev, Some(Split::Dev), false));
    assert!(!scored(&q, &indexed, Split::Dev, Some(Split::Test), false));
    assert!(!scored(&q, &indexed, Split::Holdout, None, false));
    assert!(scored(&q, &indexed, Split::Holdout, None, true));
    assert!(!scored(&question("q", &["docs/b.md"], &[], vec![]), &indexed, Split::Dev, None, true));
}

#[test]
fn searches_deepen_until_ten_pages_or_the_cap() {
    assert_eq!(first_fetch(0), 1);
    assert_eq!(first_fetch(50), 50);
    assert_eq!(first_fetch(5000), FETCH_CAP);
    assert_eq!(fetch_step(50, 50, 10), FetchStep::Done(false));
    assert_eq!(fetch_step(50, 49, 3), FetchStep::Done(false), "exhausted");
    assert_eq!(fetch_step(50, 50, 3), FetchStep::Deeper(100));
    assert_eq!(fetch_step(1500, 1500, 3), FetchStep::Deeper(FETCH_CAP));
    assert_eq!(fetch_step(FETCH_CAP, FETCH_CAP, 3), FetchStep::Done(true));
}

#[test]
fn the_first_relevant_page_has_a_one_based_rank() {
    let ranked = vec![s("a.md"), s("b.md"), s("c.md")];
    assert_eq!(first_relevant_rank(&ranked, &vec![s("c.md")]), Some(3));
    assert_eq!(first_relevant_rank(&ranked, &vec![s("b.md"), s("a.md")]), Some(1));
    assert_eq!(first_relevant_rank(&ranked, &vec![s("z.md")]), None);
    assert_eq!(first_relevant_rank(&Vec::new(), &vec![s("a.md")]), None);
}

#[test]
fn a_run_scores_the_eligible_questions_of_its_split_in_dataset_order() {
    let d = Dataset {
        project: s("p"),
        questions: vec![
            question("q1", &["docs/a.md"], &[], vec![]),
            question("q2", &["docs/b.md"], &[], vec![]),
            question("q3", &["docs/a.md"], &["zz"], vec![]),
            question("q4", &["docs/a.md"], &[], vec![]),
            question("q5", &["docs/a.md"], &[], vec![]),
        ],
        pages: pages(),
    };
    let indexed = vec![s("docs/a.md")];
    let splits = vec![(s("q1"), Split::Test), (s("q3"), Split::Test), (s("q4"), Split::Dev)];
    // q2 is not indexed, q3 has an unmapped label, q5 has no split and so is held out.
    assert_eq!(scored_questions(&d, &indexed, &splits, None, false), vec![0, 3]);
    assert_eq!(scored_questions(&d, &indexed, &splits, Some(Split::Test), false), vec![0]);
    assert_eq!(scored_questions(&d, &indexed, &splits, None, true), vec![0, 3, 4]);
}
