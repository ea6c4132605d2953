use mda_core::analysis::{first_duplicate, rows_for, run_counts, split_arms, universe, Gates, Manifest, RunRecord};

fn rec(id: &str, arm: &str, run: usize, error: bool, graded: bool, grounded: Option<bool>) -> RunRecord {
    RunRecord { id: id.into(), arm: arm.into(), run, error, graded, grounded }
}

#[test]
fn a_repeated_observation_is_found_at_its_second_row() {
    let rows = vec![
        rec("q1", "mda", 1, false, true, Some(true)),
        rec("q1", "grep", 1, false, true, Some(true)),
        rec("q1", "mda", 2, false, true, Some(true)),
        rec("q1", "mda", 1, false, true, Some(false)),
    ];
    assert_eq!(first_duplicate(&rows), Some(3));
    assert_eq!(first_duplicate(&rows[..3].to_vec()), None);
}

#[test]
fn failed_ungraded_and_missing_runs_count_as_failures() {
    let rows = vec![
        rec("q1", "mda", 1, false, true, Some(true)),
        rec("q1", "mda", 2, true, true, Some(true)),
        rec("q1", "mda", 3, false, false, None),
        rec("q1", "mda", 4, false, true, None),
    ];
    let c = run_counts(&rows, 5);
    assert_eq!((c.runs, c.completed, c.failed, c.grounded), (5, 2, 3, 1));
    let c = run_counts(&rows, 2);
    assert_eq!((c.runs, c.completed, c.failed), (4, 2, 2), "more rows than expected runs");
}

#[test]
fn the_sample_comes_from_the_manifest_or_the_rows() {
    let rows = vec![
        rec("q2", "mda", 1, false, true, None),
        rec("q1", "mda", 1, false, true, None),
        rec("q1", "grep", 1, false, true, None),
        rec("q1", "mda", 2, false, true, None),
    ];
    let (ids, arms, runs) = universe(&rows, &None);
    assert_eq!(ids, vec!["q1".to_owned(), "q2".to_owned()]);
    assert_eq!(arms, vec!["grep".to_owned(), "mda".to_owned()]);
    assert_eq!(runs, 2);
    let m = Manifest { question_ids: vec!["q9".into()], arms: vec!["mda".into()], runs: 3 };
    assert_eq!(universe(&rows, &Some(m.clone())), (m.question_ids.clone(), m.arms.clone(), 3));
    assert_eq!(universe(&Vec::new(), &None), (Vec::new(), Vec::new(), 0));
    assert_eq!(rows_for(&rows, &"q1".to_owned(), &"mda".to_owned()).len(), 2);
}

#[test]
fn arms_split_into_analysed_and_others_in_sample_order() {
    let arms: Vec<String> = ["grep", "mda", "other", "qmd"].iter().map(|s| s.to_string()).collect();
    let (analysed, others) = split_arms(&arms, &"mda".to_owned(), &vec!["qmd".to_owned(), "grep".to_owned()]);
    assert_eq!(analysed, vec!["grep".to_owned(), "mda".to_owned(), "qmd".to_owned()]);
    assert_eq!(others, vec!["other".to_owned()]);
}

#[test]
fn gates_pass_only_together() {
    assert!(Gates::new(true, true, true).pass);
    assert!(!Gates::new(true, false, true).pass);
    assert!(!Gates::new(false, true, true).pass);
}

#[test]
fn refuses_duplicates_and_a_missing_mda_arm() {
    // No row of the mda arm: the sample's arms do not include it.
    let rows = vec![rec("q1", "grep", 1, false, true, Some(true))];
    assert!(first_duplicate(&rows).is_none());
    let (_, arms, _) = universe(&rows, &None);
    assert!(!arms.contains(&"mda".to_owned()));
    // The same (question, arm, run) twice is refused at its second row.
    let rows = vec![rec("q1", "mda", 1, false, true, Some(true)), rec("q1", "mda", 1, false, true, Some(true))];
    assert_eq!(first_duplicate(&rows), Some(1));
}
