use mda_core::paired::{align, check_compare, compare_refusal, tally, PairedError, PairedInput};

fn rows(hits: &[bool]) -> Vec<(String, bool)> {
    hits.iter().enumerate().map(|(i, &h)| (format!("q{i}"), h)).collect()
}

fn one(label: &str, base: &[bool], cand: &[bool]) -> PairedInput {
    PairedInput { label: label.into(), baseline: rows(base), candidate: rows(cand) }
}

#[test]
fn sides_must_pair_up_exactly() {
    let mut m = one("p", &[true, false], &[true, false]);
    m.candidate.push(("extra".into(), true));
    match align(&m) {
        Err(PairedError::IdMismatch { label, only_baseline, only_candidate, first }) => {
            assert_eq!((label.as_str(), only_baseline, only_candidate, first.as_str()), ("p", 0, 1, "extra"));
        }
        other => panic!("{other:?}"),
    }
    let mut d = one("p", &[true, false], &[true, false]);
    d.baseline.push(("q0".into(), false));
    assert!(matches!(align(&d), Err(PairedError::Duplicate { side, id, .. }) if side == "baseline" && id == "q0"));
    let mut dc = one("p", &[true, false], &[true, false]);
    dc.candidate.push(("q1".into(), false));
    assert!(matches!(align(&dc), Err(PairedError::Duplicate { side, .. }) if side == "candidate"));
    assert!(matches!(align(&one("p", &[], &[])), Err(PairedError::Empty { .. })));
    assert!(matches!(check_compare(0, 10), Some(PairedError::Invalid(_))));
    assert!(matches!(check_compare(1, 1), Some(PairedError::Invalid(_))));
    assert!(check_compare(1, 2).is_none());
}

#[test]
fn mismatch_names_the_first_odd_id_in_id_order() {
    let input = PairedInput {
        label: "p".into(),
        baseline: vec![("b".into(), true), ("z".into(), true), ("a".into(), false)],
        candidate: vec![("b".into(), true), ("c".into(), false), ("y".into(), true)],
    };
    match align(&input) {
        Err(PairedError::IdMismatch { only_baseline, only_candidate, first, .. }) => {
            assert_eq!((only_baseline, only_candidate, first.as_str()), (2, 2, "a"));
        }
        other => panic!("{other:?}"),
    }
}

#[test]
fn pairs_come_in_id_order_with_both_outcomes() {
    let input = PairedInput {
        label: "p".into(),
        baseline: vec![("q2".into(), true), ("q1".into(), false), ("q3".into(), true)],
        candidate: vec![("q3".into(), false), ("q2".into(), true), ("q1".into(), true)],
    };
    let pairs = align(&input).unwrap();
    assert_eq!(
        pairs,
        vec![("q1".to_owned(), false, true), ("q2".to_owned(), true, true), ("q3".to_owned(), true, false)]
    );
}

#[test]
fn counts_wins_losses_and_ties() {
    let p = one("p", &[true, false, false, true], &[false, true, true, true]);
    let pairs: Vec<(bool, bool)> = align(&p).unwrap().into_iter().map(|(_, b, c)| (b, c)).collect();
    assert_eq!(tally(&pairs), (2, 1, 1));
    let same = one("p", &[true, false, true], &[true, false, true]);
    let pairs: Vec<(bool, bool)> = align(&same).unwrap().into_iter().map(|(_, b, c)| (b, c)).collect();
    assert_eq!(tally(&pairs), (0, 0, 3));
}

/// The first refusal a comparison of `inputs` with `draws` draws meets: the arguments, then
/// each project's alignment in input order.
fn refusal(inputs: &[PairedInput], draws: usize) -> Option<PairedError> {
    if let Some(e) = check_compare(inputs.len(), draws) {
        return Some(e);
    }
    inputs.iter().find_map(|p| align(p).err())
}

#[test]
fn refuses_different_question_sets_duplicates_and_empty_projects() {
    let mut m = one("p", &[true, false], &[true, false]);
    m.candidate.push(("extra".into(), true));
    assert!(matches!(
        refusal(&[m], 10),
        Some(PairedError::IdMismatch { only_candidate: 1, only_baseline: 0, .. })
    ));
    let mut d = one("p", &[true, false], &[true, false]);
    d.baseline.push(("q0".into(), false));
    assert!(matches!(refusal(&[d], 10), Some(PairedError::Duplicate { ref side, .. }) if side == "baseline"));
    assert!(matches!(refusal(&[one("p", &[], &[])], 10), Some(PairedError::Empty { .. })));
    assert!(matches!(refusal(&[], 10), Some(PairedError::Invalid(_))));
    assert!(matches!(refusal(&[one("p", &[true], &[true])], 1), Some(PairedError::Invalid(_))));
}

#[test]
fn a_comparison_is_refused_at_its_first_unpaired_project() {
    let good = one("a", &[true, false], &[false, false]);
    let mut bad = one("b", &[true], &[true]);
    bad.candidate.push(("extra".into(), false));
    assert_eq!(compare_refusal(&vec![good.clone()], 2), None);
    assert!(matches!(compare_refusal(&vec![good.clone(), bad], 2), Some(PairedError::IdMismatch { ref label, .. }) if label == "b"));
    assert!(matches!(compare_refusal(&vec![good.clone(), one("c", &[], &[])], 2), Some(PairedError::Empty { .. })));
    assert!(matches!(compare_refusal(&vec![good], 1), Some(PairedError::Invalid(_))));
    assert!(matches!(compare_refusal(&vec![], 100), Some(PairedError::Invalid(_))));
}
