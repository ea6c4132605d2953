use mda_core::diff::{Known, Moved, SectionDelta};
use mda_core::markdown::{parse_str, Document};

fn known(doc: &Document) -> Vec<Known> {
    doc.sections.iter().map(|s| Known { hash: s.hash.clone(), index: s.index }).collect()
}

#[test]
fn identical_parse_is_noop() {
    let a = parse_str("# A\n\none\n\n# B\n\ntwo\n");
    let d = SectionDelta::compute(&known(&a), &a);
    assert!(d.is_noop());
    assert_eq!(d.unchanged.len(), 2);
}

#[test]
fn first_index_is_all_added() {
    let a = parse_str("# A\n\none\n\n# B\n\ntwo\n");
    let d = SectionDelta::compute(&vec![], &a);
    assert_eq!(d.added.len(), 2);
    assert!(d.unchanged.is_empty() && d.removed.is_empty());
    assert!(!d.needs_no_summaries());
}

#[test]
fn editing_one_section_adds_one_and_removes_one() {
    let a = parse_str("# A\n\none\n\n# B\n\ntwo\n");
    let b = parse_str("# A\n\none\n\n# B\n\ntwo changed\n");
    let d = SectionDelta::compute(&known(&a), &b);
    assert_eq!(d.added, vec![b.sections[1].hash.clone()]);
    assert_eq!(d.removed, vec![a.sections[1].hash.clone()]);
    assert_eq!(d.unchanged, vec![a.sections[0].hash.clone()]);
}

#[test]
fn inserting_a_section_moves_the_rest() {
    let a = parse_str("# A\n\none\n\n# B\n\ntwo\n");
    let b = parse_str("# A\n\none\n\n# New\n\nnew\n\n# B\n\ntwo\n");
    let d = SectionDelta::compute(&known(&a), &b);
    assert_eq!(d.added, vec![b.sections[1].hash.clone()]);
    assert_eq!(d.moved, vec![Moved { hash: a.sections[1].hash.clone(), from: 1, to: 2 }]);
    assert!(d.removed.is_empty());
    assert!(!d.is_noop());
}

#[test]
fn reordering_only_moves() {
    let a = parse_str("# A\n\none\n\n# B\n\ntwo\n");
    let b = parse_str("# B\n\ntwo\n\n# A\n\none\n");
    let d = SectionDelta::compute(&known(&a), &b);
    assert!(d.added.is_empty() && d.removed.is_empty());
    assert_eq!(d.moved.len(), 2);
    assert!(d.needs_no_summaries());
}

#[test]
fn duplicate_sections_use_multiplicity() {
    let a = parse_str("# X\n\nsame\n\n# X\n\nsame\n");
    let b = parse_str("# X\n\nsame\n");
    let d = SectionDelta::compute(&known(&a), &b);
    assert!(d.added.is_empty());
    assert_eq!(d.unchanged.len(), 1);
    assert_eq!(d.removed.len(), 1, "one copy gone");

    let d2 = SectionDelta::compute(&known(&b), &a);
    assert!(d2.added.is_empty(), "the hash is already known");
    assert_eq!(d2.unchanged.len(), 1);
    assert_eq!(d2.moved.len(), 1, "the extra copy is reported as a move");
    assert!(d2.removed.is_empty());
}

#[test]
fn added_is_deduplicated_within_a_document() {
    let b = parse_str("# X\n\nsame\n\n# X\n\nsame\n");
    let d = SectionDelta::compute(&vec![], &b);
    assert_eq!(d.added.len(), 1);
}

#[test]
fn deleting_everything() {
    let a = parse_str("# A\n\none\n");
    let d = SectionDelta::compute(&known(&a), &parse_str(""));
    assert_eq!(d.removed.len(), 1);
    assert!(d.needs_no_summaries());
}

#[test]
fn removed_is_ordered_by_old_index_then_hash_and_deduplicated() {
    let old = vec![
        Known { hash: "b".into(), index: 2 },
        Known { hash: "a".into(), index: 0 },
        Known { hash: "c".into(), index: 1 },
        Known { hash: "c".into(), index: 1 },
    ];
    let d = SectionDelta::compute(&old, &parse_str(""));
    assert_eq!(d.removed, vec!["a", "c", "b"]);
}

#[test]
fn every_section_is_unchanged_moved_or_new() {
    let a = parse_str("# A\n\none\n\n# B\n\ntwo\n");
    let b = parse_str("# B\n\ntwo\n\n# A\n\none\n\n# C\n\nthree\n\n# A\n\none\n");
    let d = SectionDelta::compute(&known(&a), &b);
    let old: Vec<&String> = a.sections.iter().map(|s| &s.hash).collect();
    let unknown = b.sections.iter().filter(|s| !old.contains(&&s.hash)).count();
    assert_eq!(d.unchanged.len() + d.moved.len() + unknown, b.sections.len());
    assert_eq!(unknown, 1);
}
