use mda_core::watch::{classify, Batch, Debouncer, HintKind, OnDisk};

#[test]
fn releases_after_quiet_period_in_first_hint_order() {
    let quiet = 100;
    let mut d = Debouncer::new(quiet);
    let t0: u64 = 5_000;
    assert_eq!(d.next_deadline(), None);
    d.push("/x/b.md".to_owned(), t0, None);
    d.push("/x/a.md".to_owned(), t0 + 10, None);
    d.push("/x/b.md".to_owned(), t0 + 50, None);
    assert_eq!(d.held(), 2);
    assert_eq!(d.next_deadline(), Some(t0 + 110));

    let early = d.due_with(t0 + 90, |_: &str| None);
    assert!(early.is_empty());
    let mid = d.due_with(t0 + 120, |_: &str| None);
    assert_eq!(mid.paths, vec!["/x/a.md"]);
    let late = d.due_with(t0 + 160, |_: &str| None);
    assert_eq!(late.paths, vec!["/x/b.md"]);
    assert_eq!(d.held(), 0);
}

#[test]
fn a_growing_file_is_held_until_its_size_settles() {
    let quiet = 100;
    let mut d = Debouncer::new(quiet);
    let t0: u64 = 5_000;
    d.push("/x/big.md".to_owned(), t0, None);
    let b1 = d.due_with(t0 + 150, |_: &str| Some(10));
    assert!(b1.paths.is_empty());
    assert_eq!(d.next_deadline(), Some(t0 + 250));
    let b2 = d.due_with(t0 + 260, |_: &str| Some(20));
    assert!(b2.paths.is_empty(), "size moved again");
    let b3 = d.due_with(t0 + 400, |_: &str| Some(20));
    assert_eq!(b3.paths, vec!["/x/big.md"]);
}

#[test]
fn rescan_is_debounced_too() {
    let quiet = 100;
    let mut d = Debouncer::new(quiet);
    let t0: u64 = 5_000;
    d.push_rescan(t0);
    d.push_rescan(t0 + 50);
    assert_eq!(d.next_deadline(), Some(t0 + 150));
    assert!(!d.due_with(t0 + 120, |_: &str| None).rescan);
    let b = d.due_with(t0 + 160, |_: &str| None);
    assert!(b.rescan);
    assert!(!d.due_with(t0 + 300, |_: &str| None).rescan, "consumed");
}

#[test]
fn same_first_hint_releases_by_path() {
    let mut d = Debouncer::new(10);
    d.push("/x/c.md".to_owned(), 1, Some(1));
    d.push("/x/a.md".to_owned(), 1, Some(1));
    d.push("/x/b.md".to_owned(), 0, Some(1));
    let b = d.due_with(100, |_: &str| Some(1));
    assert_eq!(b.paths, vec!["/x/b.md", "/x/a.md", "/x/c.md"]);
    assert!(Batch::default().is_empty());
}

#[test]
fn classifies_paths() {
    // Nothing under `/r` exists on disk.
    let gone = OnDisk::Missing;
    assert_eq!(classify("/r", "/r/a.md", false, gone), HintKind::Markdown);
    assert_eq!(classify("/r", "/r/deep/x/b.markdown", false, gone), HintKind::Markdown);
    assert_eq!(classify("/r", "/r/.markdownattractor/index.sqlite", false, gone), HintKind::Ignore);
    assert_eq!(classify("/r", "/r/.markdownattractor/n.md", false, gone), HintKind::Ignore);
    assert_eq!(classify("/r", "/r/.git/HEAD", false, gone), HintKind::Ignore);
    assert_eq!(classify("/r", "/r/.gitignore", false, gone), HintKind::Rescan);
    assert_eq!(classify("/r", "/r/sub/.markdownattractorignore", false, gone), HintKind::Rescan);
    assert_eq!(classify("/r", "/r/a.md", true, gone), HintKind::Rescan);
    assert_eq!(classify("/r", "/r/gone-dir", false, gone), HintKind::Rescan);
    assert_eq!(classify("/r", "/r/notes.txt", false, gone), HintKind::Ignore);
    // A directory that exists.
    assert_eq!(classify("/tmp", "/tmp/some-dir", false, OnDisk::Dir), HintKind::Rescan);
}

#[test]
fn classify_judges_components_below_the_root_only() {
    // A root that itself sits under `.git` still sees its markdown.
    assert_eq!(classify("/x/.git/r", "/x/.git/r/a.md", false, OnDisk::Other), HintKind::Markdown);
    // Outside the root, the whole path is judged.
    assert_eq!(classify("/r", "/elsewhere/.git/a.md", false, OnDisk::Other), HintKind::Ignore);
    assert_eq!(classify("/r", "/r/file.bin", false, OnDisk::Other), HintKind::Ignore);
    assert_eq!(classify("/r", "/r/.ignore", false, OnDisk::Other), HintKind::Rescan);
}
