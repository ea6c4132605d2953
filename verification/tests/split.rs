use std::collections::HashMap;

use mda_core::eval::Split;
use mda_core::split::split_ids;

fn as_map(v: Vec<(String, Split)>) -> HashMap<String, Split> {
    v.into_iter().collect()
}

#[test]
fn split_is_deterministic_stratified_and_order_independent() {
    let ids: Vec<String> = (0..100).map(|i| format!("q{i}")).collect();
    let a = as_map(split_ids(20_260_922, &ids));
    let mut shuffled = ids.clone();
    shuffled.reverse();
    let b = as_map(split_ids(20_260_922, &shuffled));
    assert_eq!(a, b);
    let count = |s: Split| a.values().filter(|v| **v == s).count();
    assert_eq!((count(Split::Dev), count(Split::Test), count(Split::Holdout)), (30, 55, 15));
    assert_ne!(a, as_map(split_ids(1, &ids)), "another seed is another split");
    assert!(split_ids(7, &Vec::new()).is_empty());
    assert_eq!(
        as_map(split_ids(7, &vec!["only".to_owned()])).values().next(),
        Some(&Split::Holdout)
    );
}

#[test]
fn split_lists_every_id_once_in_key_order_with_positional_splits() {
    let ids: Vec<String> = (0..10).map(|i| format!("id-{i}")).collect();
    let r = split_ids(42, &ids);
    assert_eq!(r.len(), 10);
    let mut seen: Vec<String> = r.iter().map(|(id, _)| id.clone()).collect();
    seen.sort();
    let mut want = ids.clone();
    want.sort();
    assert_eq!(seen, want);
    // 10 ids: 3 Dev, then 5 Test, then 2 Holdout, by position.
    let splits: Vec<Split> = r.iter().map(|(_, s)| *s).collect();
    assert_eq!(
        splits,
        vec![
            Split::Dev,
            Split::Dev,
            Split::Dev,
            Split::Test,
            Split::Test,
            Split::Test,
            Split::Test,
            Split::Test,
            Split::Holdout,
            Split::Holdout
        ]
    );
}

#[test]
fn split_keeps_a_repeated_id_twice() {
    let ids = vec!["x".to_owned(), "x".to_owned(), "y".to_owned()];
    let r = split_ids(3, &ids);
    assert_eq!(r.iter().filter(|(id, _)| id == "x").count(), 2);
    let again = split_ids(3, &vec!["y".to_owned(), "x".to_owned(), "x".to_owned()]);
    assert_eq!(r, again);
}

#[test]
fn split_sizes_follow_from_the_number_of_ids() {
    let ids: Vec<String> = (0..100).map(|i| format!("q{i}")).collect();
    let r = split_ids(7, &ids);
    let count = |s: Split| r.iter().filter(|(_, x)| *x == s).count();
    assert_eq!((count(Split::Dev), count(Split::Test), count(Split::Holdout)), (30, 55, 15));
    assert_eq!(split_ids(7, &vec!["only".to_owned()])[0].1, Split::Holdout);
}
