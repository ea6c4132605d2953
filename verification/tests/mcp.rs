use mda_core::config::Embeddings;
use mda_core::mcp::{embedding_status, hit_snippet, is_partial, recent_n, search_k, timeline_limit, DEFAULT_K};

#[test]
fn tool_arguments_get_defaults_and_bounds() {
    assert_eq!(search_k(None), DEFAULT_K);
    assert_eq!(search_k(Some(0)), 1);
    assert_eq!(search_k(Some(500)), 50);
    assert_eq!(search_k(Some(7)), 7);
    assert_eq!(timeline_limit(None), 200);
    assert_eq!(timeline_limit(Some(99_999)), 2000);
    assert_eq!(recent_n(None), 10);
    assert_eq!(recent_n(Some(0)), 1);
}

#[test]
fn hits_show_a_snippet_only_without_a_tldr() {
    assert_eq!(hit_snippet(&None, "body".to_owned()), Some("body".to_owned()));
    assert_eq!(hit_snippet(&Some("t".to_owned()), "body".to_owned()), None);
    assert!(is_partial(&vec![false, true]));
    assert!(!is_partial(&vec![false, false]));
    assert!(!is_partial(&Vec::new()));
}

#[test]
fn embedding_status_reports_the_model_only_when_there_is_one() {
    let off = embedding_status(Embeddings::Off, None, (3, 4));
    assert_eq!((off.model, off.ready, off.embedded, off.carded), (None, false, 0, 0));
    let on = embedding_status(Embeddings::LocalSmall, Some(("bge".to_owned(), true)), (3, 4));
    assert_eq!(on.setting, Embeddings::LocalSmall);
    assert_eq!((on.model, on.ready, on.embedded, on.carded), (Some("bge".to_owned()), true, 3, 4));
}
