use mda_core::card::{Entities, SectionSummary};
use mda_core::config::{effective_worker_timeout_secs, pool_bounds, Backend, Embeddings};
use mda_core::embed::{check, embed_text, LOCAL_SMALL_MODEL};
use mda_core::eval::{normalize_arm_path, normalize_heading, pages_of, Split, SplitMix64};
use mda_core::hot::HotSet;
use mda_core::walk::is_markdown;

#[test]
fn most_recent_first_and_expiry() {
    // Milliseconds on one monotonic clock.
    let mut h = HotSet::new(10_000);
    let t0: u64 = 1_000_000;
    h.touch("a.md", t0);
    h.touch("b.md", t0 + 1_000);
    h.touch("a.md", t0 + 2_000);
    assert_eq!(h.snapshot(t0 + 3_000), vec!["a.md", "b.md"]);
    assert_eq!(h.snapshot(t0 + 11_000 + 1), vec!["a.md"]);
    assert_eq!(h.len(), 1);
    assert!(h.snapshot(t0 + 20_000).is_empty());
    assert!(h.is_empty());
}

#[test]
fn hot_ties_are_broken_by_path() {
    let mut h = HotSet::new(100);
    h.touch("b.md", 5);
    h.touch("a.md", 5);
    h.touch("c.md", 7);
    assert_eq!(h.snapshot(5), vec!["c.md", "a.md", "b.md"]);
}

#[test]
fn split_parse() {
    assert_eq!(Split::parse("dev"), Some(Split::Dev));
    assert_eq!(Split::parse("nope"), None);
    assert_eq!(Split::parse("test"), Some(Split::Test));
    assert_eq!(Split::parse("holdout"), Some(Split::Holdout));
}

#[test]
fn pages_keep_first_occurrence_order() {
    let paths: Vec<String> =
        ["a.md", "b.md", "a.md", "c.md", "d.md", "e.md", "f.md"].iter().map(|s| s.to_string()).collect();
    assert_eq!(pages_of(&paths), vec!["a.md", "b.md", "c.md", "d.md", "e.md", "f.md"]);
}

#[test]
fn below_is_uniform_enough_and_in_range() {
    let mut rng = SplitMix64(42);
    let mut counts = [0usize; 3];
    for _ in 0..30_000 {
        counts[rng.below(3)] += 1;
    }
    for c in counts {
        assert!((9_000..11_000).contains(&c), "{counts:?}");
    }
}

#[test]
fn splitmix_first_draw_matches_the_reference_stream() {
    // The reference SplitMix64 stream from seed 0 starts with 0xE220A8397B1DCDAF.
    let mut rng = SplitMix64(0);
    assert_eq!(rng.next_u64(), 0xE220_A839_7B1D_CDAF);
    assert_eq!(rng.0, 0x9E37_79B9_7F4A_7C15);
}

#[test]
fn arm_paths_fold_to_the_store_form() {
    assert_eq!(normalize_arm_path("./docs/a.md"), "docs/a.md");
    assert_eq!(normalize_arm_path("/docs//a.md"), "docs/a.md");
    assert_eq!(normalize_arm_path(".//./docs/./a.md "), "docs/a.md");
    assert_eq!(normalize_arm_path("docs\\win\\a.mdx"), "docs/win/a.mdx");
    assert_eq!(normalize_arm_path("docs/a.md"), "docs/a.md");
    assert_eq!(normalize_arm_path(""), "");
}

#[test]
fn headings_normalise_like_the_dataset_renders_them() {
    assert_eq!(
        normalize_heading("Using the `GITHUB_TOKEN` in a workflow"),
        "using the github_token in a workflow"
    );
    assert_eq!(
        normalize_heading(
            "Connecting a repository on {% data variables.product.prodname_dotcom %}  today"
        ),
        "connecting a repository on today"
    );
    assert_eq!(normalize_heading("`PrismaClient`"), "prismaclient");
    assert_eq!(normalize_heading("open {% tag"), "open");
    assert_eq!(normalize_heading("   "), "");
}

fn summary() -> SectionSummary {
    SectionSummary {
        tldr: "Roll back with deployctl.".into(),
        summary: "The rollback runs deployctl against the previous release.".into(),
        keywords: vec!["rollback".into(), "deployctl".into()],
        questions_answered: vec!["How do I roll back?".into()],
        entities: Entities::default(),
        mentioned_dates: vec![],
        decisions: vec![],
        action_items: vec![],
    }
}

#[test]
fn embed_text_joins_the_card_fields_in_order() {
    let t = embed_text(Some("Runbook"), &vec!["Deploy".into(), "Rollback".into()], &summary());
    let lines: Vec<&str> = t.lines().collect();
    assert_eq!(lines[0], "Runbook");
    assert_eq!(lines[1], "Deploy › Rollback");
    assert_eq!(lines[2], "Roll back with deployctl.");
    assert!(lines[4].contains("rollback, deployctl"));
    assert!(lines[5].contains("How do I roll back?"));
    let no_title = embed_text(None, &vec![], &summary());
    assert!(no_title.starts_with("Roll back"));
}

#[test]
fn embed_text_drops_blank_title_and_empty_parts() {
    let mut s = summary();
    s.keywords.clear();
    s.questions_answered.clear();
    let t = embed_text(Some("   "), &vec![], &s);
    assert_eq!(t, "Roll back with deployctl.\nThe rollback runs deployctl against the previous release.");
}

#[test]
fn is_markdown_accepts_md_and_markdown_any_case() {
    assert!(is_markdown("a.md"));
    assert!(is_markdown("a.MD"));
    assert!(is_markdown("dir/b.markdown"));
    assert!(!is_markdown("a.mdx"));
    assert!(!is_markdown("a.txt"));
    assert!(!is_markdown("md"));
    assert!(!is_markdown("README"));
}

#[test]
fn local_backend_bounds_and_timeout() {
    assert_eq!(pool_bounds(Backend::Local, None), (2, 4));
    assert_eq!(effective_worker_timeout_secs(Backend::Local, 90), 300);
    assert_eq!(pool_bounds(Backend::Local, Some(16)), (4, 4));
    assert_eq!(pool_bounds(Backend::Local, Some(1)), (1, 1));
    assert_eq!(pool_bounds(Backend::Api, None), (4, 16));
    assert_eq!(effective_worker_timeout_secs(Backend::Api, 90), 90);
    assert_eq!(pool_bounds(Backend::Cli, Some(3)), (3, 3));
}

#[test]
fn backend_and_embedding_names() {
    assert_eq!(Backend::Api.as_str(), "api");
    assert_eq!(Backend::Local.as_str(), "local");
    assert_eq!(Backend::Cli.as_str(), "cli");
    assert_eq!(Embeddings::LocalSmall.as_str(), "local-small");
    assert_eq!(Embeddings::Off.as_str(), "off");
}

#[test]
fn split_on_matches_str_split() {
    use_split("a/b/c");
    use_split("");
    use_split("/a//b/");
    use_split("abc");
}

fn use_split(s: &str) {
    let want: Vec<String> = s.split('/').map(str::to_owned).collect();
    assert_eq!(mda_core::text::split_on(s, '/'), want);
}

#[test]
fn hash_embedder_slots_follow_blake3_of_each_lowercase_word() {
    let e = mda_core::embed::HashEmbedder::new(8);
    assert_eq!(e.dim(), 8);
    assert_eq!(e.model(), "hash-test");
    assert!(e.ready());
    assert_eq!(mda_core::embed::HashEmbedder::new(0).dim(), 1);
    let slots = e.slots("Hello, world -- HELLO!");
    let expect = |w: &str| {
        let h = blake3::hash(w.as_bytes());
        ((h.as_bytes()[0] as usize) % 8, h.as_bytes()[1] % 2 == 0)
    };
    assert_eq!(slots, vec![expect("hello"), expect("world"), expect("hello")]);
    assert!(e.slots("  ,; ").is_empty());
}

#[test]
fn check_reports_off_and_uncached() {
    let off = check(Embeddings::Off, "/cache".to_owned(), true);
    assert_eq!(off.model, None);
    assert!(!off.cached);
    // An empty cache directory holds no model files.
    let on = check(Embeddings::LocalSmall, "/tmp/empty-cache".to_owned(), false);
    assert_eq!(on.model.as_deref(), Some(LOCAL_SMALL_MODEL));
    assert!(!on.cached);
    assert_eq!(on.cache_dir, "/tmp/empty-cache");
}
