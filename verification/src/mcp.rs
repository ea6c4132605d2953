//! The tool server's arguments and answers, and the defaults and bounds it applies to them.
//! Search results are the command line's own types with the ranking diagnostics left out:
//! a snippet only when there is no tldr, and the OR-fallback flag hoisted to one `partial`.

use vstd::prelude::*;
use crate::config::Embeddings;
use crate::search::Matched;

verus! {

/// Arguments of `mda_search`.
#[derive(Debug, Clone, PartialEq, Eq)]
pub struct SearchParams {
    /// The question, as the user would type it into a search box.
    pub query: String,
    /// Number of hits (default 5, at most 50).
    pub k: Option<usize>,
    /// Only sections updated since this time: `7d`, `24h`, `2026-09-01`.
    pub since: Option<String>,
    /// Only sections updated before this time.
    pub until: Option<String>,
    /// Only documents whose path (relative to the root) starts with this prefix.
    pub path_prefix: Option<String>,
    /// Search only the raw section text (skip cards and vectors).
    pub raw: Option<bool>,
}

/// Arguments of `mda_card` and `mda_open`.
#[derive(Debug, Clone, PartialEq, Eq)]
pub struct SectionParams {
    /// A section id from a search hit, like `3f2a…#4`.
    pub section_id: String,
}

/// Arguments of `mda_timeline`.
#[derive(Debug, Clone, PartialEq, Eq)]
pub struct TimelineParams {
    /// Start of the window: `30d`, `2026-09-01` (default: no lower bound).
    pub since: Option<String>,
    /// End of the window (default: now).
    pub until: Option<String>,
    /// Only documents whose path starts with this prefix.
    pub path_prefix: Option<String>,
    /// Maximum entries (default 200).
    pub limit: Option<usize>,
}

/// Arguments of `mda_recent`.
#[derive(Debug, Clone, PartialEq, Eq)]
pub struct RecentParams {
    /// How many documents (default 10).
    pub n: Option<usize>,
}

/// Default number of hits for `mda_search`: five cards are about 400 tokens.
pub const DEFAULT_K: usize = 5;

/// What `mda_search` returns.
#[derive(Debug, Clone, PartialEq, Eq)]
pub struct SearchView {
    /// The query as received.
    pub query: String,
    /// `true` when no section matched every term and the hits are OR matches.
    pub partial: bool,
    /// The hits, best first.
    pub hits: Vec<HitView>,
}

/// One search hit as the tool client sees it.
#[derive(Debug, Clone, PartialEq, Eq)]
pub struct HitView {
    /// `<doc_id>#<index>`, for `mda_open` and `mda_card`.
    pub section_id: String,
    /// Path relative to the root.
    pub rel_path: String,
    /// Headings down to the section.
    pub heading_path: Vec<String>,
    /// First line, 1-based.
    pub line_start: u32,
    /// Last line, 1-based, inclusive.
    pub line_end: u32,
    /// Rough token count of the section.
    pub token_estimate: u32,
    /// The card's one-liner, when the section has a card.
    pub tldr: Option<String>,
    /// The first ~200 characters of the body; only when there is no card.
    pub snippet: Option<String>,
    /// Which index matched.
    pub matched: Matched,
    /// `true` when the section has no card yet.
    pub pending: bool,
    /// When the section content last changed, to the second.
    pub updated_at: String,
}

/// Embedding state for status.
#[derive(Debug, Clone, PartialEq, Eq)]
pub struct EmbeddingStatus {
    /// `local-small` or `off`.
    pub setting: Embeddings,
    /// Model name when on.
    pub model: Option<String>,
    /// The model is on disk (or loaded), so searches use vectors.
    pub ready: bool,
    /// Carded hashes with a vector.
    pub embedded: u64,
    /// Total carded hashes.
    pub carded: u64,
}

/// `n` clamped into `lo..=hi`, `default` when absent.
pub open spec fn bounded_of(n: Option<usize>, default: usize, lo: usize, hi: usize) -> usize {
    let v = match n {
        Some(x) => x,
        None => default,
    };
    if v < lo {
        lo
    } else if v > hi {
        hi
    } else {
        v
    }
}

fn bounded(n: Option<usize>, default: usize, lo: usize, hi: usize) -> (r: usize)
    ensures
        r == bounded_of(n, default, lo, hi),
{
    let v = match n {
        Some(x) => x,
        None => default,
    };
    if v < lo {
        lo
    } else if v > hi {
        hi
    } else {
        v
    }
}

/// The number of hits a search returns: `k`, 5 by default, between 1 and 50.
pub fn search_k(k: Option<usize>) -> (r: usize)
    ensures
        r == bounded_of(k, DEFAULT_K, 1, 50),
        1 <= r <= 50,
{
    bounded(k, DEFAULT_K, 1, 50)
}

/// The number of timeline entries: `limit`, 200 by default, between 1 and 2000.
pub fn timeline_limit(limit: Option<usize>) -> (r: usize)
    ensures
        r == bounded_of(limit, 200, 1, 2000),
        1 <= r <= 2000,
{
    bounded(limit, 200, 1, 2000)
}

/// The number of recent documents: `n`, 10 by default, between 1 and 200.
pub fn recent_n(n: Option<usize>) -> (r: usize)
    ensures
        r == bounded_of(n, 10, 1, 200),
        1 <= r <= 200,
{
    bounded(n, 10, 1, 200)
}

/// The snippet a hit shows: its raw snippet only when it has no tldr.
pub fn hit_snippet(tldr: &Option<String>, snippet: String) -> (r: Option<String>)
    ensures
        r == (if tldr is None {
            Some(snippet)
        } else {
            None
        }),
{
    if tldr.is_none() {
        Some(snippet)
    } else {
        None
    }
}

/// A search is partial when any of its hits came from the OR fallback.
pub fn is_partial(via_or_fallback: &Vec<bool>) -> (b: bool)
    ensures
        b == exists|i: int| 0 <= i < via_or_fallback@.len() && #[trigger] via_or_fallback@[i],
{
    let mut i: usize = 0;
    while i < via_or_fallback.len()
        invariant
            i <= via_or_fallback.len(),
            forall|k: int| 0 <= k < i ==> !#[trigger] via_or_fallback@[k],
        decreases via_or_fallback.len() - i,
    {
        if via_or_fallback[i] {
            return true;
        }
        i = i + 1;
    }
    false
}

/// The embedding status: without an embedder, the setting alone; with one, its model name,
/// whether it is ready, and the store's counts for that model (`counts`: embedded, carded).
pub fn embedding_status(setting: Embeddings, embedder: Option<(String, bool)>, counts: (u64, u64)) -> (s: EmbeddingStatus)
    ensures
        s.setting == setting,
        match embedder {
            None => s.model is None && !s.ready && s.embedded == 0 && s.carded == 0,
            Some(e) => s.model == Some(e.0) && s.ready == e.1 && s.embedded == counts.0 && s.carded
                == counts.1,
        },
{
    match embedder {
        None => EmbeddingStatus { setting, model: None, ready: false, embedded: 0, carded: 0 },
        Some((model, ready)) => EmbeddingStatus {
            setting,
            model: Some(model),
            ready,
            embedded: counts.0,
            carded: counts.1,
        },
    }
}

} // verus!
