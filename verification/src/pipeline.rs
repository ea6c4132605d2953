//! The decisions the engine makes between parsing and the store: which pending sections a
//! summarization round takes, which sections get a card without a model call, which
//! section an id now points at, and the reports the engine hands back.

use vstd::prelude::*;
use crate::card::{Entities, SectionSummary};
use crate::markdown::{blank, str_lines_of, Section};
use crate::store::{PendingSection, UpsertOutcome};
use crate::text::{
    has_prefix, join, join_of, lowercase_of, push_str, same_text, split_words, texts, to_lower,
    trim_start, words_of,
};

verus! {

/// What indexing one file did.
#[derive(Debug, Clone, PartialEq, Eq)]
pub struct IndexOutcome {
    /// Path relative to the root, forward slashes.
    pub rel_path: String,
    /// Store-level result.
    pub upsert: UpsertOutcome,
    /// Sections in the parsed document.
    pub sections: usize,
}

/// What indexing the whole root did.
#[derive(Debug, Clone, Default, PartialEq, Eq)]
pub struct IndexReport {
    /// Files seen by the walker.
    pub files: usize,
    /// Files whose content changed (or that were new).
    pub changed: usize,
    /// Section hashes that now need a card.
    pub pending: usize,
    /// Documents that disappeared and were tombstoned.
    pub tombstoned: usize,
    /// Files that could not be read or parsed, with the reason.
    pub errors: Vec<(String, String)>,
}

/// Progress event emitted while summarizing.
#[derive(Debug, Clone, PartialEq, Eq)]
pub struct Progress {
    /// Jobs finished so far (ok + failed).
    pub done: usize,
    /// Jobs in this run.
    pub total: usize,
    /// Cards attached.
    pub ok: usize,
    /// Jobs that ended in failure.
    pub failed: usize,
    /// The section that just finished, for display.
    pub last: Option<String>,
}

/// Knobs for one summarization run.
#[derive(Debug, Clone, Default, PartialEq, Eq)]
pub struct SummarizeOptions {
    /// Summarize at most this many sections this run. `None` = all pending.
    pub limit: Option<usize>,
    /// Relative paths whose sections go first, in this order (most urgent first).
    pub hot_paths: Vec<String>,
    /// Start the pool at this concurrency instead of the configured initial value.
    pub initial_concurrency: Option<u16>,
}

/// What syncing one path the watcher reported did.
#[derive(Debug, Clone, PartialEq, Eq)]
pub enum SyncOutcome {
    /// The file exists and was (re)indexed.
    Indexed(IndexOutcome),
    /// The file is gone and its document was tombstoned.
    Tombstoned {
        /// Path relative to the root.
        rel_path: String,
        /// Content hash the document had, for rename detection.
        content_hash: String,
    },
    /// Nothing to do: not markdown, not inside the root, ignored, or never indexed.
    Ignored {
        /// Why.
        reason: String,
    },
}

/// Average tokens one section costs end to end (input + output), used to turn a token
/// budget into a section count before the run.
pub const TOKENS_PER_SECTION_ESTIMATE: u64 = 3500;

/// Result of a summarization run.
#[derive(Debug, Clone, PartialEq, Eq)]
pub struct SummarizeReport {
    /// Jobs submitted to the model.
    pub submitted: usize,
    /// Heading-only sections carded deterministically, without a model call.
    pub deterministic: usize,
    /// Pending sections left for a later run because of `limit` or the daily budget.
    pub deferred: usize,
    /// `true` when the daily token budget stopped this run from submitting everything.
    pub budget_exhausted: bool,
    /// Cards attached.
    pub ok: usize,
    /// Jobs that ended in failure.
    pub failed: usize,
    /// Cards that passed validation with nothing dropped or trimmed.
    pub clean: usize,
    /// Total dates dropped by grounding across all cards.
    pub dropped_dates: usize,
    /// Total entities dropped by grounding across all cards.
    pub dropped_entities: usize,
}

/// What one embedding pass did.
#[derive(Debug, Clone, Default, PartialEq, Eq)]
pub struct EmbedReport {
    /// Model the vectors were made with.
    pub model: String,
    /// Cards embedded in this pass.
    pub embedded: usize,
    /// Carded hashes still without a vector after the pass.
    pub remaining: u64,
    /// Wall-clock milliseconds.
    pub ms: u128,
}

/// A document whose index is not final.
#[derive(Debug, Clone, PartialEq, Eq)]
pub struct StaleDoc {
    /// Path relative to the root.
    pub rel_path: String,
    /// Sections waiting for a card.
    pub pending: u64,
    /// Sections whose last attempt failed.
    pub failed: u64,
    /// The file changed after it was indexed.
    pub changed_on_disk: bool,
    /// The file is gone but the document is still live.
    pub missing: bool,
}

/// Exact source lines of a section, re-checked against the file at read time.
#[derive(Debug, Clone, PartialEq, Eq)]
pub struct Opened {
    /// The id that was asked for.
    pub requested_id: String,
    /// The section's current id.
    pub section_id: String,
    /// Path relative to the root.
    pub rel_path: String,
    /// Headings down to the section.
    pub heading_path: Vec<String>,
    /// First line returned, 1-based.
    pub line_start: u32,
    /// Last line returned, 1-based, inclusive.
    pub line_end: u32,
    /// The lines, joined with `\n`, exactly as on disk.
    pub text: String,
    /// `true` when the file changed after it was indexed.
    pub stale: bool,
}

// ---------------------------------------------------------------- one round

/// The tier of a pending section: the position of the first hot path equal to its document,
/// or after every hot path.
pub open spec fn tier_of(hot: Seq<Seq<char>>, rel_path: Seq<char>) -> nat
    decreases hot.len(),
{
    if hot.len() == 0 {
        0
    } else if hot[0] == rel_path {
        0
    } else {
        1 + tier_of(hot.drop_first(), rel_path)
    }
}

/// The pending sections whose tier is `t`, in their order.
pub open spec fn in_tier(pending: Seq<PendingSection>, hot: Seq<Seq<char>>, t: nat) -> Seq<PendingSection>
    decreases pending.len(),
{
    if pending.len() == 0 {
        pending
    } else if tier_of(hot, pending.last().rel_path@) == t {
        in_tier(pending.drop_last(), hot, t).push(pending.last())
    } else {
        in_tier(pending.drop_last(), hot, t)
    }
}

/// Tiers `0..t`, each in order, one after another.
pub open spec fn tiers_upto(pending: Seq<PendingSection>, hot: Seq<Seq<char>>, t: nat) -> Seq<PendingSection>
    decreases t,
{
    if t == 0 {
        Seq::empty()
    } else {
        tiers_upto(pending, hot, (t - 1) as nat) + in_tier(pending, hot, (t - 1) as nat)
    }
}

/// The pending sections with hot documents first, most urgent first, every tier keeping
/// the order it was given (smallest first, as the store hands them out).
pub open spec fn hot_first(pending: Seq<PendingSection>, hot: Seq<Seq<char>>) -> Seq<PendingSection> {
    tiers_upto(pending, hot, hot.len() + 1)
}

/// How many sections a daily budget still pays for.
pub open spec fn affordable(budget: u64, spent_today: u64) -> nat {
    (if spent_today >= budget { 0 } else { budget - spent_today }) as nat / (TOKENS_PER_SECTION_ESTIMATE as nat)
}

/// The view of a pending section: hash, id, path, heading path, text, token estimate.
pub open spec fn pview(p: PendingSection) -> (Seq<char>, Seq<char>, Seq<char>, Seq<Seq<char>>, Seq<char>, u32) {
    (p.section_hash@, p.section_id@, p.rel_path@, texts(p.heading_path@), p.text@, p.token_estimate)
}

/// The views of a list of pending sections.
pub open spec fn pviews(s: Seq<PendingSection>) -> Seq<(Seq<char>, Seq<char>, Seq<char>, Seq<Seq<char>>, Seq<char>, u32)> {
    s.map_values(|p: PendingSection| pview(p))
}

fn copy_strings(v: &Vec<String>) -> (r: Vec<String>)
    ensures
        texts(r@) == texts(v@),
{
    let mut r: Vec<String> = Vec::new();
    let mut i: usize = 0;
    while i < v.len()
        invariant
            0 <= i <= v.len(),
            r.len() == i,
            forall|j: int| 0 <= j < i ==> (#[trigger] r@[j])@ == v@[j]@,
        decreases v.len() - i,
    {
        r.push(v[i].clone());
        i = i + 1;
    }
    assert(texts(r@) =~= texts(v@));
    r
}

fn copy_pending(p: &PendingSection) -> (r: PendingSection)
    ensures
        pview(r) == pview(*p),
{
    PendingSection {
        section_hash: p.section_hash.clone(),
        section_id: p.section_id.clone(),
        rel_path: p.rel_path.clone(),
        heading_path: copy_strings(&p.heading_path),
        text: p.text.clone(),
        token_estimate: p.token_estimate,
    }
}

/// What one summarization run will submit, and what it leaves for later.
pub struct Round {
    /// The sections to submit, in order.
    pub pending: Vec<PendingSection>,
    /// Sections left for a later run.
    pub deferred: usize,
    /// The daily budget, not the explicit limit, is what cut the run.
    pub budget_exhausted: bool,
}

fn tier(hot: &Vec<String>, rel_path: &String) -> (t: usize)
    ensures
        t == tier_of(texts(hot@), rel_path@),
        t <= hot.len(),
{
    let ghost h = texts(hot@);
    let mut i: usize = 0;
    assert(h.skip(0) =~= h);
    while i < hot.len() && !same_text(hot[i].as_str(), rel_path.as_str())
        invariant
            0 <= i <= hot.len(),
            h == texts(hot@),
            tier_of(h, rel_path@) == i + tier_of(h.skip(i as int), rel_path@),
        decreases hot.len() - i,
    {
        assert(h.skip(i as int).drop_first() =~= h.skip(i + 1));
        i = i + 1;
    }
    if i < hot.len() {
        assert(h.skip(i as int)[0] == h[i as int]);
    }
    i
}

proof fn lemma_tiers_cover(pending: Seq<PendingSection>, hot: Seq<Seq<char>>, t: nat)
    ensures
        tiers_upto(pending, hot, t).len() <= pending.len(),
    decreases t,
{
    if t > 0 {
        lemma_tiers_cover(pending, hot, (t - 1) as nat);
        lemma_tier_partition(pending, hot, t);
    }
}

proof fn lemma_tier_partition(pending: Seq<PendingSection>, hot: Seq<Seq<char>>, t: nat)
    ensures
        tiers_upto(pending, hot, t).len() == count_below(pending, hot, t),
        count_below(pending, hot, t) <= pending.len(),
    decreases t,
{
    if t > 0 {
        lemma_tier_partition(pending, hot, (t - 1) as nat);
        lemma_in_tier_len(pending, hot, (t - 1) as nat);
        lemma_count_below_step(pending, hot, (t - 1) as nat);
    } else {
        lemma_count_below_zero(pending, hot);
    }
}

/// Number of pending sections whose tier is below `t`.
pub open spec fn count_below(pending: Seq<PendingSection>, hot: Seq<Seq<char>>, t: nat) -> nat
    decreases pending.len(),
{
    if pending.len() == 0 {
        0
    } else {
        count_below(pending.drop_last(), hot, t) + if tier_of(hot, pending.last().rel_path@) < t { 1nat } else { 0nat }
    }
}

proof fn lemma_count_below_zero(pending: Seq<PendingSection>, hot: Seq<Seq<char>>)
    ensures
        count_below(pending, hot, 0) == 0,
    decreases pending.len(),
{
    if pending.len() > 0 {
        lemma_count_below_zero(pending.drop_last(), hot);
    }
}

proof fn lemma_in_tier_len(pending: Seq<PendingSection>, hot: Seq<Seq<char>>, t: nat)
    ensures
        in_tier(pending, hot, t).len() + count_below(pending, hot, t) == count_below(pending, hot, t + 1),
        count_below(pending, hot, t + 1) <= pending.len(),
    decreases pending.len(),
{
    if pending.len() > 0 {
        lemma_in_tier_len(pending.drop_last(), hot, t);
    }
}

proof fn lemma_count_below_step(pending: Seq<PendingSection>, hot: Seq<Seq<char>>, t: nat)
    ensures
        count_below(pending, hot, t) <= count_below(pending, hot, t + 1),
    decreases pending.len(),
{
    if pending.len() > 0 {
        lemma_count_below_step(pending.drop_last(), hot, t);
    }
}

/// Order the pending sections (hot documents first, then as given) and cut the list to
/// what this run may submit: the explicit limit, then what the daily token budget still
/// pays for once `spent_today` tokens are spent.
pub fn select_round(pending: Vec<PendingSection>, opts: &SummarizeOptions, daily_budget: Option<u64>, spent_today: u64) -> (r: Round)
    ensures
        ({
            let ordered = hot_first(pending@, texts(opts.hot_paths@));
            let limit = match opts.limit { Some(l) => l as nat, None => usize::MAX as nat };
            let afford = match daily_budget {
                Some(b) => if affordable(b, spent_today) > usize::MAX { usize::MAX as nat } else { affordable(b, spent_today) },
                None => usize::MAX as nat,
            };
            let cap = if afford < limit { afford } else { limit };
            &&& pviews(r.pending@) == pviews(if ordered.len() > cap { ordered.take(cap as int) } else { ordered })
            &&& r.deferred == if pending.len() > cap { pending.len() - cap } else { 0 }
            &&& r.budget_exhausted == (daily_budget is Some && afford < (if pending.len() < limit { pending.len() as nat } else { limit }))
        }),
{
    let ghost hot = texts(opts.hot_paths@);
    let limit: usize = match opts.limit {
        Some(l) => l,
        None => usize::MAX,
    };
    let mut cap = limit;
    let mut budget_exhausted = false;
    match daily_budget {
        Some(budget) => {
            let remaining = if spent_today >= budget { 0 } else { budget - spent_today };
            let per = remaining / TOKENS_PER_SECTION_ESTIMATE;
            let afford: usize = if per > usize::MAX as u64 { usize::MAX } else { per as usize };
            let n = if pending.len() < cap { pending.len() } else { cap };
            if afford < n {
                budget_exhausted = true;
            }
            if afford < cap {
                cap = afford;
            }
        },
        None => {},
    }
    // stable grouping by tier
    let mut tiers: Vec<usize> = Vec::new();
    let mut k: usize = 0;
    while k < pending.len()
        invariant
            0 <= k <= pending.len(),
            tiers.len() == k,
            hot == texts(opts.hot_paths@),
            forall|j: int| 0 <= j < k ==> tiers@[j] == tier_of(hot, #[trigger] pending@[j].rel_path@),
            forall|j: int| 0 <= j < k ==> tiers@[j] <= opts.hot_paths.len(),
        decreases pending.len() - k,
    {
        tiers.push(tier(&opts.hot_paths, &pending[k].rel_path));
        k = k + 1;
    }
    let mut ordered: Vec<PendingSection> = Vec::new();
    let mut t: u128 = 0;
    assert(pviews(ordered@) =~= pviews(tiers_upto(pending@, hot, 0)));
    while t <= opts.hot_paths.len() as u128
        invariant
            0 <= t <= opts.hot_paths.len() + 1,
            hot == texts(opts.hot_paths@),
            tiers.len() == pending.len(),
            forall|j: int| 0 <= j < pending.len() ==> tiers@[j] == tier_of(hot, #[trigger] pending@[j].rel_path@),
            pviews(ordered@) == pviews(tiers_upto(pending@, hot, t as nat)),
        decreases opts.hot_paths.len() + 1 - t,
    {
        let ghost before = pviews(ordered@);
        let mut j: usize = 0;
        assert(in_tier(pending@.take(0), hot, t as nat) =~= Seq::<PendingSection>::empty());
        assert(pviews(ordered@) =~= before + pviews(in_tier(pending@.take(0), hot, t as nat)));
        while j < pending.len()
            invariant
                0 <= j <= pending.len(),
                tiers.len() == pending.len(),
                forall|a: int| 0 <= a < pending.len() ==> tiers@[a] == tier_of(hot, #[trigger] pending@[a].rel_path@),
                pviews(ordered@) == before + pviews(in_tier(pending@.take(j as int), hot, t as nat)),
            decreases pending.len() - j,
        {
            proof {
                assert(pending@.take(j + 1).drop_last() =~= pending@.take(j as int));
                assert(pending@.take(j + 1).last() == pending@[j as int]);
            }
            if tiers[j] as u128 == t {
                let ghost o0 = pviews(ordered@);
                ordered.push(copy_pending(&pending[j]));
                assert(pviews(ordered@) =~= o0.push(pview(pending@[j as int])));
                assert(pviews(in_tier(pending@.take(j + 1), hot, t as nat)) =~= pviews(in_tier(pending@.take(j as int), hot, t as nat)).push(pview(pending@[j as int])));
                assert(pviews(ordered@) =~= before + pviews(in_tier(pending@.take(j + 1), hot, t as nat)));
            }
            j = j + 1;
        }
        assert(pending@.take(pending.len() as int) =~= pending@);
        assert(pviews(tiers_upto(pending@, hot, (t + 1) as nat)) =~= pviews(tiers_upto(pending@, hot, t as nat)) + pviews(in_tier(pending@, hot, t as nat)));
        t = t + 1;
    }
    proof {
        lemma_tiers_cover(pending@, hot, (opts.hot_paths.len() + 1) as nat);
    }
    let deferred = if pending.len() > cap { pending.len() - cap } else { 0 };
    let ghost full = pviews(ordered@);
    if ordered.len() > cap {
        ordered.truncate(cap);
        assert(pviews(ordered@) =~= full.take(cap as int));
    }
    Round { pending: ordered, deferred, budget_exhausted }
}

// ---------------------------------------------------------------- deterministic cards

/// A heading with no body: the first line starts (after its indent) with `#`, every other
/// line is blank.
pub open spec fn is_heading_only_of(text: Seq<char>) -> bool {
    let lines = str_lines_of(text);
    &&& lines.len() > 0
    &&& has_prefix(trim_start(lines[0]), "#"@)
    &&& forall|i: int| 1 <= i < lines.len() ==> blank(#[trigger] lines[i])
}

/// `true` when the section is a heading with no body (only blank lines after it).
pub fn is_heading_only(text: &str) -> (b: bool)
    ensures
        b == is_heading_only_of(text@),
{
    proof {
        reveal_strlit("#");
    }
    let lines = crate::planner::str_lines(text);
    let ghost ls = texts(lines@);
    if lines.len() == 0 {
        return false;
    }
    let v = crate::text::chars_of(lines[0].as_str());
    let b = crate::text::trim_start_index(&v, 0, v.len());
    assert(ls[0] == lines@[0]@);
    assert(v@.subrange(0, v.len() as int) =~= ls[0]);
    if !crate::text::starts_with_at(&v, b, v.len(), "#") {
        return false;
    }
    let mut i: usize = 1;
    while i < lines.len()
        invariant
            1 <= i <= lines.len(),
            ls == texts(lines@),
            ls == str_lines_of(text@),
            has_prefix(trim_start(ls[0]), "#"@),
            forall|j: int| 1 <= j < i ==> blank(#[trigger] ls[j]),
        decreases lines.len() - i,
    {
        assert(ls[i as int] == lines@[i as int]@);
        let t = crate::text::trimmed(lines[i].as_str());
        if !crate::text::is_empty_text(t.as_str()) {
            assert(!blank(ls[i as int]));
            return false;
        }
        i = i + 1;
    }
    true
}

/// The heading a synthetic card names: the last heading of the path, or `(untitled)`.
pub open spec fn last_heading(path: Seq<Seq<char>>) -> Seq<char> {
    if path.len() > 0 { path.last() } else { "(untitled)"@ }
}

/// The first eight words of `h`, lower-cased.
pub open spec fn heading_keywords(h: Seq<char>) -> Seq<Seq<char>> {
    let ws = words_of(h).map_values(|w: Seq<char>| lowercase_of(w));
    if ws.len() > 8 { ws.take(8) } else { ws }
}

/// A card for a heading-only section: the heading is the summary.
pub fn synthetic_summary(p: &PendingSection) -> (s: SectionSummary)
    ensures
        s.tldr@ == "Heading only: "@ + last_heading(texts(p.heading_path@)) + "."@,
        s.summary@ == "The section \""@ + join_of(texts(p.heading_path@), " › "@)
            + "\" contains only its heading; its content lives in the subsections below it."@,
        texts(s.keywords@) == heading_keywords(last_heading(texts(p.heading_path@))),
        texts(s.questions_answered@) == seq!["Where is the "@ + last_heading(texts(p.heading_path@)) + " section?"@],
        s.entities.people.len() == 0 && s.entities.orgs.len() == 0 && s.entities.products.len() == 0
            && s.entities.technologies.len() == 0 && s.entities.files_paths.len() == 0
            && s.entities.commands.len() == 0,
        s.mentioned_dates.len() == 0,
        s.decisions.len() == 0,
        s.action_items.len() == 0,
{
    let heading = if p.heading_path.len() > 0 {
        p.heading_path[p.heading_path.len() - 1].clone()
    } else {
        "(untitled)".to_owned()
    };
    let path = join(&p.heading_path, " › ");
    let mut tldr = "Heading only: ".to_owned();
    push_str(&mut tldr, heading.as_str());
    push_str(&mut tldr, ".");
    let mut summary = "The section \"".to_owned();
    push_str(&mut summary, path.as_str());
    push_str(&mut summary, "\" contains only its heading; its content lives in the subsections below it.");
    let words = split_words(heading.as_str());
    let ghost ws = texts(words@).map_values(|w: Seq<char>| lowercase_of(w));
    let mut keywords: Vec<String> = Vec::new();
    let mut i: usize = 0;
    while i < words.len() && i < 8
        invariant
            0 <= i <= words.len(),
            i <= 8,
            ws == texts(words@).map_values(|w: Seq<char>| lowercase_of(w)),
            keywords.len() == i,
            forall|j: int| 0 <= j < i ==> (#[trigger] keywords@[j])@ == ws[j],
        decreases words.len() - i,
    {
        keywords.push(to_lower(words[i].as_str()));
        i = i + 1;
    }
    assert(texts(keywords@) =~= if ws.len() > 8 { ws.take(8) } else { ws });
    let mut question = "Where is the ".to_owned();
    push_str(&mut question, heading.as_str());
    push_str(&mut question, " section?");
    let questions_answered = vec![question];
    assert(texts(questions_answered@) =~= seq![question@]);
    SectionSummary {
        tldr,
        summary,
        keywords,
        questions_answered,
        entities: Entities {
            people: Vec::new(),
            orgs: Vec::new(),
            products: Vec::new(),
            technologies: Vec::new(),
            files_paths: Vec::new(),
            commands: Vec::new(),
        },
        mentioned_dates: Vec::new(),
        decisions: Vec::new(),
        action_items: Vec::new(),
    }
}

/// Midnight UTC of the day `secs` (seconds since the epoch) falls in: the daily budget resets
/// on UTC days.
pub fn start_of_day(secs: i64) -> (r: i64)
    requires
        secs >= i64::MIN + 86400,
    ensures
        r == secs - secs % 86400,
{
    if secs >= 0 {
        let u = secs as u64;
        let r = (u % 86400) as i64;
        assert(r == secs % 86400);
        secs - r
    } else {
        // secs = -(a + 1) with a >= 0
        let a = (-(secs + 1)) as u64;
        let m = (a % 86400) as i64;
        let r = 86399 - m;
        assert(r == secs % 86400) by (nonlinear_arith)
            requires
                secs < 0,
                a == -(secs + 1),
                m == a % 86400,
                r == 86399 - m,
        ;
        secs - r
    }
}

// ---------------------------------------------------------------- reading a section back

/// The section an id now points at: the one at its old index if the hash still matches,
/// else the first with its hash, else the first with its heading path, else whatever is at
/// its old index.
pub open spec fn pick_section_of(secs: Seq<Section>, index: u32, hash: Seq<char>, heading_path: Seq<Seq<char>>) -> Option<int> {
    if index < secs.len() && secs[index as int].hash@ == hash {
        Some(index as int)
    } else if exists|i: int| 0 <= i < secs.len() && secs[i].hash@ == hash {
        Some(choose|i: int| 0 <= i < secs.len() && secs[i].hash@ == hash && forall|j: int| 0 <= j < i ==> secs[j].hash@ != hash)
    } else if exists|i: int| 0 <= i < secs.len() && texts(secs[i].heading_path@) == heading_path {
        Some(choose|i: int| 0 <= i < secs.len() && texts(secs[i].heading_path@) == heading_path && forall|j: int| 0 <= j < i ==> texts(secs[j].heading_path@) != heading_path)
    } else if index < secs.len() {
        Some(index as int)
    } else {
        None
    }
}

fn same_path(a: &Vec<String>, b: &Vec<String>) -> (r: bool)
    ensures
        r == (texts(a@) == texts(b@)),
{
    if a.len() != b.len() {
        assert(texts(a@).len() != texts(b@).len());
        return false;
    }
    let mut i: usize = 0;
    while i < a.len()
        invariant
            0 <= i <= a.len() == b.len(),
            forall|j: int| 0 <= j < i ==> a@[j]@ == b@[j]@,
        decreases a.len() - i,
    {
        if !same_text(a[i].as_str(), b[i].as_str()) {
            assert(texts(a@)[i as int] != texts(b@)[i as int]);
            return false;
        }
        i = i + 1;
    }
    assert(texts(a@) =~= texts(b@));
    true
}

/// The section an id now points at (see [`pick_section_of`]).
pub fn pick_section(secs: &Vec<Section>, index: u32, hash: &String, heading_path: &Vec<String>) -> (r: Option<usize>)
    ensures
        match pick_section_of(secs@, index, hash@, texts(heading_path@)) {
            Some(i) => r == Some(i as usize),
            None => r is None,
        },
{
    if (index as usize) < secs.len() && same_text(secs[index as usize].hash.as_str(), hash.as_str()) {
        return Some(index as usize);
    }
    let mut i: usize = 0;
    while i < secs.len()
        invariant
            0 <= i <= secs.len(),
            !(index < secs.len() && secs@[index as int].hash@ == hash@),
            forall|j: int| 0 <= j < i ==> secs@[j].hash@ != hash@,
        decreases secs.len() - i,
    {
        if same_text(secs[i].hash.as_str(), hash.as_str()) {
            proof {
                assert(0 <= i < secs@.len() && secs@[i as int].hash@ == hash@);
                assert(0 <= i < secs@.len() && secs@[i as int].hash@ == hash@ && forall|j: int| 0 <= j < i ==> secs@[j].hash@ != hash@);
                let w = choose|k: int| 0 <= k < secs@.len() && secs@[k].hash@ == hash@ && forall|j: int| 0 <= j < k ==> secs@[j].hash@ != hash@;
                if w < i {
                    assert(secs@[w].hash@ != hash@);
                }
                if w > i {
                    assert(secs@[i as int].hash@ != hash@);
                }
                assert(w == i);
            }
            return Some(i);
        }
        i = i + 1;
    }
    let mut k: usize = 0;
    while k < secs.len()
        invariant
            0 <= k <= secs.len(),
            !(index < secs.len() && secs@[index as int].hash@ == hash@),
            forall|j: int| 0 <= j < secs.len() ==> secs@[j].hash@ != hash@,
            forall|j: int| 0 <= j < k ==> texts(secs@[j].heading_path@) != texts(heading_path@),
        decreases secs.len() - k,
    {
        if same_path(&secs[k].heading_path, heading_path) {
            proof {
                assert(0 <= k < secs@.len() && texts(secs@[k as int].heading_path@) == texts(heading_path@));
                assert(0 <= k < secs@.len() && texts(secs@[k as int].heading_path@) == texts(heading_path@) && forall|j: int| 0 <= j < k ==> texts(secs@[j].heading_path@) != texts(heading_path@));
                let w = choose|m: int| 0 <= m < secs@.len() && texts(secs@[m].heading_path@) == texts(heading_path@) && forall|j: int| 0 <= j < m ==> texts(secs@[j].heading_path@) != texts(heading_path@);
                if w < k {
                    assert(texts(secs@[w].heading_path@) != texts(heading_path@));
                }
                if w > k {
                    assert(texts(secs@[k as int].heading_path@) != texts(heading_path@));
                }
                assert(w == k);
            }
            return Some(k);
        }
        k = k + 1;
    }
    if (index as usize) < secs.len() {
        Some(index as usize)
    } else {
        None
    }
}

/// Lines `line_start..=line_end` (1-based) of `text` as `str::lines` yields them, clamped to
/// the text, joined with `\n`.
pub open spec fn lines_range_of(text: Seq<char>, line_start: u32, line_end: u32) -> Seq<char> {
    let lines = str_lines_of(text);
    let s = if line_start == 0 { 0 } else { line_start - 1 };
    let start = if s > lines.len() { lines.len() as int } else { s as int };
    let end = if line_end > lines.len() { lines.len() as int } else { line_end as int };
    join_of(lines.subrange(start, end), "\n"@)
}

/// The lines of a section as they are on disk now.
pub fn lines_range(text: &str, line_start: u32, line_end: u32) -> (r: String)
    requires
        line_start <= line_end + 1,
    ensures
        r@ == lines_range_of(text@, line_start, line_end),
{
    let lines = crate::planner::str_lines(text);
    let s: usize = if line_start == 0 { 0 } else { (line_start - 1) as usize };
    let start = if s > lines.len() { lines.len() } else { s };
    let end = if line_end as usize > lines.len() { lines.len() } else { line_end as usize };
    let mut picked: Vec<String> = Vec::new();
    let mut i: usize = start;
    while i < end
        invariant
            start <= i <= end <= lines.len(),
            texts(picked@) == texts(lines@).subrange(start as int, i as int),
        decreases end - i,
    {
        let ghost p0 = texts(picked@);
        picked.push(lines[i].clone());
        assert(texts(picked@) =~= p0.push(lines@[i as int]@));
        assert(texts(picked@) =~= texts(lines@).subrange(start as int, i + 1));
        i = i + 1;
    }
    join(&picked, "\n")
}

} // verus!

verus! {

/// How many events the store returns for a timeline of `limit`: a path filter runs after
/// the store's limit, so it fetches eight times deeper, and at least 500.
pub open spec fn timeline_fetch_of(limit: nat, filtered: bool) -> nat {
    if filtered {
        let eight = if 8 * limit > usize::MAX { usize::MAX as nat } else { 8 * limit };
        if eight > 500 { eight } else { 500 }
    } else {
        limit
    }
}

/// The store fetch of a timeline (see [`timeline_fetch_of`]).
pub fn timeline_fetch(limit: usize, filtered: bool) -> (n: usize)
    ensures
        n == timeline_fetch_of(limit as nat, filtered),
{
    if filtered {
        let eight = if limit > usize::MAX / 8 { usize::MAX } else { limit * 8 };
        if eight > 500 { eight } else { 500 }
    } else {
        limit
    }
}

/// The positions of the events whose path lies under the prefix (all of them without one).
pub open spec fn passing_events(paths: Seq<Seq<char>>, prefix: Option<Seq<char>>) -> Seq<int>
    decreases paths.len(),
{
    if paths.len() == 0 {
        Seq::empty()
    } else {
        let prev = passing_events(paths.drop_last(), prefix);
        if prefix matches Some(p) && !crate::search::under_prefix(paths.last(), p) {
            prev
        } else {
            prev.push(paths.len() - 1)
        }
    }
}

/// The events a timeline shows, by position: those that pass the prefix filter, in order,
/// cut at `limit` (the cut is checked after each kept event, so a `limit` of 0 cuts
/// nothing).
pub open spec fn timeline_window_of(paths: Seq<Seq<char>>, prefix: Option<Seq<char>>, limit: nat) -> Seq<int> {
    let kept = passing_events(paths, prefix);
    if limit == 0 || kept.len() <= limit {
        kept
    } else {
        kept.take(limit as int)
    }
}

/// The passing events of a prefix of the list are a prefix of its passing events.
proof fn lemma_passing_prefix(paths: Seq<Seq<char>>, prefix: Option<Seq<char>>, i: int)
    requires
        0 <= i <= paths.len(),
    ensures
        passing_events(paths.take(i), prefix).len() <= passing_events(paths, prefix).len(),
        passing_events(paths.take(i), prefix) == passing_events(paths, prefix).take(
            passing_events(paths.take(i), prefix).len() as int,
        ),
    decreases paths.len() - i,
{
    if i == paths.len() {
        assert(paths.take(i) =~= paths);
        assert(passing_events(paths, prefix).take(passing_events(paths, prefix).len() as int)
            =~= passing_events(paths, prefix));
    } else {
        lemma_passing_prefix(paths, prefix, i + 1);
        assert(paths.take(i + 1).drop_last() =~= paths.take(i));
    }
}

/// Which of a fetched list of events (given by their document paths, oldest first) a
/// timeline shows (see [`timeline_window_of`]).
pub fn timeline_window(paths: &Vec<String>, prefix: Option<&str>, limit: usize) -> (r: Vec<usize>)
    ensures
        r@.map_values(|i: usize| i as int) == timeline_window_of(
            crate::text::texts(paths@),
            match prefix {
                Some(p) => Some(p@),
                None => None,
            },
            limit as nat,
        ),
{
    let ghost ps = crate::text::texts(paths@);
    let ghost pv: Option<Seq<char>> = match prefix {
        Some(p) => Some(p@),
        None => None,
    };
    let mut out: Vec<usize> = Vec::new();
    let mut i: usize = 0;
    assert(ps.take(paths.len() as int) =~= ps);
    assert(ps.take(0) =~= Seq::<Seq<char>>::empty());
    while i < paths.len()
        invariant_except_break
            i <= paths.len(),
            ps == crate::text::texts(paths@),
            ps.take(paths.len() as int) == ps,
            pv == (match prefix {
                Some(p) => Some(p@),
                None => None,
            }),
            out@.map_values(|k: usize| k as int) == passing_events(ps.take(i as int), pv),
            limit == 0 || out.len() < limit,
        ensures
            out@.map_values(|k: usize| k as int) == timeline_window_of(ps, pv, limit as nat),
        decreases paths.len() - i,
    {
        assert(ps.take(i + 1).drop_last() =~= ps.take(i as int));
        assert(ps.take(i + 1).last() == paths@[i as int]@);
        let keep = match prefix {
            Some(p) => crate::search::path_under_prefix(paths[i].as_str(), p),
            None => true,
        };
        if keep {
            out.push(i);
            assert(out@.map_values(|k: usize| k as int) =~= passing_events(ps.take(i as int), pv).push(
                i as int,
            ));
        }
        i = i + 1;
        if limit > 0 && out.len() == limit {
            proof {
                lemma_passing_prefix(ps, pv, i as int);
                let kept = passing_events(ps, pv);
                assert(kept.take(limit as int) =~= passing_events(ps.take(i as int), pv));
            }
            break;
        }
    }
    out
}

} // verus!

verus! {

/// Why a reported path is left alone.
#[derive(Debug, Clone, Copy, PartialEq, Eq, Structural)]
pub enum IgnoreReason {
    /// Not a markdown path.
    NotMarkdown,
    /// Not under the watched root.
    OutsideRoot,
    /// Inside the state directory.
    StateDirectory,
    /// A new file the walker's ignore rules exclude.
    WalkerRules,
    /// Exists but is not a regular file.
    NotRegularFile,
    /// Gone, and the index never had it.
    NeverIndexed,
}

/// The words of an ignore reason.
pub open spec fn ignore_reason_text(r: IgnoreReason) -> Seq<char> {
    match r {
        IgnoreReason::NotMarkdown => "not markdown"@,
        IgnoreReason::OutsideRoot => "outside the root"@,
        IgnoreReason::StateDirectory => "state directory"@,
        IgnoreReason::WalkerRules => "ignored by walker rules"@,
        IgnoreReason::NotRegularFile => "not a regular file"@,
        IgnoreReason::NeverIndexed => "never indexed"@,
    }
}

impl IgnoreReason {
    /// The words of the reason, as [`SyncOutcome::Ignored`] reports them.
    pub fn as_str(self) -> (s: &'static str)
        ensures
            s@ == ignore_reason_text(self),
    {
        proof {
            reveal_strlit("not markdown");
            reveal_strlit("outside the root");
            reveal_strlit("state directory");
            reveal_strlit("ignored by walker rules");
            reveal_strlit("not a regular file");
            reveal_strlit("never indexed");
        }
        match self {
            IgnoreReason::NotMarkdown => "not markdown",
            IgnoreReason::OutsideRoot => "outside the root",
            IgnoreReason::StateDirectory => "state directory",
            IgnoreReason::WalkerRules => "ignored by walker rules",
            IgnoreReason::NotRegularFile => "not a regular file",
            IgnoreReason::NeverIndexed => "never indexed",
        }
    }
}

/// What to do with a path the watcher reported.
#[derive(Debug, Clone, Copy, PartialEq, Eq, Structural)]
pub enum SyncStep {
    /// Parse and upsert the file.
    Index,
    /// The file is gone: tombstone its document.
    Tombstone,
    /// Nothing to do, and why.
    Ignore(IgnoreReason),
    /// The filesystem could not say what the path is.
    Fail,
}

/// What `symlink_metadata` says of a reported path.
#[derive(Debug, Clone, Copy, PartialEq, Eq, Structural)]
pub enum FileState {
    /// A regular file.
    File,
    /// Something that exists and is not a regular file.
    NotFile,
    /// Nothing is there.
    Gone,
    /// Any other error.
    Unreadable,
}

/// The path a watcher report is about, relative to the root, or why to ignore it: it is not
/// markdown, not under the root, or inside the state directory.
pub open spec fn sync_target_of(root: Seq<char>, abs: Seq<char>) -> Result<Seq<char>, IgnoreReason> {
    if !crate::walk::is_markdown_path(abs) {
        Err(IgnoreReason::NotMarkdown)
    } else {
        match crate::paths::rel_path_of(root, abs) {
            None => Err(IgnoreReason::OutsideRoot),
            Some(rel) => if crate::text::split_on_of(rel, '/').contains(".markdownattractor"@) {
                Err(IgnoreReason::StateDirectory)
            } else {
                Ok(rel)
            },
        }
    }
}

/// The relative path of a watcher report, or why to ignore it (see [`sync_target_of`]).
pub fn sync_target(root: &str, abs: &str) -> (r: Result<String, IgnoreReason>)
    ensures
        match sync_target_of(root@, abs@) {
            Ok(p) => r matches Ok(s) && s@ == p,
            Err(w) => r == Err::<String, IgnoreReason>(w),
        },
{
    if !crate::walk::is_markdown(abs) {
        return Err(IgnoreReason::NotMarkdown);
    }
    let rel = match crate::paths::rel_path(root, abs) {
        Ok(rel) => rel,
        Err(_) => {
            return Err(IgnoreReason::OutsideRoot);
        },
    };
    let pieces = crate::text::split_on(rel.as_str(), '/');
    let state = ".markdownattractor".to_string();
    proof {
        reveal_strlit(".markdownattractor");
    }
    assert(pieces@.map_values(|s: String| s@) =~= crate::text::texts(pieces@));
    if crate::text::contains_string(&pieces, &state) {
        return Err(IgnoreReason::StateDirectory);
    }
    Ok(rel)
}

/// What to do with a reported path under the root, given whether the index knows it, what
/// the filesystem says, and (for a file the index has never seen) whether the walker would
/// discover it: a known file, or a discoverable new one, is indexed; a vanished known file
/// is tombstoned; everything else is ignored with its reason, and an unreadable path fails.
pub open spec fn sync_step_of(known: bool, state: FileState, discoverable: bool) -> SyncStep {
    match state {
        FileState::File => if !known && !discoverable {
            SyncStep::Ignore(IgnoreReason::WalkerRules)
        } else {
            SyncStep::Index
        },
        FileState::NotFile => SyncStep::Ignore(IgnoreReason::NotRegularFile),
        FileState::Gone => if known {
            SyncStep::Tombstone
        } else {
            SyncStep::Ignore(IgnoreReason::NeverIndexed)
        },
        FileState::Unreadable => SyncStep::Fail,
    }
}

/// Whether the walker must be asked about a reported file: only for a regular file that the
/// index has never seen.
pub fn needs_discovery(known: bool, state: FileState) -> (b: bool)
    ensures
        b == (state == FileState::File && !known),
{
    match state {
        FileState::File => !known,
        _ => false,
    }
}

/// What to do with a reported path (see [`sync_step_of`]).
pub fn sync_step(known: bool, state: FileState, discoverable: bool) -> (s: SyncStep)
    ensures
        s == sync_step_of(known, state, discoverable),
{
    match state {
        FileState::File => if !known && !discoverable {
            SyncStep::Ignore(IgnoreReason::WalkerRules)
        } else {
            SyncStep::Index
        },
        FileState::NotFile => SyncStep::Ignore(IgnoreReason::NotRegularFile),
        FileState::Gone => if known {
            SyncStep::Tombstone
        } else {
            SyncStep::Ignore(IgnoreReason::NeverIndexed)
        },
        FileState::Unreadable => SyncStep::Fail,
    }
}

} // verus!

verus! {

/// A live document whose stored content hash equals the parse's hash is left untouched:
/// same content means the same sections at the same lines, so there is nothing to refresh.
pub fn needs_upsert(stored_hash: &Option<String>, doc_hash: &String) -> (b: bool)
    ensures
        b == !(stored_hash matches Some(h) && h@ == doc_hash@),
{
    match stored_hash {
        Some(h) => !crate::text::same_text(h.as_str(), doc_hash.as_str()),
        None => true,
    }
}

/// What indexing reports for a document left untouched: nothing created, changed, new,
/// reused or removed, every section unchanged.
pub fn unchanged_index(rel_path: &str, sections: usize) -> (o: IndexOutcome)
    ensures
        o.rel_path@ == rel_path@,
        o.upsert.doc_id@ == crate::store::doc_id_of(rel_path@),
        !o.upsert.created,
        !o.upsert.changed,
        o.upsert.new_hashes@.len() == 0,
        o.upsert.reused == 0,
        o.upsert.unchanged == sections,
        o.upsert.removed == 0,
        o.sections == sections,
{
    IndexOutcome {
        rel_path: rel_path.to_string(),
        upsert: UpsertOutcome {
            doc_id: crate::store::doc_id_for(rel_path),
            created: false,
            changed: false,
            new_hashes: Vec::new(),
            reused: 0,
            unchanged: sections,
            removed: 0,
        },
        sections,
    }
}

/// Count one indexed file into a walk's report: a created or changed document counts as
/// changed, and its new hashes as pending.
pub fn count_indexed(report: &mut IndexReport, out: &IndexOutcome)
    requires
        old(report).changed < usize::MAX,
        old(report).pending + out.upsert.new_hashes@.len() <= usize::MAX,
    ensures
        final(report).files == old(report).files,
        final(report).tombstoned == old(report).tombstoned,
        final(report).errors == old(report).errors,
        final(report).changed == old(report).changed + (if out.upsert.created || out.upsert.changed {
            1int
        } else {
            0int
        }),
        final(report).pending == old(report).pending + out.upsert.new_hashes@.len(),
{
    if out.upsert.created || out.upsert.changed {
        report.changed = report.changed + 1;
    }
    report.pending = report.pending + out.upsert.new_hashes.len();
}

/// The report of indexing one path on request: one file, changed when its document was
/// created or changed, its new hashes pending; nothing for a path that was not indexed.
pub fn single_report(out: &SyncOutcome) -> (r: IndexReport)
    ensures
        r.files == 1,
        r.tombstoned == 0,
        r.errors@.len() == 0,
        match out {
            SyncOutcome::Indexed(o) => {
                &&& r.changed == (if o.upsert.created || o.upsert.changed { 1int } else { 0int })
                &&& r.pending == o.upsert.new_hashes@.len()
            },
            _ => r.changed == 0 && r.pending == 0,
        },
{
    let mut r = IndexReport { files: 1, changed: 0, pending: 0, tombstoned: 0, errors: Vec::new() };
    if let SyncOutcome::Indexed(o) = out {
        if o.upsert.created || o.upsert.changed {
            r.changed = 1;
        }
        r.pending = o.upsert.new_hashes.len();
    }
    r
}

} // verus!

verus! {

// ---------------------------------------------------------------- one job's result

/// How one summarization job ended, as the worker pool reports it.
#[derive(Debug, Clone, PartialEq, Eq)]
pub enum JobOutcome {
    /// The job never started, or a stop, a cancel or an environment failure that stopped the
    /// pool cut it off: the section is fine, the run was not.
    Stopped,
    /// The model returned a card.
    Summary(SectionSummary),
    /// The model's reply could not be read as a card.
    Malformed {
        /// Why it could not be read.
        reason: String,
        /// What the model said.
        raw: String,
    },
    /// The call failed (retries spent, rate limited, or a fatal error).
    Failed {
        /// Why.
        reason: String,
    },
}

/// What the engine does with a job's section.
#[derive(Debug, Clone, PartialEq, Eq)]
pub enum JobAction {
    /// Leave it pending for a later run.
    Defer,
    /// Attach the validated card: the only way a card reaches the index.
    Attach(crate::validate::Validated),
    /// Mark it failed, with the reason to record.
    MarkFailed(String),
}

/// How many characters of a malformed reply the failure reason quotes.
pub const MALFORMED_QUOTE_CHARS: usize = 300;

/// The reason recorded for a card that validation refused (the validation error's text).
pub open spec fn rejection_reason() -> Seq<char> {
    "validation failed for "@ + crate::validate::REJECTED_SUBJECT@ + ": "@ + crate::validate::REJECTED_REASON@
}

/// The reason recorded for a malformed reply: the parser's reason and the start of the reply.
pub open spec fn malformed_reason(reason: Seq<char>, raw: Seq<char>) -> Seq<char> {
    reason + "; model said: "@ + crate::text::clip_of(raw, MALFORMED_QUOTE_CHARS as nat)
}

/// Room in the report's counters for one job with `outcome`.
pub open spec fn report_has_room(report: SummarizeReport, outcome: JobOutcome) -> bool {
    &&& report.deferred < usize::MAX
    &&& report.ok < usize::MAX
    &&& report.clean < usize::MAX
    &&& report.failed < usize::MAX
    &&& match outcome {
        JobOutcome::Summary(s) => {
            &&& report.dropped_dates + s.mentioned_dates@.len() <= usize::MAX
            &&& report.dropped_entities + crate::validate::entity_count(s.entities) <= usize::MAX
        },
        _ => true,
    }
}

/// Decide what happens to a job's section and count it in `report`. A stopped job is
/// deferred, not failed. A card is attached only as validation gives it back, and only when
/// validation accepts it; a refused card, a malformed reply or a failed call marks the section
/// failed with its reason. Attached cards count as `ok`, as `clean` when validation changed
/// nothing, and add what validation dropped to the dropped counters.
pub fn apply_outcome(text: &str, outcome: JobOutcome, caps: &crate::validate::Caps, report: &mut SummarizeReport) -> (a: JobAction)
    requires
        caps.max_chars * 2 <= usize::MAX,
        report_has_room(*old(report), outcome),
    ensures
        match outcome {
            JobOutcome::Stopped => a is Defer && *final(report) == (SummarizeReport {
                deferred: (old(report).deferred + 1) as usize,
                ..*old(report)
            }),
            JobOutcome::Summary(s) => if crate::validate::rejects(s, *caps) {
                &&& a matches JobAction::MarkFailed(m) && m@ == rejection_reason()
                &&& *final(report) == (SummarizeReport { failed: (old(report).failed + 1) as usize, ..*old(report) })
            } else {
                &&& a matches JobAction::Attach(v) && crate::validate::validated_fits(text@, s, *caps, v)
                    && *final(report) == (SummarizeReport {
                    ok: (old(report).ok + 1) as usize,
                    clean: (old(report).clean + if v.dropped_dates@.len() == 0 && v.dropped_entities@.len() == 0
                        && v.trimmed@.len() == 0 { 1int } else { 0int }) as usize,
                    dropped_dates: (old(report).dropped_dates + v.dropped_dates@.len()) as usize,
                    dropped_entities: (old(report).dropped_entities + v.dropped_entities@.len()) as usize,
                    ..*old(report)
                })
            },
            JobOutcome::Malformed { reason, raw } => {
                &&& a matches JobAction::MarkFailed(m) && m@ == malformed_reason(reason@, raw@)
                &&& *final(report) == (SummarizeReport { failed: (old(report).failed + 1) as usize, ..*old(report) })
            },
            JobOutcome::Failed { reason } => {
                &&& a matches JobAction::MarkFailed(m) && m@ == reason@
                &&& *final(report) == (SummarizeReport { failed: (old(report).failed + 1) as usize, ..*old(report) })
            },
        },
{
    match outcome {
        JobOutcome::Stopped => {
            report.deferred = report.deferred + 1;
            JobAction::Defer
        },
        JobOutcome::Summary(s) => {
            let ghost s0 = s;
            match crate::validate::validate(text, s, caps) {
                Ok(v) => {
                    proof {
                        crate::validate::lemma_dropped_bounded(text@, s0, *caps, v);
                    }
                    report.ok = report.ok + 1;
                    if v.is_clean() {
                        report.clean = report.clean + 1;
                    }
                    report.dropped_dates = report.dropped_dates + v.dropped_dates.len();
                    report.dropped_entities = report.dropped_entities + v.dropped_entities.len();
                    JobAction::Attach(v)
                },
                Err(e) => {
                    let mut m = String::new();
                    push_str(&mut m, "validation failed for ");
                    match e {
                        crate::error::Error::Validation { subject, reason } => {
                            push_str(&mut m, subject.as_str());
                            push_str(&mut m, ": ");
                            push_str(&mut m, reason.as_str());
                        },
                        _ => {},
                    }
                    report.failed = report.failed + 1;
                    JobAction::MarkFailed(m)
                },
            }
        },
        JobOutcome::Malformed { reason, raw } => {
            let mut m = reason;
            push_str(&mut m, "; model said: ");
            let tail = crate::text::clip(raw.as_str(), MALFORMED_QUOTE_CHARS);
            push_str(&mut m, tail.as_str());
            report.failed = report.failed + 1;
            JobAction::MarkFailed(m)
        },
        JobOutcome::Failed { reason } => {
            report.failed = report.failed + 1;
            JobAction::MarkFailed(reason)
        },
    }
}

} // verus!
