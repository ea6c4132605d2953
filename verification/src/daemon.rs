//! The daemon's decisions: how large a summarization round is and how long to pause after
//! one. The loops that watch, index and summarize run around these in the application;
//! durations are milliseconds.

use vstd::prelude::*;

verus! {

/// Knobs for the daemon, in milliseconds.
#[derive(Debug, Clone, Copy, PartialEq, Eq, Structural)]
pub struct DaemonConfig {
    /// A path must be quiet this long (and its size stable) before it is indexed.
    pub debounce_ms: u64,
    /// Sections per summarization round. `None` means twice the pool's maximum concurrency.
    pub round_size: Option<usize>,
    /// How often the summarizer re-checks the store while nothing is pending.
    pub idle_poll_ms: u64,
    /// How long a document stays "hot" (served first) after the user changed it.
    pub hot_ttl_ms: u64,
    /// First pause after a round in which nothing succeeded; doubles each time.
    pub backoff_min_ms: u64,
    /// Longest pause between failing rounds.
    pub backoff_max_ms: u64,
    /// Pause after the daily token budget stopped a round.
    pub budget_pause_ms: u64,
}

impl Default for DaemonConfig {
    fn default() -> (c: Self)
        ensures
            c == (DaemonConfig {
                debounce_ms: 1000,
                round_size: None,
                idle_poll_ms: 30000,
                hot_ttl_ms: 600000,
                backoff_min_ms: 5000,
                backoff_max_ms: 300000,
                budget_pause_ms: 600000,
            }),
    {
        DaemonConfig {
            debounce_ms: 1000,
            round_size: None,
            idle_poll_ms: 30000,
            hot_ttl_ms: 600000,
            backoff_min_ms: 5000,
            backoff_max_ms: 300000,
            budget_pause_ms: 600000,
        }
    }
}

/// Sections per round: the configured size, or twice the pool's maximum concurrency; at
/// least one.
pub fn round_size(cfg: &DaemonConfig, pool_max: u16) -> (n: usize)
    ensures
        n == ({
            let want = match cfg.round_size { Some(r) => r as int, None => 2 * pool_max };
            if want < 1 { 1 } else { want }
        }),
{
    let want: usize = match cfg.round_size {
        Some(r) => r,
        None => 2 * (pool_max as usize),
    };
    if want < 1 { 1 } else { want }
}

/// The next pause after a failure: the minimum the first time, then double the previous
/// pause, never above the maximum.
pub open spec fn next_backoff_of(cfg: DaemonConfig, prev: Option<u64>) -> u64 {
    match prev {
        None => cfg.backoff_min_ms,
        Some(b) => if 2 * b > cfg.backoff_max_ms { cfg.backoff_max_ms } else { (2 * b) as u64 },
    }
}

/// The next pause after a failure (see [`next_backoff_of`]).
pub fn next_backoff(cfg: &DaemonConfig, prev: Option<u64>) -> (b: u64)
    ensures
        b == next_backoff_of(*cfg, prev),
{
    match prev {
        None => cfg.backoff_min_ms,
        Some(b) => if b > cfg.backoff_max_ms / 2 {
            cfg.backoff_max_ms
        } else {
            b * 2
        },
    }
}

/// What a summarization round reported, as far as pausing is concerned.
#[derive(Debug, Clone, Copy, PartialEq, Eq, Structural)]
pub struct RoundResult {
    /// Jobs submitted to the model.
    pub submitted: usize,
    /// Cards attached.
    pub ok: usize,
    /// Jobs that failed.
    pub failed: usize,
    /// The daily budget stopped the round.
    pub budget_exhausted: bool,
}

/// The pause before the next round: the budget pause when the budget stopped the round;
/// the next failure pause when every submitted call failed; none otherwise.
pub open spec fn pause_after_of(cfg: DaemonConfig, prev: Option<u64>, r: RoundResult) -> Option<u64> {
    if r.budget_exhausted {
        Some(cfg.budget_pause_ms)
    } else if r.submitted > 0 && r.ok == 0 && r.failed > 0 {
        Some(next_backoff_of(cfg, prev))
    } else {
        None
    }
}

/// The pause before the next round (see [`pause_after_of`]). A round that could not run at
/// all is paused as a failure with [`next_backoff`].
pub fn pause_after(cfg: &DaemonConfig, prev: Option<u64>, r: &RoundResult) -> (p: Option<u64>)
    ensures
        p == pause_after_of(*cfg, prev, *r),
{
    if r.budget_exhausted {
        Some(cfg.budget_pause_ms)
    } else if r.submitted > 0 && r.ok == 0 && r.failed > 0 {
        Some(next_backoff(cfg, prev))
    } else {
        None
    }
}

/// What the summarizer loop learns before its next move.
#[derive(Debug, Clone, Copy, PartialEq, Eq, Structural)]
pub enum SummarizerEvent {
    /// The daemon is shutting down.
    Cancelled,
    /// Summarization is paused by the user.
    Paused,
    /// Neither: the loop may go on.
    Awake,
    /// Reading the store's counts failed.
    CountsFailed,
    /// The store has this many sections waiting for a card.
    Pending(u64),
    /// A round ran and reported this.
    RoundDone(RoundResult),
    /// A round could not run.
    RoundFailed,
}

/// What the summarizer loop does next.
#[derive(Debug, Clone, Copy, PartialEq, Eq, Structural)]
pub enum SummarizerAction {
    /// Leave the loop.
    Stop,
    /// Wait for a wake-up, at most this many milliseconds.
    Wait(u64),
    /// Sleep this many milliseconds, then read the counts.
    Sleep(u64),
    /// Read the store's counts.
    ReadCounts,
    /// Run a round of at most this many sections.
    Run(usize),
    /// Start the next iteration.
    Next,
}

/// One step of the summarizer loop, from the pause carried over (`backoff`) and an event to
/// the next pause and action. A shutdown stops; a pause waits for a wake-up; otherwise a
/// carried pause is slept first (and kept: the doubled value applies only if the next round
/// fails again). A failed count read backs off; nothing pending clears the pause and waits; work
/// pending runs a round. After a round the pause is [`pause_after_of`]; a round that could not
/// run backs off.
pub open spec fn summarizer_step_of(
    cfg: DaemonConfig,
    pool_max: u16,
    backoff: Option<u64>,
    ev: SummarizerEvent,
) -> (Option<u64>, SummarizerAction) {
    match ev {
        SummarizerEvent::Cancelled => (backoff, SummarizerAction::Stop),
        SummarizerEvent::Paused => (backoff, SummarizerAction::Wait(cfg.idle_poll_ms)),
        SummarizerEvent::Awake => match backoff {
            Some(b) => (backoff, SummarizerAction::Sleep(b)),
            None => (backoff, SummarizerAction::ReadCounts),
        },
        SummarizerEvent::CountsFailed => (Some(next_backoff_of(cfg, backoff)), SummarizerAction::Next),
        SummarizerEvent::Pending(n) => if n == 0 {
            (None, SummarizerAction::Wait(cfg.idle_poll_ms))
        } else {
            let want = match cfg.round_size { Some(r) => r as int, None => 2 * pool_max };
            (backoff, SummarizerAction::Run((if want < 1 { 1 } else { want }) as usize))
        },
        SummarizerEvent::RoundDone(r) => (pause_after_of(cfg, backoff, r), SummarizerAction::Next),
        SummarizerEvent::RoundFailed => (Some(next_backoff_of(cfg, backoff)), SummarizerAction::Next),
    }
}

/// One step of the summarizer loop (see [`summarizer_step_of`]).
pub fn summarizer_step(cfg: &DaemonConfig, pool_max: u16, backoff: Option<u64>, ev: SummarizerEvent) -> (r: (
    Option<u64>,
    SummarizerAction,
))
    ensures
        r == summarizer_step_of(*cfg, pool_max, backoff, ev),
{
    match ev {
        SummarizerEvent::Cancelled => (backoff, SummarizerAction::Stop),
        SummarizerEvent::Paused => (backoff, SummarizerAction::Wait(cfg.idle_poll_ms)),
        SummarizerEvent::Awake => match backoff {
            Some(b) => (backoff, SummarizerAction::Sleep(b)),
            None => (backoff, SummarizerAction::ReadCounts),
        },
        SummarizerEvent::CountsFailed => (Some(next_backoff(cfg, backoff)), SummarizerAction::Next),
        SummarizerEvent::Pending(n) => if n == 0 {
            (None, SummarizerAction::Wait(cfg.idle_poll_ms))
        } else {
            (backoff, SummarizerAction::Run(round_size(cfg, pool_max)))
        },
        SummarizerEvent::RoundDone(r) => (pause_after(cfg, backoff, &r), SummarizerAction::Next),
        SummarizerEvent::RoundFailed => (Some(next_backoff(cfg, backoff)), SummarizerAction::Next),
    }
}

/// Failing rounds never pause longer than the larger of the two configured bounds, and a
/// pause within the bounds never shrinks on the next failure.
pub proof fn law_backoff_is_bounded_and_grows(cfg: DaemonConfig, prev: Option<u64>)
    ensures
        next_backoff_of(cfg, prev) <= if cfg.backoff_min_ms > cfg.backoff_max_ms { cfg.backoff_min_ms } else { cfg.backoff_max_ms },
        match prev {
            Some(b) => b <= cfg.backoff_max_ms ==> next_backoff_of(cfg, prev) >= b,
            None => true,
        },
{
}

} // verus!

verus! {

/// A vanished path whose document has `hash` was renamed to the first file created in the
/// same batch with that content, if any.
pub open spec fn rename_target_of(created: Seq<(Seq<char>, Seq<char>)>, hash: Seq<char>) -> Option<Seq<char>>
    decreases created.len(),
{
    if created.len() == 0 {
        None
    } else if created[0].1 == hash {
        Some(created[0].0)
    } else {
        rename_target_of(created.drop_first(), hash)
    }
}

/// Where a vanished document went (see [`rename_target_of`]); `created` lists the files
/// created in this batch with their content hashes, in the order they were indexed.
pub fn rename_target(created: &Vec<(String, String)>, hash: &str) -> (r: Option<String>)
    ensures
        match rename_target_of(created@.map_values(|p: (String, String)| (p.0@, p.1@)), hash@) {
            Some(t) => r matches Some(s) && s@ == t,
            None => r is None,
        },
{
    let ghost cv = created@.map_values(|p: (String, String)| (p.0@, p.1@));
    let mut i: usize = 0;
    assert(cv.skip(0) =~= cv);
    while i < created.len()
        invariant
            i <= created.len(),
            cv == created@.map_values(|p: (String, String)| (p.0@, p.1@)),
            rename_target_of(cv, hash@) == rename_target_of(cv.skip(i as int), hash@),
        decreases created.len() - i,
    {
        assert(cv.skip(i as int)[0] == cv[i as int]);
        if crate::text::same_text(created[i].1.as_str(), hash) {
            return Some(created[i].0.clone());
        }
        assert(cv.skip(i as int).drop_first() =~= cv.skip(i + 1));
        i = i + 1;
    }
    None
}

} // verus!

verus! {

/// What a command asks the daemon to do.
#[derive(Debug, Clone, PartialEq, Eq)]
pub enum Request {
    /// Liveness check.
    Ping,
    /// Live counters.
    Status,
    /// Stop gracefully: in-flight calls finish and are recorded, the rest stays pending.
    Stop,
    /// Keep watching and indexing, stop calling the model.
    Pause,
    /// Undo [`Request::Pause`].
    Resume,
    /// Index one path now (relative to the root, or absolute inside it), or the whole root.
    Index {
        /// Path to index; `None` means the whole root.
        path: Option<String>,
    },
    /// Reconcile the whole root with the walker.
    Rescan,
    /// Stream events until the connection closes.
    Watch,
}

/// What the daemon does for one request on a connection.
#[derive(Debug, Clone, PartialEq, Eq)]
pub enum Reaction {
    /// Answer `Ok`.
    ReplyOk,
    /// Answer with the live counters.
    Status,
    /// Announce that it is stopping, cancel everything, answer `Ok`.
    Stop,
    /// Pause or resume the summarizer (announcing it, and waking the summarizer on resume),
    /// answer `Ok`.
    SetPaused(bool),
    /// Hand the path (or the whole root) to the indexer and answer with its report.
    Index(Option<String>),
    /// Hand a rescan to the indexer and answer with its report.
    Rescan,
    /// Answer `Ok`, then stream events until the client or the daemon goes away.
    Watch,
}

/// The reaction to each request.
pub open spec fn reaction_of(r: Request) -> Reaction {
    match r {
        Request::Ping => Reaction::ReplyOk,
        Request::Status => Reaction::Status,
        Request::Stop => Reaction::Stop,
        Request::Pause => Reaction::SetPaused(true),
        Request::Resume => Reaction::SetPaused(false),
        Request::Index { path } => Reaction::Index(path),
        Request::Rescan => Reaction::Rescan,
        Request::Watch => Reaction::Watch,
    }
}

/// How the daemon reacts to a request (see [`reaction_of`]).
pub fn react(r: Request) -> (a: Reaction)
    ensures
        a == reaction_of(r),
{
    match r {
        Request::Ping => Reaction::ReplyOk,
        Request::Status => Reaction::Status,
        Request::Stop => Reaction::Stop,
        Request::Pause => Reaction::SetPaused(true),
        Request::Resume => Reaction::SetPaused(false),
        Request::Index { path } => Reaction::Index(path),
        Request::Rescan => Reaction::Rescan,
        Request::Watch => Reaction::Watch,
    }
}

} // verus!
