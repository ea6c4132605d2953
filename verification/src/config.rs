//! The parts of the configuration that decide something: backend names and the worker
//! pool's bounds.

use vstd::prelude::*;

verus! {

/// Which process produces summaries.
#[derive(Debug, Clone, Copy, PartialEq, Eq, Default, Structural)]
pub enum Backend {
    /// The Messages API with the user's own key. Default.
    #[default]
    Api,
    /// An OpenAI-compatible local server.
    Local,
    /// A command-line assistant the user runs locally, opt-in only.
    Cli,
}

impl Backend {
    /// Stable name used in provenance and `--json` output.
    pub fn as_str(self) -> (s: &'static str)
        ensures
            s@ == match self {
                Backend::Api => "api"@,
                Backend::Local => "local"@,
                Backend::Cli => "cli"@,
            },
    {
        match self {
            Backend::Api => "api",
            Backend::Local => "local",
            Backend::Cli => "cli",
        }
    }
}

/// Which embedding model produces card vectors.
#[derive(Debug, Clone, Copy, PartialEq, Eq, Default, Structural)]
pub enum Embeddings {
    /// A small local model, CPU only. Default.
    #[default]
    LocalSmall,
    /// No vectors: search is lexical only.
    Off,
}

impl Embeddings {
    /// Stable name used in `--json` output.
    pub fn as_str(self) -> (s: &'static str)
        ensures
            s@ == match self {
                Embeddings::LocalSmall => "local-small"@,
                Embeddings::Off => "off"@,
            },
    {
        match self {
            Embeddings::LocalSmall => "local-small",
            Embeddings::Off => "off",
        }
    }
}

/// Name of the state directory created under the watched root.
pub const STATE_DIR: &'static str = ".markdownattractor";

/// Name of the config file inside [`STATE_DIR`].
pub const CONFIG_FILE: &'static str = "config.toml";

/// Upper bound on concurrent calls to a local server.
pub const LOCAL_MAX_CONCURRENCY: u16 = 4;

/// Concurrency a local pool starts at.
pub const LOCAL_INITIAL_CONCURRENCY: u16 = 2;

/// The shortest per-call timeout the local backend accepts, in seconds.
pub const LOCAL_MIN_TIMEOUT_SECS: u64 = 300;

/// `x` clamped into `lo..=hi`.
pub open spec fn clamp_of(x: int, lo: int, hi: int) -> int {
    if x < lo {
        lo
    } else if x > hi {
        hi
    } else {
        x
    }
}

/// The worker pool's `(initial, max)` concurrency for a backend and the configured
/// `concurrency` (`None` for automatic). A local server gets at most
/// [`LOCAL_MAX_CONCURRENCY`] and starts at [`LOCAL_INITIAL_CONCURRENCY`] unless pinned; the
/// remote backends start at 4 and grow to 16 unless pinned. Never below 1.
pub fn pool_bounds(backend: Backend, concurrency: Option<u16>) -> (r: (u16, u16))
    ensures
        r == match backend {
            Backend::Local => {
                let max = clamp_of(
                    match concurrency { Some(c) => c as int, None => LOCAL_MAX_CONCURRENCY as int },
                    1,
                    LOCAL_MAX_CONCURRENCY as int,
                );
                let initial = clamp_of(
                    match concurrency { Some(c) => c as int, None => LOCAL_INITIAL_CONCURRENCY as int },
                    1,
                    max,
                );
                (initial as u16, max as u16)
            },
            _ => match concurrency {
                Some(c) => (if c == 0 { 1u16 } else { c }, if c == 0 { 1u16 } else { c }),
                None => (4u16, 16u16),
            },
        },
        1 <= r.0 <= r.1,
{
    match backend {
        Backend::Local => {
            let want_max = match concurrency {
                Some(c) => c,
                None => LOCAL_MAX_CONCURRENCY,
            };
            let max = if want_max < 1 {
                1
            } else if want_max > LOCAL_MAX_CONCURRENCY {
                LOCAL_MAX_CONCURRENCY
            } else {
                want_max
            };
            let want_initial = match concurrency {
                Some(c) => c,
                None => LOCAL_INITIAL_CONCURRENCY,
            };
            let initial = if want_initial < 1 {
                1
            } else if want_initial > max {
                max
            } else {
                want_initial
            };
            (initial, max)
        },
        Backend::Api | Backend::Cli => {
            let initial = match concurrency {
                Some(c) => if c < 1 { 1 } else { c },
                None => 4,
            };
            let max = match concurrency {
                Some(c) => if c < 1 { 1 } else { c },
                None => 16,
            };
            (initial, max)
        },
    }
}

/// Per-call wall-clock timeout in seconds for a backend: the local backend never goes below
/// [`LOCAL_MIN_TIMEOUT_SECS`].
pub fn effective_worker_timeout_secs(backend: Backend, worker_timeout_secs: u64) -> (s: u64)
    ensures
        s == match backend {
            Backend::Local => if worker_timeout_secs < LOCAL_MIN_TIMEOUT_SECS { LOCAL_MIN_TIMEOUT_SECS } else { worker_timeout_secs },
            _ => worker_timeout_secs,
        },
{
    match backend {
        Backend::Local => if worker_timeout_secs < LOCAL_MIN_TIMEOUT_SECS {
            LOCAL_MIN_TIMEOUT_SECS
        } else {
            worker_timeout_secs
        },
        _ => worker_timeout_secs,
    }
}

} // verus!

verus! {

/// Shown whenever the command-line backend is selected without the acknowledgement.
pub const CLI_POLICY: &'static str = "backend \"cli\" routes requests through your own \
model subscription, whose terms may not permit third-party tools to do that on your behalf. \
Use the default `api` backend with an API key, or `local` with a llama.cpp server. To run \
the cli backend anyway for personal use, set `cli_policy_ack = true` in \
.markdownattractor/config.toml.";

/// Why a configuration is refused, checked in this order: an empty summarization model, a
/// concurrency of zero, a per-call budget that is not a positive number, a zero worker
/// timeout, the command-line backend without its acknowledgement, an empty base URL.
pub open spec fn config_problem(
    summarization_model: Seq<char>,
    concurrency: Option<u16>,
    budget_positive: bool,
    worker_timeout_secs: u64,
    backend: Backend,
    cli_policy_ack: bool,
    api_base_url: Seq<char>,
    local_base_url: Seq<char>,
) -> Option<nat> {
    if crate::text::trim(summarization_model).len() == 0 {
        Some(0)
    } else if concurrency == Some(0u16) {
        Some(1)
    } else if !budget_positive {
        Some(2)
    } else if worker_timeout_secs == 0 {
        Some(3)
    } else if backend == Backend::Cli && !cli_policy_ack {
        Some(4)
    } else if crate::text::trim(api_base_url).len() == 0 || crate::text::trim(local_base_url).len() == 0 {
        Some(5)
    } else {
        None
    }
}

fn refuse(msg: &str) -> (e: crate::error::Error)
    ensures
        e matches crate::error::Error::Config(m) && m@ == msg@,
{
    crate::error::Error::Config(msg.to_string())
}

/// Check a configuration's values (see [`config_problem`]); `budget_positive` says whether
/// the per-call budget is a positive number. Every refusal is a configuration error.
pub fn validate_config(
    summarization_model: &str,
    concurrency: Option<u16>,
    budget_positive: bool,
    worker_timeout_secs: u64,
    backend: Backend,
    cli_policy_ack: bool,
    api_base_url: &str,
    local_base_url: &str,
) -> (r: Result<(), crate::error::Error>)
    ensures
        match config_problem(
            summarization_model@,
            concurrency,
            budget_positive,
            worker_timeout_secs,
            backend,
            cli_policy_ack,
            api_base_url@,
            local_base_url@,
        ) {
            Some(_) => r matches Err(crate::error::Error::Config(_)),
            None => r is Ok,
        },
{
    if crate::text::is_empty_text(crate::text::trimmed(summarization_model).as_str()) {
        return Err(refuse("summarization_model must not be empty"));
    }
    if concurrency == Some(0u16) {
        return Err(refuse("concurrency must be at least 1 (or unset for auto)"));
    }
    if !budget_positive {
        return Err(refuse("per_call_budget_usd must be positive"));
    }
    if worker_timeout_secs == 0 {
        return Err(refuse("worker_timeout_secs must be positive"));
    }
    match backend {
        Backend::Cli => {
            if !cli_policy_ack {
                return Err(refuse(CLI_POLICY));
            }
        },
        _ => {},
    }
    if crate::text::is_empty_text(crate::text::trimmed(api_base_url).as_str())
        || crate::text::is_empty_text(crate::text::trimmed(local_base_url).as_str()) {
        return Err(refuse("api_base_url and local_base_url must not be empty"));
    }
    Ok(())
}

/// The workspace id to send: the configured one, trimmed, when it is not blank; else the
/// environment's, when that is not blank (untrimmed, as it was set).
pub open spec fn workspace_id_of(configured: Option<Seq<char>>, env: Option<Seq<char>>) -> Option<Seq<char>> {
    match configured {
        Some(c) if crate::text::trim(c).len() > 0 => Some(crate::text::trim(c)),
        _ => match env {
            Some(e) if crate::text::trim(e).len() > 0 => Some(e),
            _ => None,
        },
    }
}

/// The workspace id to send (see [`workspace_id_of`]); `env` is `$ANTHROPIC_WORKSPACE_ID`.
pub fn workspace_id(configured: Option<&str>, env: Option<String>) -> (r: Option<String>)
    ensures
        match workspace_id_of(
            match configured {
                Some(c) => Some(c@),
                None => None,
            },
            match env {
                Some(e) => Some(e@),
                None => None,
            },
        ) {
            Some(w) => r matches Some(s) && s@ == w,
            None => r is None,
        },
{
    if let Some(c) = configured {
        let t = crate::text::trimmed(c);
        if !crate::text::is_empty_text(t.as_str()) {
            return Some(t);
        }
    }
    match env {
        Some(e) => {
            let t = crate::text::trimmed(e.as_str());
            if crate::text::is_empty_text(t.as_str()) {
                None
            } else {
                Some(e)
            }
        },
        None => None,
    }
}

} // verus!
