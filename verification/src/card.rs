//! What a model writes about one section: the summary contract the validator enforces.

use vstd::prelude::*;
use crate::timefmt::Stamp;

verus! {

/// How precisely a date in the text pins down a moment.
#[derive(Debug, Clone, Copy, PartialEq, Eq, Structural)]
pub enum DatePrecision {
    /// A full calendar day, e.g. `2026-09-21`.
    Day,
    /// A month, e.g. `Sept 2026`.
    Month,
    /// A quarter, e.g. `Q4 2026`.
    Quarter,
    /// A year, or a vaguer span inside one year (`spring 2026`).
    Year,
    /// Relative to the document's own time (`last week`, `next sprint`).
    Relative,
}

/// A date the model found in the section, with the evidence that proves it was there.
#[derive(Debug, Clone, PartialEq, Eq)]
pub struct MentionedDate {
    /// The date exactly as written in the text.
    pub raw: String,
    /// ISO 8601, as precise as the text allows: `2026`, `2026-09`, or `2026-09-21`.
    pub iso: String,
    /// How precise `iso` is.
    pub precision: DatePrecision,
    /// A verbatim substring of the section containing the date.
    pub evidence: String,
}

/// Named things that literally appear in the section.
#[derive(Debug, Clone, Default, PartialEq, Eq)]
pub struct Entities {
    /// People, as written.
    pub people: Vec<String>,
    /// Organisations and teams.
    pub orgs: Vec<String>,
    /// Products, services, libraries referred to by name.
    pub products: Vec<String>,
    /// Technologies, protocols, formats, algorithms.
    pub technologies: Vec<String>,
    /// File paths as written.
    pub files_paths: Vec<String>,
    /// Complete shell commands as written.
    pub commands: Vec<String>,
}

/// What the model writes about one section.
#[derive(Debug, Clone, PartialEq, Eq)]
pub struct SectionSummary {
    /// One sentence. Does not repeat the heading.
    pub tldr: String,
    /// A few sentences.
    pub summary: String,
    /// Lowercase keywords or keyphrases.
    pub keywords: Vec<String>,
    /// Questions a developer would type into a search box that this section answers.
    pub questions_answered: Vec<String>,
    /// Named things that literally appear in the text.
    pub entities: Entities,
    /// Dates found in the text, each with verbatim evidence.
    pub mentioned_dates: Vec<MentionedDate>,
    /// Explicit decisions stated in the section.
    pub decisions: Vec<String>,
    /// Explicit TODOs or future steps.
    pub action_items: Vec<String>,
}

/// The version of the card schema a summary is written against; bump it whenever the
/// contract changes so that old cards can be recognised.
pub const SCHEMA_VERSION: u16 = 1;

/// Where a card came from. Lets `mda stale` and re-summarisation reason about old cards.
#[derive(Debug, Clone, PartialEq, Eq)]
pub struct Provenance {
    /// Model id that produced the summary.
    pub model: String,
    /// Version of the system prompt file, e.g. `section.v1`.
    pub prompt_version: String,
    /// [`SCHEMA_VERSION`] at the time.
    pub schema_version: u16,
    /// Backend that ran the call: the command-line client or `api`.
    pub backend: String,
    /// When the summary was produced.
    pub summarized_at: Stamp,
    /// `true` when the model saw only a prefix of the section (planner truncation), so the
    /// card describes the beginning of the section, not all of it.
    pub truncated: bool,
}

/// A section card: the model's summary plus deterministic metadata. This is what search
/// returns at its first level of detail.
#[derive(Debug, Clone, PartialEq, Eq)]
pub struct SectionCard {
    /// Stable id: `<doc_id>#<section index>`.
    pub section_id: String,
    /// Owning document.
    pub doc_id: String,
    /// Headings from the document root down to this section, e.g. `["Deploy", "Rollback"]`.
    pub heading_path: Vec<String>,
    /// First line of the section in the source file, 1-based, inclusive.
    pub line_start: u32,
    /// Last line of the section in the source file, 1-based, inclusive.
    pub line_end: u32,
    /// Rough token count of the source section (chars / 4).
    pub token_estimate: u32,
    /// blake3 of the normalised section text. Unchanged hash means no re-summarisation.
    pub section_hash: String,
    /// Fenced code block languages present, deduplicated, in order of first appearance.
    pub has_code: Vec<String>,
    /// Whether the section contains a table.
    pub has_tables: bool,
    /// When this section's content first appeared in the index.
    pub section_created_at: Stamp,
    /// When this section's content last changed.
    pub section_updated_at: Stamp,
    /// The model's part.
    pub summary: SectionSummary,
    /// How and when the summary was produced.
    pub provenance: Provenance,
}

} // verus!
