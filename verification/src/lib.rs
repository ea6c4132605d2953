//! A time-aware, searchable knowledge layer over a folder of markdown: parsing into
//! heading-delimited sections, section diffs, chunk planning, card validation and the
//! text rules of retrieval, each with its contract.

pub mod analysis;
pub mod card;
pub mod comrak_ast;
pub mod config;
pub mod daemon;
pub mod dataset;
pub mod diff;
pub mod docsqa;
pub mod embed;
pub mod error;
pub mod eval;
pub mod hash;
pub mod json;
pub mod hot;
pub mod markdown;
pub mod pipeline;
pub mod mcp;
pub mod paired;
pub mod paths;
pub mod planner;
pub mod search;
pub mod sets;
pub mod split;
pub mod stale;
pub mod store;
pub mod text;
pub mod timefmt;
pub mod upsert;
pub mod validate;
pub mod walk;
pub mod watch;
