//! The store's identifiers, names and query escaping: the parts of persistence that decide
//! something without touching the database.

use vstd::prelude::*;
use crate::hash::{blake3_hex, blake3_hex_of, is_hex_digest};
use crate::text::{join, join_of, push_char, push_str, replace_char, replace_char_of, same_text, split_words, texts, words_of};

verus! {

/// A relative path with `\` written as `/`.
pub open spec fn normalise_rel_path_of(rel_path: Seq<char>) -> Seq<char> {
    replace_char_of(rel_path, '\\', '/')
}

/// Document identifier: the first 16 hex digits of blake3 over the relative path with
/// forward slashes.
pub open spec fn doc_id_of(rel_path: Seq<char>) -> Seq<char> {
    blake3_hex_of(normalise_rel_path_of(rel_path)).take(16)
}

/// Document identifier for a relative path (see [`doc_id_of`]).
pub fn doc_id_for(rel_path: &str) -> (id: String)
    ensures
        id@ == doc_id_of(rel_path@),
        id@.len() == 16,
        forall|i: int| 0 <= i < 16 ==> crate::hash::is_lower_hex(#[trigger] id@[i]),
{
    let normalised = replace_char(rel_path, '\\', '/');
    let hex = blake3_hex(normalised.as_str());
    let v = crate::text::chars_of(hex.as_str());
    let id = crate::text::string_of_range(&v, 0, 16);
    assert(v@.subrange(0, 16) =~= hex@.take(16));
    id
}

/// A path and the same path written with backslashes name one document.
pub proof fn law_doc_id_ignores_separator_style(rel_path: Seq<char>)
    ensures
        doc_id_of(rel_path) == doc_id_of(replace_char_of(rel_path, '\\', '/')),
        doc_id_of(rel_path).len() == 16 <== is_hex_digest(blake3_hex_of(normalise_rel_path_of(rel_path))),
{
    assert(replace_char_of(replace_char_of(rel_path, '\\', '/'), '\\', '/') =~= replace_char_of(rel_path, '\\', '/'));
}

/// Section identifier: `<doc_id>#<index>`.
pub open spec fn section_id_of(doc_id: Seq<char>, index: u32) -> Seq<char> {
    doc_id + "#"@ + crate::planner::decimal_of(index as nat)
}

/// Section identifier: `<doc_id>#<index>`.
pub fn section_id_for(doc_id: &str, index: u32) -> (id: String)
    ensures
        id@ == section_id_of(doc_id@, index),
{
    proof {
        reveal_strlit("#");
    }
    let mut id = doc_id.to_owned();
    push_char(&mut id, '#');
    let d = crate::planner::decimal(index as u64);
    push_str(&mut id, d.as_str());
    id
}

/// `t` with every `"` doubled.
pub open spec fn double_quotes_of(t: Seq<char>) -> Seq<char>
    decreases t.len(),
{
    if t.len() == 0 {
        t
    } else if t.last() == '"' {
        double_quotes_of(t.drop_last()) + seq!['"', '"']
    } else {
        double_quotes_of(t.drop_last()).push(t.last())
    }
}

/// One word as an FTS5 phrase: quoted with inner quotes doubled, a trailing `*` kept
/// outside the quotes as a prefix request; nothing for a word that is only `*`.
pub open spec fn fts_term_of(w: Seq<char>) -> Seq<Seq<char>> {
    let prefix = w.len() > 0 && w.last() == '*';
    let term = if prefix { w.drop_last() } else { w };
    if term.len() == 0 {
        Seq::empty()
    } else {
        seq![seq!['"'] + double_quotes_of(term) + seq!['"'] + if prefix { seq!['*'] } else { Seq::empty() }]
    }
}

/// The phrases of a list of words, in order.
pub open spec fn fts_terms_of(ws: Seq<Seq<char>>) -> Seq<Seq<char>>
    decreases ws.len(),
{
    if ws.len() == 0 {
        Seq::empty()
    } else {
        fts_terms_of(ws.drop_last()) + fts_term_of(ws.last())
    }
}

/// Arbitrary user text as an FTS5 `MATCH` expression that cannot be misparsed: each word a
/// quoted phrase (see [`fts_term_of`]), joined by spaces (AND).
pub open spec fn fts_escape_of(q: Seq<char>) -> Seq<char> {
    join_of(fts_terms_of(words_of(q)), " "@)
}

fn fts_term(w: &str) -> (r: Option<String>)
    ensures
        match r {
            Some(s) => fts_term_of(w@) == seq![s@],
            None => fts_term_of(w@).len() == 0,
        },
{
    let v = crate::text::chars_of(w);
    let prefix = v.len() > 0 && v[v.len() - 1] == '*';
    let n = if prefix { v.len() - 1 } else { v.len() };
    if n == 0 {
        return None;
    }
    assert(v@.subrange(0, n as int) =~= if prefix { w@.drop_last() } else { w@ });
    let mut out = String::new();
    push_char(&mut out, '"');
    let mut i: usize = 0;
    while i < n
        invariant
            0 <= i <= n <= v.len(),
            out@ == seq!['"'] + double_quotes_of(v@.subrange(0, i as int)),
        decreases n - i,
    {
        proof {
            assert(v@.subrange(0, i + 1).drop_last() =~= v@.subrange(0, i as int));
            assert(v@.subrange(0, i + 1).last() == v@[i as int]);
        }
        if v[i] == '"' {
            push_char(&mut out, '"');
            push_char(&mut out, '"');
            assert(out@ =~= seq!['"'] + double_quotes_of(v@.subrange(0, i + 1)));
        } else {
            push_char(&mut out, v[i]);
            assert(out@ =~= seq!['"'] + double_quotes_of(v@.subrange(0, i + 1)));
        }
        i = i + 1;
    }
    push_char(&mut out, '"');
    if prefix {
        push_char(&mut out, '*');
    }
    assert(out@ =~= seq!['"'] + double_quotes_of(v@.subrange(0, n as int)) + seq!['"'] + if prefix { seq!['*'] } else { Seq::empty() });
    Some(out)
}

/// Turn arbitrary user text into an FTS5 `MATCH` expression that cannot be misparsed (see
/// [`fts_escape_of`]). Text with no terms gives the empty string.
pub fn fts_escape(user_query: &str) -> (r: String)
    ensures
        r@ == fts_escape_of(user_query@),
{
    let words = split_words(user_query);
    let ghost ws = texts(words@);
    let mut terms: Vec<String> = Vec::new();
    let mut i: usize = 0;
    while i < words.len()
        invariant
            0 <= i <= words.len(),
            ws == texts(words@),
            texts(terms@) == fts_terms_of(ws.take(i as int)),
        decreases words.len() - i,
    {
        proof {
            assert(ws.take(i + 1).drop_last() =~= ws.take(i as int));
            assert(ws.take(i + 1).last() == words@[i as int]@);
        }
        let ghost t0 = texts(terms@);
        match fts_term(words[i].as_str()) {
            Some(t) => {
                terms.push(t);
                assert(texts(terms@) =~= t0 + fts_term_of(words@[i as int]@));
            },
            None => {
                assert(texts(terms@) =~= t0 + fts_term_of(words@[i as int]@));
            },
        }
        i = i + 1;
    }
    assert(ws.take(words.len() as int) =~= ws);
    join(&terms, " ")
}

/// Result of upserting a document.
#[derive(Debug, Clone, PartialEq, Eq)]
pub struct UpsertOutcome {
    /// Identifier of the document row.
    pub doc_id: String,
    /// The document had no live row before.
    pub created: bool,
    /// The whole-document content hash differs from the stored one.
    pub changed: bool,
    /// Section hashes that had no summary row anywhere, deduplicated, in document order.
    pub new_hashes: Vec<String>,
    /// Sections whose hash already had a summary row but was not in this document before.
    pub reused: usize,
    /// Sections whose hash was already in this document before.
    pub unchanged: usize,
    /// Distinct hashes that were in this document before and are not any more.
    pub removed: usize,
}

/// Where a document's `created_at` came from.
#[derive(Debug, Clone, Copy, PartialEq, Eq, Structural)]
pub enum CreatedAtSource {
    /// The filesystem birth time.
    Birthtime,
    /// The time the store first saw the file.
    FirstSeen,
}

impl CreatedAtSource {
    /// The stored name.
    pub fn as_str(self) -> (s: &'static str)
        ensures
            s@ == match self {
                CreatedAtSource::Birthtime => "birthtime"@,
                CreatedAtSource::FirstSeen => "first_seen"@,
            },
    {
        match self {
            CreatedAtSource::Birthtime => "birthtime",
            CreatedAtSource::FirstSeen => "first_seen",
        }
    }

    /// Parse a stored name.
    pub fn parse(s: &str) -> (r: Option<CreatedAtSource>)
        ensures
            r == if s@ == "birthtime"@ {
                Some(CreatedAtSource::Birthtime)
            } else if s@ == "first_seen"@ {
                Some(CreatedAtSource::FirstSeen)
            } else {
                None
            },
    {
        if same_text(s, "birthtime") {
            Some(CreatedAtSource::Birthtime)
        } else if same_text(s, "first_seen") {
            Some(CreatedAtSource::FirstSeen)
        } else {
            None
        }
    }
}

/// Where a section is in the summarization lifecycle.
#[derive(Debug, Clone, Copy, PartialEq, Eq, Structural)]
pub enum SectionState {
    /// Waiting for a worker.
    Pending,
    /// A summary is attached.
    Summarized,
    /// The last attempt failed.
    Failed,
}

impl SectionState {
    /// The stored name.
    pub fn as_str(self) -> (s: &'static str)
        ensures
            s@ == match self {
                SectionState::Pending => "pending"@,
                SectionState::Summarized => "summarized"@,
                SectionState::Failed => "failed"@,
            },
    {
        match self {
            SectionState::Pending => "pending",
            SectionState::Summarized => "summarized",
            SectionState::Failed => "failed",
        }
    }

    /// Parse a stored name.
    pub fn parse(s: &str) -> (r: Option<SectionState>)
        ensures
            r == if s@ == "pending"@ {
                Some(SectionState::Pending)
            } else if s@ == "summarized"@ {
                Some(SectionState::Summarized)
            } else if s@ == "failed"@ {
                Some(SectionState::Failed)
            } else {
                None
            },
    {
        if same_text(s, "pending") {
            Some(SectionState::Pending)
        } else if same_text(s, "summarized") {
            Some(SectionState::Summarized)
        } else if same_text(s, "failed") {
            Some(SectionState::Failed)
        } else {
            None
        }
    }
}

/// A section waiting for a summary, with what the worker needs.
#[derive(Debug, Clone, PartialEq, Eq)]
pub struct PendingSection {
    /// Hash to summarize.
    pub section_hash: String,
    /// The lowest section id carrying the hash.
    pub section_id: String,
    /// Relative path of that section's document.
    pub rel_path: String,
    /// Heading path of that section.
    pub heading_path: Vec<String>,
    /// Text of that section.
    pub text: String,
    /// Rough token count of `text`.
    pub token_estimate: u32,
}

/// What happened, in the timeline.
#[derive(Debug, Clone, Copy, PartialEq, Eq, Structural)]
pub enum EventKind {
    /// A document row was created, or a tombstone was resurrected.
    DocCreated,
    /// A document's content hash changed.
    DocChanged,
    /// A document was tombstoned.
    DocDeleted,
    /// A document moved.
    DocRenamed,
    /// A summary was attached to a section.
    SectionSummarized,
    /// Summarizing a section failed.
    SectionFailed,
}

/// The stored name of an event kind.
pub open spec fn event_name(k: EventKind) -> Seq<char> {
    match k {
        EventKind::DocCreated => "doc_created"@,
        EventKind::DocChanged => "doc_changed"@,
        EventKind::DocDeleted => "doc_deleted"@,
        EventKind::DocRenamed => "doc_renamed"@,
        EventKind::SectionSummarized => "section_summarized"@,
        EventKind::SectionFailed => "section_failed"@,
    }
}

impl EventKind {
    /// The stored name.
    pub fn as_str(self) -> (s: &'static str)
        ensures
            s@ == event_name(self),
    {
        match self {
            EventKind::DocCreated => "doc_created",
            EventKind::DocChanged => "doc_changed",
            EventKind::DocDeleted => "doc_deleted",
            EventKind::DocRenamed => "doc_renamed",
            EventKind::SectionSummarized => "section_summarized",
            EventKind::SectionFailed => "section_failed",
        }
    }

    /// Parse a stored name: the kind whose name it is, if any.
    pub fn parse(s: &str) -> (r: Option<EventKind>)
        ensures
            match r {
                Some(k) => event_name(k) == s@,
                None => forall|k: EventKind| event_name(k) != s@,
            },
    {
        let all = [
            EventKind::DocCreated,
            EventKind::DocChanged,
            EventKind::DocDeleted,
            EventKind::DocRenamed,
            EventKind::SectionSummarized,
            EventKind::SectionFailed,
        ];
        let mut i: usize = 0;
        while i < 6
            invariant
                0 <= i <= 6,
                all@ == seq![
                    EventKind::DocCreated,
                    EventKind::DocChanged,
                    EventKind::DocDeleted,
                    EventKind::DocRenamed,
                    EventKind::SectionSummarized,
                    EventKind::SectionFailed,
                ],
                forall|j: int| 0 <= j < i ==> event_name(#[trigger] all@[j]) != s@,
            decreases 6 - i,
        {
            let k = all[i];
            if same_text(k.as_str(), s) {
                return Some(k);
            }
            i = i + 1;
        }
        proof {
            assert forall|k: EventKind| event_name(k) != s@ by {
                match k {
                    EventKind::DocCreated => assert(all@[0] == k),
                    EventKind::DocChanged => assert(all@[1] == k),
                    EventKind::DocDeleted => assert(all@[2] == k),
                    EventKind::DocRenamed => assert(all@[3] == k),
                    EventKind::SectionSummarized => assert(all@[4] == k),
                    EventKind::SectionFailed => assert(all@[5] == k),
                }
            }
        }
        None
    }
}

} // verus!
