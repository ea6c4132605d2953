//! The markdown syntax tree, as the parser stage reads it.
//!
//! `comrak` parses the text; what the sectioning logic needs from its tree is flattened here
//! into plain values. Three views of one parse are taken, each per node in pre-order: the
//! open/close walk with node names and source lines, a small number (heading level, HTML
//! block type, fenced flag) and a literal (text, code, front matter, info string, link
//! destination). [`comrak_events`] zips them into [`AstEvent`]s.

use vstd::prelude::*;
use comrak::arena_tree::NodeEdge;
use comrak::nodes::NodeValue;
use comrak::options::Extension;
use comrak::Options;

verus! {

/// What the sectioning logic distinguishes among the node kinds of the tree.
#[derive(Debug, Clone, PartialEq, Eq)]
pub enum NodeKind {
    /// YAML (or TOML) front matter, raw, fences included.
    FrontMatter(String),
    /// An ATX or setext heading of the given level.
    Heading(u8),
    /// A raw HTML block of the given `CommonMark` block type (1–7).
    HtmlBlock(u8),
    /// A code block: whether it is fenced, and its info string.
    CodeBlock(bool, String),
    /// A GFM table.
    Table,
    /// A link, with its destination.
    Link(String),
    /// Literal text.
    Text(String),
    /// An inline code span, with its literal.
    Code(String),
    /// A soft or hard line break.
    Break,
    /// Anything else (the document root, paragraphs, lists, emphasis, …).
    Other,
}

/// One step of a pre-order walk: a node opens (with its kind and 1-based source lines) or
/// the most recently opened node closes.
#[derive(Debug, Clone, PartialEq, Eq)]
pub struct AstEvent {
    /// `true` for an opening event, `false` for a closing one.
    pub open: bool,
    /// The node's kind (`Other` for closing events).
    pub kind: NodeKind,
    /// First source line of the node (0 for closing events).
    pub start_line: usize,
    /// Last source line of the node (0 for closing events).
    pub end_line: usize,
}

/// The Markdown dialect the library reads: front matter fenced by this delimiter.
pub const FRONT_MATTER_DELIMITER: &'static str = "---";

/// GFM tables are read.
pub const TABLES: bool = true;

/// GFM strikethrough is read.
pub const STRIKETHROUGH: bool = true;

/// GFM task lists are read.
pub const TASKLISTS: bool = true;

/// Footnotes are read.
pub const FOOTNOTES: bool = true;

/// The traversal of the tree `comrak` builds for `text` under the given dialect (front
/// matter delimiter and extension flags): per edge, whether it opens a node,
/// the node's first and last source line, and the node's name.
pub uninterp spec fn comrak_walk_of(text: Seq<char>, delimiter: Seq<char>, table: bool, strikethrough: bool, tasklist: bool, footnotes: bool) -> Seq<(bool, usize, usize, String)>;

/// Per node of the same tree in pre-order: heading level, HTML block type, `1` for a fenced
/// code block, `0` otherwise.
pub uninterp spec fn comrak_numbers_of(text: Seq<char>, delimiter: Seq<char>, table: bool, strikethrough: bool, tasklist: bool, footnotes: bool) -> Seq<u8>;

/// Per node of the same tree in pre-order: the literal of a text or code node, the raw front
/// matter, the info string of a code block, the destination of a link, or the empty string.
pub uninterp spec fn comrak_literals_of(text: Seq<char>, delimiter: Seq<char>, table: bool, strikethrough: bool, tasklist: bool, footnotes: bool) -> Seq<String>;

/// Calls `comrak::parse_document` with `Options` whose extensions are the given dialect
/// (front matter delimiter, tables, strikethrough, task lists, footnotes; everything else
/// default) and `Node::traverse`; each edge becomes its direction, the
/// node's `sourcepos` lines and `NodeValue::xml_node_name`. The contract names the result;
/// what the parser builds is the `CommonMark` and GFM specifications.
#[verifier::external_body]
fn comrak_walk(text: &str, delimiter: &str, table: bool, strikethrough: bool, tasklist: bool, footnotes: bool) -> (walk: Vec<(bool, usize, usize, String)>)
    ensures
        walk@ == comrak_walk_of(text@, delimiter@, table, strikethrough, tasklist, footnotes),
{
    let o = Options { extension: Extension { front_matter_delimiter: Some(delimiter.to_owned()), table,
        strikethrough, tasklist, footnotes, ..Default::default() }, ..Default::default() };
    let arena = comrak::Arena::new();
    comrak::parse_document(&arena, text, &o).traverse().map(|edge| match edge {
        NodeEdge::Start(n) => {
            let d = n.data.borrow();
            (true, d.sourcepos.start.line, d.sourcepos.end.line, d.value.xml_node_name().to_owned())
        }
        NodeEdge::End(_) => (false, 0, 0, String::new()),
    }).collect()
}

/// Same parse as [`comrak_walk`]; `Node::descendants` of the root, each node's value read for
/// its number (see [`comrak_numbers_of`]). The contract names the result.
#[verifier::external_body]
fn comrak_numbers(text: &str, delimiter: &str, table: bool, strikethrough: bool, tasklist: bool, footnotes: bool) -> (numbers: Vec<u8>)
    ensures
        numbers@ == comrak_numbers_of(text@, delimiter@, table, strikethrough, tasklist, footnotes),
{
    let o = Options { extension: Extension { front_matter_delimiter: Some(delimiter.to_owned()), table,
        strikethrough, tasklist, footnotes, ..Default::default() }, ..Default::default() };
    let arena = comrak::Arena::new();
    comrak::parse_document(&arena, text, &o).descendants().map(|n| match &n.data.borrow().value {
        NodeValue::Heading(h) => h.level,
        NodeValue::HtmlBlock(b) => b.block_type,
        NodeValue::CodeBlock(c) => u8::from(c.fenced),
        _ => 0,
    }).collect()
}

/// Same parse as [`comrak_walk`]; `Node::descendants` of the root, each node's value read for
/// its literal (see [`comrak_literals_of`]). The contract names the result.
#[verifier::external_body]
fn comrak_literals(text: &str, delimiter: &str, table: bool, strikethrough: bool, tasklist: bool, footnotes: bool) -> (literals: Vec<String>)
    ensures
        literals@ == comrak_literals_of(text@, delimiter@, table, strikethrough, tasklist, footnotes),
{
    let o = Options { extension: Extension { front_matter_delimiter: Some(delimiter.to_owned()), table,
        strikethrough, tasklist, footnotes, ..Default::default() }, ..Default::default() };
    let arena = comrak::Arena::new();
    comrak::parse_document(&arena, text, &o).descendants().map(|n| match &n.data.borrow().value {
        NodeValue::Text(t) => t.to_string(),
        NodeValue::Code(c) => c.literal.clone(),
        NodeValue::FrontMatter(s) => s.clone(),
        NodeValue::CodeBlock(c) => c.info.clone(),
        NodeValue::Link(l) => l.url.clone(),
        _ => String::new(),
    }).collect()
}

/// The kind of a node from its name, number and literal.
pub open spec fn kind_from(name: Seq<char>, number: u8, literal: String) -> NodeKind {
    if name == "frontmatter"@ {
        NodeKind::FrontMatter(literal)
    } else if name == "heading"@ {
        NodeKind::Heading(number)
    } else if name == "html_block"@ {
        NodeKind::HtmlBlock(number)
    } else if name == "code_block"@ {
        NodeKind::CodeBlock(number == 1, literal)
    } else if name == "table"@ {
        NodeKind::Table
    } else if name == "link"@ {
        NodeKind::Link(literal)
    } else if name == "text"@ {
        NodeKind::Text(literal)
    } else if name == "code"@ {
        NodeKind::Code(literal)
    } else if name == "softbreak"@ || name == "linebreak"@ {
        NodeKind::Break
    } else {
        NodeKind::Other
    }
}

fn str_eq(a: &String, b: &str) -> (r: bool)
    ensures
        r == (a@ == b@),
{
    let av = crate::text::chars_of(a.as_str());
    let bv = crate::text::chars_of(b);
    if av.len() != bv.len() {
        return false;
    }
    let mut i: usize = 0;
    while i < av.len()
        invariant
            0 <= i <= av.len() == bv.len(),
            av@ == a@,
            bv@ == b@,
            forall|j: int| 0 <= j < i ==> av@[j] == bv@[j],
        decreases av.len() - i,
    {
        if av[i] != bv[i] {
            return false;
        }
        i = i + 1;
    }
    assert(av@ =~= bv@);
    true
}

fn kind_of(name: &String, number: u8, literal: String) -> (k: NodeKind)
    ensures
        k == kind_from(name@, number, literal),
{
    proof {
        reveal_strlit("frontmatter");
        reveal_strlit("heading");
        reveal_strlit("html_block");
        reveal_strlit("code_block");
        reveal_strlit("table");
        reveal_strlit("link");
        reveal_strlit("text");
        reveal_strlit("code");
        reveal_strlit("softbreak");
        reveal_strlit("linebreak");
    }
    if str_eq(name, "frontmatter") {
        NodeKind::FrontMatter(literal)
    } else if str_eq(name, "heading") {
        NodeKind::Heading(number)
    } else if str_eq(name, "html_block") {
        NodeKind::HtmlBlock(number)
    } else if str_eq(name, "code_block") {
        NodeKind::CodeBlock(number == 1, literal)
    } else if str_eq(name, "table") {
        NodeKind::Table
    } else if str_eq(name, "link") {
        NodeKind::Link(literal)
    } else if str_eq(name, "text") {
        NodeKind::Text(literal)
    } else if str_eq(name, "code") {
        NodeKind::Code(literal)
    } else if str_eq(name, "softbreak") || str_eq(name, "linebreak") {
        NodeKind::Break
    } else {
        NodeKind::Other
    }
}

/// The events of the parse of `text`: the walk, with each opening edge's kind read from the
/// `k`-th number and literal, `k` counting the opening edges before it.
pub open spec fn events_from(
    walk: Seq<(bool, usize, usize, String)>,
    numbers: Seq<u8>,
    literals: Seq<String>,
) -> Seq<AstEvent>
    decreases walk.len(),
{
    if walk.len() == 0 {
        Seq::empty()
    } else {
        let prev = events_from(walk.drop_last(), numbers, literals);
        let k = opens_in(walk.drop_last());
        let w = walk.last();
        let ev = if w.0 && k < numbers.len() && k < literals.len() {
            AstEvent { open: true, kind: kind_from(w.3@, numbers[k as int], literals[k as int]), start_line: w.1, end_line: w.2 }
        } else if w.0 {
            AstEvent { open: true, kind: NodeKind::Other, start_line: w.1, end_line: w.2 }
        } else {
            AstEvent { open: false, kind: NodeKind::Other, start_line: 0, end_line: 0 }
        };
        prev.push(ev)
    }
}

/// Number of opening edges in a walk.
pub open spec fn opens_in(walk: Seq<(bool, usize, usize, String)>) -> nat
    decreases walk.len(),
{
    if walk.len() == 0 {
        0
    } else {
        opens_in(walk.drop_last()) + if walk.last().0 { 1nat } else { 0nat }
    }
}

/// The events of the tree `comrak` builds for `text`.
pub open spec fn comrak_events_of(text: Seq<char>) -> Seq<AstEvent> {
    events_from(
        comrak_walk_of(text, FRONT_MATTER_DELIMITER@, TABLES, STRIKETHROUGH, TASKLISTS, FOOTNOTES),
        comrak_numbers_of(text, FRONT_MATTER_DELIMITER@, TABLES, STRIKETHROUGH, TASKLISTS, FOOTNOTES),
        comrak_literals_of(text, FRONT_MATTER_DELIMITER@, TABLES, STRIKETHROUGH, TASKLISTS, FOOTNOTES),
    )
}

/// Parse `text` and return the pre-order walk of its tree as events.
pub fn comrak_events(text: &str) -> (events: Vec<AstEvent>)
    ensures
        events@ == comrak_events_of(text@),
{
    let walk = comrak_walk(text, FRONT_MATTER_DELIMITER, TABLES, STRIKETHROUGH, TASKLISTS, FOOTNOTES);
    let numbers = comrak_numbers(text, FRONT_MATTER_DELIMITER, TABLES, STRIKETHROUGH, TASKLISTS, FOOTNOTES);
    let literals = comrak_literals(text, FRONT_MATTER_DELIMITER, TABLES, STRIKETHROUGH, TASKLISTS, FOOTNOTES);
    let mut events: Vec<AstEvent> = Vec::new();
    let mut k: usize = 0;
    let mut i: usize = 0;
    while i < walk.len()
        invariant
            0 <= i <= walk.len(),
            walk@ == comrak_walk_of(text@, FRONT_MATTER_DELIMITER@, TABLES, STRIKETHROUGH, TASKLISTS, FOOTNOTES),
            numbers@ == comrak_numbers_of(text@, FRONT_MATTER_DELIMITER@, TABLES, STRIKETHROUGH, TASKLISTS, FOOTNOTES),
            literals@ == comrak_literals_of(text@, FRONT_MATTER_DELIMITER@, TABLES, STRIKETHROUGH, TASKLISTS, FOOTNOTES),
            k == opens_in(walk@.take(i as int)),
            k <= i,
            events@ == events_from(walk@.take(i as int), numbers@, literals@),
        decreases walk.len() - i,
    {
        let w = &walk[i];
        proof {
            assert(walk@.take(i + 1).drop_last() =~= walk@.take(i as int));
            assert(walk@.take(i + 1).last() == walk@[i as int]);
        }
        let ev = if w.0 && k < numbers.len() && k < literals.len() {
            AstEvent { open: true, kind: kind_of(&w.3, numbers[k], literals[k].clone()), start_line: w.1, end_line: w.2 }
        } else if w.0 {
            AstEvent { open: true, kind: NodeKind::Other, start_line: w.1, end_line: w.2 }
        } else {
            AstEvent { open: false, kind: NodeKind::Other, start_line: 0, end_line: 0 }
        };
        if w.0 {
            k = k + 1;
        }
        events.push(ev);
        i = i + 1;
    }
    assert(walk@.take(walk.len() as int) =~= walk@);
    events
}

} // verus!
