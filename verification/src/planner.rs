//! Turn sections into model-sized chunks.
//!
//! One section is one chunk. Sections larger than the budget are truncated at a paragraph
//! boundary, never inside a fenced code block, and the chunk is flagged so the card's
//! provenance records that the model saw a prefix.

use vstd::prelude::*;
use crate::markdown::{
    blank, lemma_lines_of_len, lines_of, split_lines, str_lines_of, token_estimate, tokens_of,
    Document, Section,
};
use crate::text::{
    chars_of, has_prefix, is_ws, join, join_of, lemma_trim_empty_iff_all_ws, lemma_trim_start, push_char, push_str,
    texts, trim_start,
};

verus! {

/// Budget for one model call.
#[derive(Debug, Clone, Copy, PartialEq, Eq, Structural)]
pub struct PlanConfig {
    /// Largest chunk the model receives, in estimated tokens. Text beyond it is cut.
    pub max_tokens: u32,
}

impl Default for PlanConfig {
    fn default() -> (c: Self)
        ensures
            c.max_tokens == 6000,
    {
        PlanConfig { max_tokens: 6000 }
    }
}

/// One unit of work for the summarizer.
#[derive(Debug, Clone, PartialEq, Eq)]
pub struct Chunk {
    /// Hash of the section this chunk represents.
    pub section_hash: String,
    /// Position of the section in the document.
    pub section_index: u32,
    /// Headings down to the section, for context.
    pub heading_path: Vec<String>,
    /// Text the model receives.
    pub text: String,
    /// Estimated tokens of `text`.
    pub token_estimate: u32,
    /// `true` when `text` is a prefix of the section, not the whole of it.
    pub truncated: bool,
}

/// A line that opens or closes a fenced code block: after its indent, three backticks or
/// three tildes.
pub open spec fn is_fence_of(line: Seq<char>) -> bool {
    has_prefix(trim_start(line), "```"@) || has_prefix(trim_start(line), "~~~"@)
}

fn is_fence(line: &str) -> (b: bool)
    ensures
        b == is_fence_of(line@),
{
    let v = chars_of(line);
    let b = crate::text::trim_start_index(&v, 0, v.len());
    assert(v@.subrange(0, v.len() as int) =~= line@);
    crate::text::starts_with_at(&v, b, v.len(), "```") || crate::text::starts_with_at(&v, b, v.len(), "~~~")
}

/// The scan over a section's lines: characters taken so far (each line plus its newline),
/// whether a fence is open and where it opened, the last blank line outside fences, and
/// whether the budget has stopped the scan.
pub struct PlanScan {
    /// Characters taken so far.
    pub chars: nat,
    /// Inside a fenced code block.
    pub in_fence: bool,
    /// Index of the line that opened the current fence.
    pub open: Option<nat>,
    /// Index of the last blank line outside fences (0 when none).
    pub last: nat,
    /// The next line did not fit.
    pub stopped: bool,
}

/// The scan after lines `0..n` of `lines`, with room for `max` characters.
pub open spec fn plan_scan(lines: Seq<Seq<char>>, n: int, max: nat) -> PlanScan
    decreases n,
{
    if n <= 0 {
        PlanScan { chars: 0, in_fence: false, open: None, last: 0, stopped: false }
    } else {
        let st = plan_scan(lines, n - 1, max);
        let line = lines[n - 1];
        let next = st.chars + line.len() + 1;
        if st.stopped || next > max {
            PlanScan { stopped: true, ..st }
        } else {
            let (in_fence, open) = if is_fence_of(line) {
                if st.in_fence { (false, None) } else { (true, Some((n - 1) as nat)) }
            } else {
                (st.in_fence, st.open)
            };
            let last = if blank(line) && !in_fence { (n - 1) as nat } else { st.last };
            PlanScan { chars: next, in_fence, open, last, stopped: false }
        }
    }
}

/// How many lines a cut section keeps: up to the last blank line before the budget that is
/// not inside a fence (backing up before a fence the budget stopped inside), and at least
/// the first line.
pub open spec fn kept_lines(lines: Seq<Seq<char>>, max: nat) -> nat {
    let st = plan_scan(lines, lines.len() as int, max);
    let l1 = match st.open {
        Some(o) => if st.in_fence && o < st.last { o } else { st.last },
        None => st.last,
    };
    if l1 == 0 {
        if lines.len() >= 1 { 1 } else { 0 }
    } else {
        l1
    }
}

/// Whether a fenced code block is open after the first `k` lines.
pub open spec fn fence_open_after(lines: Seq<Seq<char>>, k: int) -> bool
    decreases k,
{
    if k <= 0 {
        false
    } else if is_fence_of(lines[k - 1]) {
        !fence_open_after(lines, k - 1)
    } else {
        fence_open_after(lines, k - 1)
    }
}

/// A line is a fence exactly when, after its leading whitespace, it starts with three
/// backticks or with three tildes.
pub proof fn law_fence_lines_are_backtick_or_tilde_runs(line: Seq<char>)
    ensures
        is_fence_of(line) <==> {
            let t = trim_start(line);
            t.len() >= 3 && ((t[0] == '`' && t[1] == '`' && t[2] == '`') || (t[0] == '~' && t[1] == '~' && t[2] == '~'))
        },
{
    let t = trim_start(line);
    reveal_strlit("```");
    reveal_strlit("~~~");
    if t.len() >= 3 {
        if t[0] == '`' && t[1] == '`' && t[2] == '`' {
            assert(t.subrange(0, 3) =~= "```"@);
        }
        if t[0] == '~' && t[1] == '~' && t[2] == '~' {
            assert(t.subrange(0, 3) =~= "~~~"@);
        }
        if has_prefix(t, "```"@) {
            assert(t.subrange(0, 3)[0] == t[0] && t.subrange(0, 3)[1] == t[1] && t.subrange(0, 3)[2] == t[2]);
        }
        if has_prefix(t, "~~~"@) {
            assert(t.subrange(0, 3)[0] == t[0] && t.subrange(0, 3)[1] == t[1] && t.subrange(0, 3)[2] == t[2]);
        }
    }
}

/// Every fence line, of backticks or of tildes, flips whether a fenced block is open; any
/// other line leaves it as it was.
pub proof fn law_fence_lines_toggle_the_block(lines: Seq<Seq<char>>, k: int)
    requires
        0 <= k < lines.len(),
    ensures
        ({
            let t = trim_start(lines[k]);
            let fence = t.len() >= 3 && ((t[0] == '`' && t[1] == '`' && t[2] == '`') || (t[0] == '~' && t[1] == '~'
                && t[2] == '~'));
            fence_open_after(lines, k + 1) == if fence { !fence_open_after(lines, k) } else { fence_open_after(lines, k) }
        }),
{
    law_fence_lines_are_backtick_or_tilde_runs(lines[k]);
}

/// The characters of the first `k` lines, each with its newline.
pub open spec fn prefix_chars(lines: Seq<Seq<char>>, k: int) -> nat
    decreases k,
{
    if k <= 0 {
        0
    } else {
        prefix_chars(lines, k - 1) + lines[k - 1].len() + 1
    }
}

proof fn lemma_plan_scan(lines: Seq<Seq<char>>, n: int, max: nat)
    requires
        0 <= n <= lines.len(),
    ensures
        ({
            let st = plan_scan(lines, n, max);
            &&& st.chars <= max
            &&& !st.stopped ==> st.chars == prefix_chars(lines, n) && st.in_fence == fence_open_after(lines, n)
            &&& st.last != 0 ==> {
                &&& st.last < n
                &&& blank(lines[st.last as int])
                &&& !fence_open_after(lines, st.last as int)
                &&& prefix_chars(lines, st.last + 1int) <= st.chars
            }
            &&& st.in_fence ==> (st.open matches Some(o) && st.last <= o)
        }),
    decreases n,
{
    if n > 0 {
        lemma_plan_scan(lines, n - 1, max);
        let line = lines[n - 1];
        if blank(line) {
            lemma_trim_empty_iff_all_ws(line);
            lemma_trim_start(line);
            let t = trim_start(line);
            if t.len() > 0 {
                assert(t[0] == line[line.len() - t.len()]);
            }
            assert(!is_fence_of(line)) by {
                if t.len() >= 3 {
                    assert(t[0] == line[line.len() - t.len()]);
                    assert(is_ws(t[0]));
                    reveal_strlit("```");
                    reveal_strlit("~~~");
                    assert(!has_prefix(t, "```"@)) by {
                        assert("```"@[0] == '`');
                    }
                    assert(!has_prefix(t, "~~~"@)) by {
                        assert("~~~"@[0] == '~');
                    }
                } else {
                    reveal_strlit("```");
                    reveal_strlit("~~~");
                }
            }
        }
    }
}

/// Where a cut section ends: it keeps at least its first line, and when it keeps more, the
/// line right after what it keeps is blank, outside every fenced code block, and what it
/// keeps (with that blank line) fits the budget of `max` characters. The cut never falls
/// inside a fence.
pub proof fn law_cut_falls_on_a_blank_line_outside_fences(lines: Seq<Seq<char>>, max: nat)
    requires
        lines.len() >= 1,
    ensures
        ({
            let k = kept_lines(lines, max) as int;
            &&& 1 <= k <= lines.len()
            &&& k == 1 || (k < lines.len() && blank(lines[k]) && !fence_open_after(lines, k)
                && prefix_chars(lines, k + 1) <= max)
        }),
{
    lemma_plan_scan(lines, lines.len() as int, max);
}

/// The decimal digits of `n`.
pub open spec fn decimal_of(n: nat) -> Seq<char>
    decreases n,
{
    if n < 10 {
        seq![digit_of(n)]
    } else {
        decimal_of(n / 10) + seq![digit_of(n % 10)]
    }
}

/// The ASCII digit for `d < 10`.
pub open spec fn digit_of(d: nat) -> char {
    if d == 0 { '0' } else if d == 1 { '1' } else if d == 2 { '2' } else if d == 3 { '3' } else if d
        == 4 { '4' } else if d == 5 { '5' } else if d == 6 { '6' } else if d == 7 { '7' } else if d
        == 8 { '8' } else { '9' }
}

fn digit(d: u64) -> (c: char)
    ensures
        c == digit_of(d as nat),
{
    if d == 0 { '0' } else if d == 1 { '1' } else if d == 2 { '2' } else if d == 3 { '3' } else if d
        == 4 { '4' } else if d == 5 { '5' } else if d == 6 { '6' } else if d == 7 { '7' } else if d
        == 8 { '8' } else { '9' }
}

/// `n` in decimal.
pub fn decimal(n: u64) -> (s: String)
    ensures
        s@ == decimal_of(n as nat),
    decreases n,
{
    if n < 10 {
        let mut s = String::new();
        push_char(&mut s, digit(n));
        s
    } else {
        let mut s = decimal(n / 10);
        push_char(&mut s, digit(n % 10));
        s
    }
}

/// The text of a cut section: the kept lines joined by `\n`, then a marker naming how many
/// lines were dropped.
pub open spec fn truncated_of(text: Seq<char>, max_tokens: u32) -> Seq<char> {
    let lines = str_lines_of(text);
    let max = if max_tokens * 4 > usize::MAX { usize::MAX as nat } else { (max_tokens * 4) as nat };
    let k = kept_lines(lines, max);
    join_of(lines.take(k as int), "\n"@) + "\n\n[… section truncated for summarization: "@
        + decimal_of((lines.len() - k) as nat) + " more lines not shown]"@
}

/// The lines of `text` as `str::lines` yields them.
pub fn str_lines(text: &str) -> (r: Vec<String>)
    ensures
        texts(r@) == str_lines_of(text@),
{
    let v = chars_of(text);
    let pieces = split_lines(&v);
    proof {
        lemma_lines_of_len(v@);
    }
    let n = if v.len() == 0 {
        0
    } else if v[v.len() - 1] == '\n' {
        pieces.len() - 1
    } else {
        pieces.len()
    };
    let mut out: Vec<String> = Vec::new();
    let mut i: usize = 0;
    while i < n
        invariant
            0 <= i <= n <= pieces.len(),
            texts(pieces@) == lines_of(v@),
            v@ == text@,
            n == str_lines_of(text@).len(),
            out.len() == i,
            forall|j: int| 0 <= j < i ==> (#[trigger] out@[j])@ == str_lines_of(text@)[j],
        decreases n - i,
    {
        let pv = chars_of(pieces[i].as_str());
        assert(pv@ == texts(pieces@)[i as int]);
        let line = if pv.len() > 0 && pv[pv.len() - 1] == '\r' {
            crate::text::string_of_range(&pv, 0, pv.len() - 1)
        } else {
            crate::text::string_of(&pv)
        };
        if pv.len() > 0 {
            assert(pv@.subrange(0, pv.len() - 1) =~= pv@.drop_last());
        }
        out.push(line);
        i = i + 1;
    }
    assert(texts(out@) =~= str_lines_of(text@));
    out
}

/// Cut `text` to at most `max_tokens` estimated tokens at the last blank line before the
/// limit that is not inside a fenced code block, and append a marker naming how many lines
/// were dropped.
fn truncate_at_paragraph(text: &str, max_tokens: u32) -> (r: String)
    ensures
        r@ == truncated_of(text@, max_tokens),
{
    let lines = str_lines(text);
    let ghost ls = texts(lines@);
    let mt = max_tokens as usize;
    let max_chars: usize = if mt > usize::MAX / 4 { usize::MAX } else { mt * 4 };
    assert(max_chars as nat == if max_tokens * 4 > usize::MAX { usize::MAX as nat } else { (max_tokens * 4) as nat });
    let mut chars_so_far: usize = 0;
    let mut in_fence = false;
    let mut fence_open: Option<usize> = None;
    let mut last_boundary: usize = 0;
    let mut stopped = false;
    let mut i: usize = 0;
    while i < lines.len()
        invariant
            0 <= i <= lines.len(),
            ls == texts(lines@),
            chars_so_far <= max_chars,
            last_boundary <= i,
            plan_scan(ls, i as int, max_chars as nat) == (PlanScan {
                chars: chars_so_far as nat,
                in_fence,
                open: match fence_open { Some(o) => Some(o as nat), None => None },
                last: last_boundary as nat,
                stopped,
            }),
        decreases lines.len() - i,
    {
        let line = &lines[i];
        let len = chars_of(line.as_str()).len();
        if stopped || len >= max_chars - chars_so_far {
            stopped = true;
        } else {
            chars_so_far = chars_so_far + len + 1;
            if is_fence(line.as_str()) {
                if in_fence {
                    in_fence = false;
                    fence_open = None;
                } else {
                    in_fence = true;
                    fence_open = Some(i);
                }
            }
            let t = crate::text::trimmed(line.as_str());
            if crate::text::is_empty_text(t.as_str()) && !in_fence {
                last_boundary = i;
            }
        }
        i = i + 1;
    }
    let mut k = last_boundary;
    if in_fence {
        match fence_open {
            Some(o) => if o < k {
                k = o;
            },
            None => {},
        }
    }
    if k == 0 {
        k = if lines.len() >= 1 { 1 } else { 0 };
    }
    assert(k == kept_lines(ls, max_chars as nat));
    let mut kept: Vec<String> = Vec::new();
    let mut j: usize = 0;
    while j < k
        invariant
            0 <= j <= k <= lines.len(),
            kept.len() == j,
            forall|a: int| 0 <= a < j ==> (#[trigger] kept@[a])@ == lines@[a]@,
        decreases k - j,
    {
        kept.push(lines[j].clone());
        j = j + 1;
    }
    assert(texts(kept@) =~= ls.take(k as int));
    let mut out = join(&kept, "\n");
    push_str(&mut out, "\n\n[… section truncated for summarization: ");
    let d = decimal((lines.len() - k) as u64);
    push_str(&mut out, d.as_str());
    push_str(&mut out, " more lines not shown]");
    out
}

/// Fit raw section text into the budget: the text itself when its estimate fits, else the
/// cut text (see [`truncated_of`]); and whether it was cut.
pub fn chunk_text(text: &str, cfg: &PlanConfig) -> (r: (String, bool))
    ensures
        r.1 == (tokens_of(text@) > cfg.max_tokens),
        r.0@ == if r.1 { truncated_of(text@, cfg.max_tokens) } else { text@ },
{
    if token_estimate(text) <= cfg.max_tokens {
        (text.to_owned(), false)
    } else {
        (truncate_at_paragraph(text, cfg.max_tokens), true)
    }
}

/// What a chunk says of the section it was planned for.
pub open spec fn chunk_fits(c: Chunk, s: Section, cfg: PlanConfig) -> bool {
    &&& c.section_hash@ == s.hash@
    &&& c.section_index == s.index
    &&& texts(c.heading_path@) == texts(s.heading_path@)
    &&& c.truncated == (tokens_of(s.text@) > cfg.max_tokens)
    &&& c.text@ == if c.truncated { truncated_of(s.text@, cfg.max_tokens) } else { s.text@ }
    &&& c.token_estimate == tokens_of(c.text@)
}

/// Plan a chunk for a single section.
pub fn chunk_for(section: &Section, cfg: &PlanConfig) -> (c: Chunk)
    ensures
        chunk_fits(c, *section, *cfg),
{
    let (text, truncated) = chunk_text(section.text.as_str(), cfg);
    let mut heading_path: Vec<String> = Vec::new();
    let mut i: usize = 0;
    while i < section.heading_path.len()
        invariant
            0 <= i <= section.heading_path.len(),
            heading_path.len() == i,
            forall|a: int| 0 <= a < i ==> (#[trigger] heading_path@[a])@ == section.heading_path@[a]@,
        decreases section.heading_path.len() - i,
    {
        heading_path.push(section.heading_path[i].clone());
        i = i + 1;
    }
    assert(texts(heading_path@) =~= texts(section.heading_path@));
    let token_estimate = token_estimate(text.as_str());
    Chunk {
        section_hash: section.hash.clone(),
        section_index: section.index,
        heading_path,
        token_estimate,
        text,
        truncated,
    }
}

/// Plan chunks for every section in the document, in document order.
pub fn plan(doc: &Document, cfg: &PlanConfig) -> (chunks: Vec<Chunk>)
    ensures
        chunks.len() == doc.sections.len(),
        forall|i: int| 0 <= i < chunks.len() ==> chunk_fits(#[trigger] chunks@[i], doc.sections@[i], *cfg),
{
    let mut chunks: Vec<Chunk> = Vec::new();
    let mut i: usize = 0;
    while i < doc.sections.len()
        invariant
            0 <= i <= doc.sections.len(),
            chunks.len() == i,
            forall|a: int| 0 <= a < i ==> chunk_fits(#[trigger] chunks@[a], doc.sections@[a], *cfg),
        decreases doc.sections.len() - i,
    {
        chunks.push(chunk_for(&doc.sections[i], cfg));
        i = i + 1;
    }
    chunks
}

} // verus!
