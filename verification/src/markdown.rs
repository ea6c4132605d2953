//! Markdown parsing into heading-delimited sections.
//!
//! A section starts at a heading and runs to the line before the next heading of any level.
//! Hierarchy is carried by [`Section::heading_path`], not by nesting, so every section has
//! one contiguous line range. Text before the first heading becomes a preamble section with
//! an empty heading path, if it has any non-blank content.
//!
//! MDX files (`.mdx`) are parsed as [`Flavor::Mdx`]: a leading block of `import`/`export`
//! statements is excluded from sections like front matter is, and the title falls back to
//! `export const title = "…"`. For both flavours an ATX heading line inside a raw HTML block
//! still starts a section, outside any fence, comment or `<pre>`-like element nested in that
//! block, and the title falls back to front matter `title:`.
//!
//! Hashes are computed over text with `\r\n` folded to `\n` and trailing whitespace stripped
//! from every line. Line numbers always refer to the file as it is on disk.

use vstd::prelude::*;
use crate::text::{
    all_ws, chars_of, contains_seq, eq_ignore_ascii_case, eq_ignore_ascii_case_of, find_at,
    find_of, has_prefix, is_whitespace, is_ws, join_of, push_char, push_range, push_str,
    starts_with_at, string_of_range, texts, trim, trim_end, trim_end_index, trim_start,
    trim_start_index, trimmed,
};
use crate::comrak_ast::{AstEvent, NodeKind};
use crate::walk::{path_extension, path_extension_of};

verus! {

// ---------------------------------------------------------------- line endings and lines

/// `s` with each `\r\n`, and then each remaining `\r`, turned into `\n`.
pub open spec fn normalize_newlines_of(s: Seq<char>) -> Seq<char>
    decreases s.len(),
{
    if s.len() == 0 {
        s
    } else if s[0] == '\r' && s.len() > 1 && s[1] == '\n' {
        seq!['\n'] + normalize_newlines_of(s.skip(2))
    } else if s[0] == '\r' {
        seq!['\n'] + normalize_newlines_of(s.drop_first())
    } else {
        seq![s[0]] + normalize_newlines_of(s.drop_first())
    }
}

/// `\r\n` and lone `\r` folded to `\n`.
pub fn normalize_newlines(text: &str) -> (r: Vec<char>)
    ensures
        r@ == normalize_newlines_of(text@),
{
    let v = chars_of(text);
    let mut out: Vec<char> = Vec::new();
    let mut i: usize = 0;
    assert(v@.skip(0) =~= v@);
    while i < v.len()
        invariant
            0 <= i <= v.len(),
            v@ == text@,
            normalize_newlines_of(v@) == out@ + normalize_newlines_of(v@.skip(i as int)),
        decreases v.len() - i,
    {
        let ghost s = v@.skip(i as int);
        assert(s[0] == v@[i as int]);
        if v[i] == '\r' && i + 1 < v.len() && v[i + 1] == '\n' {
            assert(s[1] == v@[i + 1]);
            assert(s.skip(2) =~= v@.skip(i + 2));
            out.push('\n');
            assert(out@ + normalize_newlines_of(v@.skip(i + 2)) =~= out@.drop_last() + (seq!['\n'] + normalize_newlines_of(s.skip(2))));
            i = i + 2;
        } else {
            let c = if v[i] == '\r' { '\n' } else { v[i] };
            assert(s.drop_first() =~= v@.skip(i + 1));
            out.push(c);
            assert(out@ + normalize_newlines_of(v@.skip(i + 1)) =~= out@.drop_last() + (seq![c] + normalize_newlines_of(s.drop_first())));
            i = i + 1;
        }
    }
    assert(v@.skip(v.len() as int) =~= Seq::<char>::empty());
    assert(out@ + Seq::<char>::empty() =~= out@);
    out
}

/// `s` with every `\n` written as `\r\n`.
pub open spec fn crlf_of(s: Seq<char>) -> Seq<char>
    decreases s.len(),
{
    if s.len() == 0 {
        s
    } else if s[0] == '\n' {
        seq!['\r', '\n'] + crlf_of(s.drop_first())
    } else {
        seq![s[0]] + crlf_of(s.drop_first())
    }
}

/// Line endings never matter: a text without `\r` and the same text with every line ended
/// by `\r\n` normalise to the same characters, namely the text itself.
pub proof fn law_crlf_normalises_away(s: Seq<char>)
    requires
        forall|i: int| 0 <= i < s.len() ==> s[i] != '\r',
    ensures
        normalize_newlines_of(crlf_of(s)) == s,
        normalize_newlines_of(s) == s,
    decreases s.len(),
{
    if s.len() > 0 {
        law_crlf_normalises_away(s.drop_first());
        let c = crlf_of(s);
        if s[0] == '\n' {
            assert(c.skip(2) =~= crlf_of(s.drop_first()));
        } else {
            assert(c.drop_first() =~= crlf_of(s.drop_first()));
        }
        assert(s =~= seq![s[0]] + s.drop_first());
    }
}

/// `t` split at every `\n` (`str::split('\n')`): one more piece than there are newlines.
pub open spec fn lines_of(t: Seq<char>) -> Seq<Seq<char>>
    decreases t.len(),
{
    if t.len() == 0 {
        seq![Seq::empty()]
    } else {
        let p = lines_of(t.drop_last());
        if t.last() == '\n' {
            p.push(Seq::empty())
        } else {
            p.update(p.len() - 1, p.last().push(t.last()))
        }
    }
}

/// There is always at least one piece.
pub proof fn lemma_lines_of_len(t: Seq<char>)
    ensures
        lines_of(t).len() >= 1,
        lines_of(t).len() <= t.len() + 1,
    decreases t.len(),
{
    if t.len() > 0 {
        lemma_lines_of_len(t.drop_last());
    }
}

/// Number of lines of a text as read: a final `\n` ends the last line rather than starting
/// another, and the empty text has none.
pub open spec fn line_count_of(t: Seq<char>) -> nat {
    if t.len() == 0 || t.last() == '\n' {
        (lines_of(t).len() - 1) as nat
    } else {
        lines_of(t).len()
    }
}

/// The lines of `v` (split at `\n`).
pub fn split_lines(v: &Vec<char>) -> (lines: Vec<String>)
    ensures
        texts(lines@) == lines_of(v@),
{
    let mut lines: Vec<String> = Vec::new();
    let mut start: usize = 0;
    let mut i: usize = 0;
    assert(v@.take(0) =~= Seq::<char>::empty());
    assert(v@.subrange(0, 0) =~= Seq::<char>::empty());
    while i < v.len()
        invariant
            0 <= start <= i <= v.len(),
            texts(lines@).push(v@.subrange(start as int, i as int)) == lines_of(v@.take(i as int)),
        decreases v.len() - i,
    {
        proof {
            assert(v@.take(i + 1).drop_last() =~= v@.take(i as int));
            assert(v@.take(i + 1).last() == v@[i as int]);
        }
        if v[i] == '\n' {
            let line = string_of_range(v, start, i);
            let ghost before = texts(lines@);
            lines.push(line);
            assert(texts(lines@) =~= before.push(v@.subrange(start as int, i as int)));
            assert(v@.subrange(i + 1, i + 1) =~= Seq::<char>::empty());
            start = i + 1;
        } else {
            let ghost p = lines_of(v@.take(i as int));
            assert(v@.subrange(start as int, i + 1) =~= v@.subrange(start as int, i as int).push(v@[i as int]));
            assert(texts(lines@).push(v@.subrange(start as int, i + 1)) =~= p.update(p.len() - 1, p.last().push(v@[i as int])));
        }
        i = i + 1;
    }
    let last = string_of_range(v, start, v.len());
    let ghost before = texts(lines@);
    lines.push(last);
    assert(texts(lines@) =~= before.push(v@.subrange(start as int, v.len() as int)));
    assert(v@.take(v.len() as int) =~= v@);
    lines
}

/// Lines `a` to `b` (0-based, `b` exclusive), each without trailing whitespace, joined by
/// `\n`: the text a section is hashed by.
pub open spec fn block_of(lines: Seq<Seq<char>>, a: int, b: int) -> Seq<char> {
    join_of(lines.subrange(a, b).map_values(|l: Seq<char>| trim_end(l)), "\n"@)
}

/// Lines `a..b` of `lines`, trailing whitespace stripped from each, joined by `\n`.
pub fn normalize_block(lines: &Vec<String>, a: usize, b: usize) -> (r: String)
    requires
        a <= b <= lines.len(),
    ensures
        r@ == block_of(texts(lines@), a as int, b as int),
{
    proof {
        reveal_strlit("\n");
    }
    let ghost ls = texts(lines@);
    let mut out = String::new();
    let mut i: usize = a;
    assert(ls.subrange(a as int, a as int).map_values(|l: Seq<char>| trim_end(l)) =~= Seq::<Seq<char>>::empty());
    while i < b
        invariant
            a <= i <= b <= lines.len(),
            ls == texts(lines@),
            out@ == block_of(ls, a as int, i as int),
        decreases b - i,
    {
        proof {
            reveal_strlit("\n");
        }
        let ghost m = ls.subrange(a as int, i + 1).map_values(|l: Seq<char>| trim_end(l));
        assert(m.drop_last() =~= ls.subrange(a as int, i as int).map_values(|l: Seq<char>| trim_end(l)));
        if i > a {
            push_char(&mut out, '\n');
        }
        let lv = chars_of(lines[i].as_str());
        let e = trim_end_index(&lv, 0, lv.len());
        assert(lv@.subrange(0, lv.len() as int) =~= lv@);
        push_range(&mut out, &lv, 0, e);
        proof {
            assert(ls[i as int] == lv@);
            assert(m.last() == trim_end(ls[i as int]));
            if i == a {
                assert(out@ =~= m[0]);
            } else {
                assert(out@ =~= block_of(ls, a as int, i as int) + "\n"@ + m.last());
            }
        }
        i = i + 1;
    }
    out
}

// ---------------------------------------------------------------- small rules

/// Rough token count used everywhere: `ceil(chars / 4)`, as a `u32`.
pub open spec fn tokens_of(text: Seq<char>) -> u32 {
    (if text.len() % 4 == 0 { text.len() / 4 } else { text.len() / 4 + 1 }) as u32
}

/// Rough token count used everywhere in the crate: `ceil(chars / 4)`.
pub fn token_estimate(text: &str) -> (n: u32)
    ensures
        n == tokens_of(text@),
{
    let v = chars_of(text);
    let q = v.len() / 4;
    let r = if v.len() % 4 == 0 { q } else { q + 1 };
    r as u32
}

/// A URL has a scheme when the part before its first `:` is non-empty and made of ASCII
/// letters, digits, `+`, `-` and `.`, and either `//` follows the colon or the scheme is
/// `mailto` in any case.
pub open spec fn has_scheme_of(url: Seq<char>) -> bool {
    match find_of(url, ":"@) {
        Some(k) => {
            let scheme = url.take(k as int);
            let rest = url.skip((k + 1) as int);
            &&& scheme.len() > 0
            &&& forall|i: int| 0 <= i < scheme.len() ==> is_scheme_char(#[trigger] scheme[i])
            &&& has_prefix(rest, "//"@) || eq_ignore_ascii_case_of(scheme, "mailto"@)
        },
        None => false,
    }
}

/// An ASCII letter or digit, `+`, `-` or `.`.
pub open spec fn is_scheme_char(c: char) -> bool {
    ('a' <= c && c <= 'z') || ('A' <= c && c <= 'Z') || ('0' <= c && c <= '9') || c == '+' || c
        == '-' || c == '.'
}

/// Whether a link target has a scheme (`https://…`, `mailto:…`).
pub fn has_scheme(url: &str) -> (b: bool)
    ensures
        b == has_scheme_of(url@),
{
    proof {
        reveal_strlit(":");
    }
    let v = chars_of(url);
    assert(v@.subrange(0, v.len() as int) =~= v@);
    match find_at(&v, 0, v.len(), ":") {
        Some(k) => {
            proof {
                crate::text::lemma_find_of_bound(v@.subrange(0, v.len() as int), ":"@);
            }
            if k == 0 {
                return false;
            }
            let mut i: usize = 0;
            while i < k
                invariant
                    0 <= i <= k < v.len(),
                    v@ == url@,
                    find_of(url@, ":"@) == Some(k as nat),
                    forall|j: int| 0 <= j < i ==> is_scheme_char(#[trigger] v@[j]),
                decreases k - i,
            {
                let c = v[i];
                if !(('a' <= c && c <= 'z') || ('A' <= c && c <= 'Z') || ('0' <= c && c <= '9') || c == '+'
                    || c == '-' || c == '.') {
                    assert(url@.take(k as int)[i as int] == c);
                    return false;
                }
                i = i + 1;
            }
            assert forall|j: int| 0 <= j < k implies is_scheme_char(#[trigger] url@.take(k as int)[j]) by {
                assert(url@.take(k as int)[j] == v@[j]);
            }
            let scheme = string_of_range(&v, 0, k);
            assert(v@.subrange(0, k as int) =~= url@.take(k as int));
            assert(v@.subrange(k + 1, v.len() as int) =~= url@.skip(k + 1));
            starts_with_at(&v, k + 1, v.len(), "//") || eq_ignore_ascii_case(scheme.as_str(), "mailto")
        },
        None => false,
    }
}

/// Which dialect a file is parsed as.
#[derive(Debug, Clone, Copy, PartialEq, Eq, Default, Structural)]
pub enum Flavor {
    /// Plain markdown (`.md`, `.markdown`).
    #[default]
    Markdown,
    /// MDX (`.mdx`): a leading ESM block is excluded and `export const title` names the page.
    Mdx,
}

impl Flavor {
    /// `Mdx` for a `.mdx` extension (any case), `Markdown` otherwise.
    pub fn of_path(path: &str) -> (f: Flavor)
        ensures
            f == match path_extension_of(path@) {
                Some(e) => if eq_ignore_ascii_case_of(e, "mdx"@) { Flavor::Mdx } else { Flavor::Markdown },
                None => Flavor::Markdown,
            },
    {
        match path_extension(path) {
            Some(e) => if eq_ignore_ascii_case(e.as_str(), "mdx") {
                Flavor::Mdx
            } else {
                Flavor::Markdown
            },
            None => Flavor::Markdown,
        }
    }
}

} // verus!

verus! {

// ---------------------------------------------------------------- front matter and titles

/// `p` is a suffix of `s`.
pub open spec fn has_suffix(s: Seq<char>, p: Seq<char>) -> bool {
    p.len() <= s.len() && s.skip(s.len() - p.len()) == p
}

/// Raw front matter without its `---` fences, trimmed.
pub open spec fn strip_fences_of(raw: Seq<char>) -> Seq<char> {
    let t = trim(raw);
    let a = if has_prefix(t, "---"@) { t.skip(3) } else { t };
    let b = if has_suffix(a, "---"@) { a.take(a.len() - 3) } else { a };
    trim(b)
}

/// Raw front matter without its `---` fences, trimmed.
pub fn strip_front_matter_fences(raw: &str) -> (r: String)
    ensures
        r@ == strip_fences_of(raw@),
{
    proof {
        reveal_strlit("---");
    }
    let v = chars_of(raw);
    let (lo, hi) = crate::text::trim_bounds(&v, 0, v.len());
    assert(v@.subrange(0, v.len() as int) =~= raw@);
    let ghost t = v@.subrange(lo as int, hi as int);
    let a = if starts_with_at(&v, lo, hi, "---") { lo + 3 } else { lo };
    assert(v@.subrange(a as int, hi as int) =~= if has_prefix(t, "---"@) { t.skip(3) } else { t });
    let b = if hi - a >= 3 && starts_with_at(&v, hi - 3, hi, "---") { hi - 3 } else { hi };
    proof {
        let s = v@.subrange(a as int, hi as int);
        if hi - a >= 3 {
            assert(s.skip(s.len() - 3) =~= v@.subrange(hi - 3, hi as int));
            assert(v@.subrange(hi - 3, hi as int).subrange(0, 3) =~= v@.subrange(hi - 3, hi as int));
        }
        assert(v@.subrange(a as int, b as int) =~= if has_suffix(s, "---"@) { s.take(s.len() - 3) } else { s });
    }
    let (c, d) = crate::text::trim_bounds(&v, a, b);
    string_of_range(&v, c, d)
}

/// How a quote character is escaped inside a quoted string.
#[derive(Clone, Copy, Structural, PartialEq, Eq)]
pub enum Escapes {
    /// `\"` (JavaScript, YAML double quotes).
    Backslash,
    /// `''` (YAML single quotes).
    Doubled,
}

/// `o` with `out` in front of its contents.
pub open spec fn prepend(out: Seq<char>, o: Option<Seq<char>>) -> Option<Seq<char>> {
    match o {
        Some(x) => Some(out + x),
        None => None,
    }
}

/// The contents of a quoted string after its opening `quote`, up to the closing one, or
/// `None` when it is never closed.
pub open spec fn quoted_body(s: Seq<char>, quote: char, escapes: Escapes) -> Option<Seq<char>>
    decreases s.len(),
{
    if s.len() == 0 {
        None
    } else if s[0] == '\\' && escapes == Escapes::Backslash {
        if s.len() < 2 {
            None
        } else {
            prepend(seq![s[1]], quoted_body(s.skip(2), quote, escapes))
        }
    } else if escapes == Escapes::Doubled && s[0] == quote && s.len() > 1 && s[1] == quote {
        prepend(seq![quote], quoted_body(s.skip(2), quote, escapes))
    } else if s[0] == quote {
        Some(Seq::empty())
    } else {
        prepend(seq![s[0]], quoted_body(s.drop_first(), quote, escapes))
    }
}

/// The contents of the quoted string `text` starts with, or `None` when it does not start
/// with a quote or is never closed.
pub open spec fn quoted_string_of(text: Seq<char>, escapes: Escapes) -> Option<Seq<char>> {
    if text.len() > 0 && (text[0] == '"' || text[0] == '\'') {
        quoted_body(text.drop_first(), text[0], escapes)
    } else {
        None
    }
}

proof fn lemma_prepend(out: Seq<char>, x: Seq<char>, o: Option<Seq<char>>)
    ensures
        prepend(out, prepend(x, o)) == prepend(out + x, o),
{
    match o {
        Some(y) => assert(out + (x + y) =~= (out + x) + y),
        None => {},
    }
}

/// The contents of the quoted string `v[lo..]` starts with (see [`quoted_string_of`]).
pub fn quoted_string(v: &Vec<char>, lo: usize, escapes: Escapes) -> (r: Option<String>)
    requires
        lo <= v.len(),
    ensures
        match quoted_string_of(v@.skip(lo as int), escapes) {
            Some(x) => r is Some && r->0@ == x,
            None => r is None,
        },
{
    if lo >= v.len() || !(v[lo] == '"' || v[lo] == '\'') {
        return None;
    }
    let quote = v[lo];
    let mut out = String::new();
    let mut i: usize = lo + 1;
    assert(v@.skip(lo as int).drop_first() =~= v@.skip(lo + 1));
    assert(out@ + Seq::<char>::empty() =~= out@);
    while i < v.len()
        invariant
            lo < i <= v.len(),
            quote == v@[lo as int],
            quoted_string_of(v@.skip(lo as int), escapes) == prepend(out@, quoted_body(v@.skip(i as int), quote, escapes)),
        decreases v.len() - i,
    {
        let ghost s = v@.skip(i as int);
        assert(s[0] == v@[i as int]);
        let c = v[i];
        if c == '\\' && escapes == Escapes::Backslash {
            if i + 1 >= v.len() {
                return None;
            }
            assert(s[1] == v@[i + 1]);
            assert(s.skip(2) =~= v@.skip(i + 2));
            let ghost o0 = out@;
            push_char(&mut out, v[i + 1]);
            proof {
                lemma_prepend(o0, seq![v@[i + 1]], quoted_body(v@.skip(i + 2), quote, escapes));
            }
            i = i + 2;
        } else if escapes == Escapes::Doubled && c == quote && i + 1 < v.len() && v[i + 1] == quote {
            assert(s[1] == v@[i + 1]);
            assert(s.skip(2) =~= v@.skip(i + 2));
            let ghost o0 = out@;
            push_char(&mut out, quote);
            proof {
                lemma_prepend(o0, seq![quote], quoted_body(v@.skip(i + 2), quote, escapes));
            }
            i = i + 2;
        } else if c == quote {
            assert(out@ + Seq::<char>::empty() =~= out@);
            return Some(out);
        } else {
            assert(s.drop_first() =~= v@.skip(i + 1));
            let ghost o0 = out@;
            push_char(&mut out, c);
            proof {
                lemma_prepend(o0, seq![c], quoted_body(v@.skip(i + 1), quote, escapes));
            }
            i = i + 1;
        }
    }
    None
}

} // verus!

verus! {

/// The part of `v` before the first occurrence of `p` (all of `v` when there is none).
pub open spec fn before_first(v: Seq<char>, p: Seq<char>) -> Seq<char> {
    match find_of(v, p) {
        Some(k) => v.take(k as int),
        None => v,
    }
}

/// `Some(trim(x))` when that is non-empty.
pub open spec fn non_blank(x: Option<Seq<char>>) -> Option<Seq<char>> {
    match x {
        Some(s) => if trim(s).len() > 0 { Some(trim(s)) } else { None },
        None => None,
    }
}

/// What follows `title:` (or `title =`) on a front matter line, if the line is one.
pub open spec fn title_value_of(line: Seq<char>) -> Option<Seq<char>> {
    if has_prefix(line, "title"@) {
        let rest = trim_start(line.skip(5));
        if rest.len() > 0 && (rest[0] == ':' || rest[0] == '=') {
            Some(rest.drop_first())
        } else {
            None
        }
    } else {
        None
    }
}

/// The lines of `s` as `str::lines` yields them: split at `\n`, no empty piece after a
/// final `\n`, a trailing `\r` removed from each.
pub open spec fn str_lines_of(s: Seq<char>) -> Seq<Seq<char>> {
    let ls = lines_of(s);
    let kept = if s.len() == 0 {
        Seq::empty()
    } else if s.last() == '\n' {
        ls.drop_last()
    } else {
        ls
    };
    kept.map_values(|l: Seq<char>| if l.len() > 0 && l.last() == '\r' { l.drop_last() } else { l })
}

/// The first title value among `lines`.
pub open spec fn first_title_value(lines: Seq<Seq<char>>) -> Option<Seq<char>>
    decreases lines.len(),
{
    if lines.len() == 0 {
        None
    } else if title_value_of(lines[0]) is Some {
        title_value_of(lines[0])
    } else {
        first_title_value(lines.drop_first())
    }
}

/// The `title:` of a front matter block, unquoted (YAML `''` inside single quotes and
/// backslash escapes inside double quotes honoured, a ` #` comment cut from a plain value).
/// Block scalars (`|`, `>`), unterminated strings and empty values give `None`.
pub open spec fn front_matter_title_of(fm: Seq<char>) -> Option<Seq<char>> {
    match first_title_value(str_lines_of(fm)) {
        None => None,
        Some(raw) => {
            let v = trim(raw);
            if v.len() == 0 || v[0] == '|' || v[0] == '>' {
                None
            } else if v[0] == '"' {
                non_blank(quoted_string_of(v, Escapes::Backslash))
            } else if v[0] == '\'' {
                non_blank(quoted_string_of(v, Escapes::Doubled))
            } else {
                non_blank(Some(before_first(v, " #"@)))
            }
        },
    }
}

fn title_value(line: &str) -> (r: Option<String>)
    ensures
        match title_value_of(line@) {
            Some(x) => r is Some && r->0@ == x,
            None => r is None,
        },
{
    proof {
        reveal_strlit("title");
    }
    let v = chars_of(line);
    assert(v@.subrange(0, v.len() as int) =~= v@);
    if !starts_with_at(&v, 0, v.len(), "title") {
        return None;
    }
    let b = trim_start_index(&v, 5, v.len());
    assert(v@.subrange(5, v.len() as int) =~= v@.skip(5));
    if b < v.len() && (v[b] == ':' || v[b] == '=') {
        assert(v@.subrange(b as int, v.len() as int)[0] == v@[b as int]);
        assert(v@.subrange(b + 1, v.len() as int) =~= v@.subrange(b as int, v.len() as int).drop_first());
        Some(string_of_range(&v, b + 1, v.len()))
    } else {
        None
    }
}

/// The title a front matter block declares (see [`front_matter_title_of`]).
pub fn front_matter_title(fm: &str) -> (r: Option<String>)
    ensures
        match front_matter_title_of(fm@) {
            Some(x) => r is Some && r->0@ == x,
            None => r is None,
        },
{
    proof {
        reveal_strlit(" #");
    }
    let v = chars_of(fm);
    let pieces = split_lines(&v);
    let n = if v.len() == 0 {
        0
    } else if v[v.len() - 1] == '\n' {
        pieces.len() - 1
    } else {
        pieces.len()
    };
    proof {
        lemma_lines_of_len(v@);
    }
    let ghost ls = str_lines_of(fm@);
    assert(ls.len() == n);
    let mut i: usize = 0;
    let mut found: Option<String> = None;
    assert(ls.skip(0) =~= ls);
    while i < n && found.is_none()
        invariant
            0 <= i <= n <= pieces.len(),
            ls.len() == n,
            texts(pieces@) == lines_of(v@),
            v@ == fm@,
            ls == str_lines_of(fm@),
            forall|j: int| 0 <= j < n ==> (#[trigger] ls[j]) == if texts(pieces@)[j].len() > 0 && texts(pieces@)[j].last() == '\r' { texts(pieces@)[j].drop_last() } else { texts(pieces@)[j] },
            first_title_value(ls) == match found { Some(x) => title_value_of(ls[i - 1]), None => first_title_value(ls.skip(i as int)) },
            found is Some ==> i > 0 && title_value_of(ls[i - 1]) == Some(found->0@),
        decreases n - i,
    {
        let pv = chars_of(pieces[i].as_str());
        assert(pv@ == texts(pieces@)[i as int]);
        let line = if pv.len() > 0 && pv[pv.len() - 1] == '\r' {
            string_of_range(&pv, 0, pv.len() - 1)
        } else {
            string_of_range(&pv, 0, pv.len())
        };
        assert(pv@.subrange(0, pv.len() as int) =~= pv@);
        if pv.len() > 0 {
            assert(pv@.subrange(0, pv.len() - 1) =~= pv@.drop_last());
        }
        assert(line@ == ls[i as int]);
        assert(ls.skip(i as int)[0] == ls[i as int]);
        assert(ls.skip(i as int).drop_first() =~= ls.skip(i + 1));
        found = title_value(line.as_str());
        i = i + 1;
    }
    let raw = match found {
        Some(r) => r,
        None => {
            assert(ls.skip(i as int) =~= Seq::<Seq<char>>::empty());
            return None;
        },
    };
    let t = trimmed(raw.as_str());
    let tv = chars_of(t.as_str());
    if tv.len() == 0 || tv[0] == '|' || tv[0] == '>' {
        return None;
    }
    assert(tv@.skip(0) =~= tv@);
    let value = if tv[0] == '"' {
        quoted_string(&tv, 0, Escapes::Backslash)
    } else if tv[0] == '\'' {
        quoted_string(&tv, 0, Escapes::Doubled)
    } else {
        assert(tv@.subrange(0, tv.len() as int) =~= tv@);
        match find_at(&tv, 0, tv.len(), " #") {
            Some(k) => {
                proof {
                    crate::text::lemma_find_of_bound(tv@, " #"@);
                }
                assert(tv@.subrange(0, k as int) =~= tv@.take(k as int));
                Some(string_of_range(&tv, 0, k))
            },
            None => Some(t),
        }
    };
    match value {
        Some(x) => {
            let y = trimmed(x.as_str());
            if crate::text::is_empty_text(y.as_str()) {
                None
            } else {
                Some(y)
            }
        },
        None => None,
    }
}

/// The title of an MDX `export const title = "…"` line (double or single quotes, backslash
/// escapes honoured), when non-empty.
pub open spec fn export_title_of(line: Seq<char>) -> Option<Seq<char>> {
    if has_prefix(line, "export const title"@) {
        let r1 = trim_start(line.skip(18));
        if r1.len() > 0 && r1[0] == '=' {
            non_blank(quoted_string_of(trim_start(r1.drop_first()), Escapes::Backslash))
        } else {
            None
        }
    } else {
        None
    }
}

/// `export const title = "Padding";` → `Padding`.
pub fn export_title(line: &str) -> (r: Option<String>)
    ensures
        match export_title_of(line@) {
            Some(x) => r is Some && r->0@ == x,
            None => r is None,
        },
{
    proof {
        reveal_strlit("export const title");
    }
    let v = chars_of(line);
    assert(v@.subrange(0, v.len() as int) =~= v@);
    if !starts_with_at(&v, 0, v.len(), "export const title") {
        return None;
    }
    let b = trim_start_index(&v, 18, v.len());
    assert(v@.subrange(18, v.len() as int) =~= v@.skip(18));
    if !(b < v.len() && v[b] == '=') {
        return None;
    }
    assert(v@.subrange(b as int, v.len() as int)[0] == v@[b as int]);
    let c = trim_start_index(&v, b + 1, v.len());
    assert(v@.subrange(b + 1, v.len() as int) =~= v@.subrange(b as int, v.len() as int).drop_first());
    assert(v@.subrange(c as int, v.len() as int) =~= v@.skip(c as int));
    match quoted_string(&v, c, Escapes::Backslash) {
        Some(x) => {
            let y = trimmed(x.as_str());
            if crate::text::is_empty_text(y.as_str()) {
                None
            } else {
                Some(y)
            }
        },
        None => None,
    }
}

} // verus!

verus! {

// ---------------------------------------------------------------- MDX

/// `rest` starts with a declaration keyword an `export` statement can carry.
pub open spec fn esm_keyword(rest: Seq<char>) -> bool {
    ||| has_prefix(rest, "const "@) || has_prefix(rest, "let "@) || has_prefix(rest, "var "@)
    ||| has_prefix(rest, "function "@) || has_prefix(rest, "async "@) || has_prefix(rest, "class "@)
    ||| has_prefix(rest, "default "@) || has_prefix(rest, "type "@) || has_prefix(rest, "interface "@)
}

/// A line at column 0 opens an ESM statement rather than prose: `import` needs a binding
/// form (`{`, `*`, a module string, `type {`, or ` from `); `export` needs a declaration
/// keyword, `default`, `{` or `*`.
pub open spec fn is_esm_statement_of(line: Seq<char>) -> bool {
    if has_prefix(line, "import "@) {
        let rest = trim_start(line.skip(7));
        ||| rest.len() > 0 && (rest[0] == '{' || rest[0] == '*' || rest[0] == '"' || rest[0] == '\'')
        ||| has_prefix(rest, "type "@) && has_prefix(trim_start(rest.skip(5)), "{"@)
        ||| contains_seq(rest, " from "@)
    } else if has_prefix(line, "export "@) {
        let rest = trim_start(line.skip(7));
        ||| rest.len() > 0 && (rest[0] == '{' || rest[0] == '*')
        ||| esm_keyword(rest)
    } else {
        false
    }
}

/// Whether a line opens an ESM statement (see [`is_esm_statement_of`]).
pub fn is_esm_statement(line: &str) -> (b: bool)
    ensures
        b == is_esm_statement_of(line@),
{
    proof {
        reveal_strlit("import ");
        reveal_strlit("export ");
        reveal_strlit("{");
    }
    let v = chars_of(line);
    let n = v.len();
    assert(v@.subrange(0, n as int) =~= v@);
    if starts_with_at(&v, 0, n, "import ") {
        let b = trim_start_index(&v, 7, n);
        assert(v@.subrange(7, n as int) =~= v@.skip(7));
        let ghost rest = v@.subrange(b as int, n as int);
        if b < n && (v[b] == '{' || v[b] == '*' || v[b] == '"' || v[b] == '\'') {
            assert(rest[0] == v@[b as int]);
            return true;
        }
        if b < n {
            assert(rest[0] == v@[b as int]);
        }
        if starts_with_at(&v, b, n, "type ") {
            proof {
                reveal_strlit("type ");
            }
            let c = trim_start_index(&v, b + 5, n);
            assert(v@.subrange(b + 5, n as int) =~= rest.skip(5));
            if starts_with_at(&v, c, n, "{") {
                return true;
            }
        }
        crate::text::contains_at(&v, b, n, " from ")
    } else if starts_with_at(&v, 0, n, "export ") {
        let b = trim_start_index(&v, 7, n);
        assert(v@.subrange(7, n as int) =~= v@.skip(7));
        let ghost rest = v@.subrange(b as int, n as int);
        if b < n && (v[b] == '{' || v[b] == '*') {
            assert(rest[0] == v@[b as int]);
            return true;
        }
        if b < n {
            assert(rest[0] == v@[b as int]);
        }
        starts_with_at(&v, b, n, "const ") || starts_with_at(&v, b, n, "let ") || starts_with_at(
            &v,
            b,
            n,
            "var ",
        ) || starts_with_at(&v, b, n, "function ") || starts_with_at(&v, b, n, "async ")
            || starts_with_at(&v, b, n, "class ") || starts_with_at(&v, b, n, "default ")
            || starts_with_at(&v, b, n, "type ") || starts_with_at(&v, b, n, "interface ")
    } else {
        false
    }
}

/// A line with nothing but whitespace.
pub open spec fn blank(l: Seq<char>) -> bool {
    trim(l).len() == 0
}

/// The first index from `i` whose line is not blank (or the end).
pub open spec fn skip_blank(lines: Seq<Seq<char>>, i: int) -> int
    decreases lines.len() - i,
{
    if i < 0 || i >= lines.len() || !blank(lines[i]) {
        i
    } else {
        skip_blank(lines, i + 1)
    }
}

/// The first index from `i` whose line is blank (or the end).
pub open spec fn block_end(lines: Seq<Seq<char>>, i: int) -> int
    decreases lines.len() - i,
{
    if i < 0 || i >= lines.len() || blank(lines[i]) {
        i
    } else {
        block_end(lines, i + 1)
    }
}

/// `title`, or else the first export title among `lines[i..j]`.
pub open spec fn block_title(lines: Seq<Seq<char>>, i: int, j: int, title: Option<Seq<char>>) -> Option<Seq<char>>
    decreases j - i,
{
    if title is Some || i >= j || i < 0 || i >= lines.len() {
        title
    } else {
        block_title(lines, i + 1, j, export_title_of(lines[i]))
    }
}

pub proof fn lemma_scan_bounds(lines: Seq<Seq<char>>, i: int)
    requires
        0 <= i <= lines.len(),
    ensures
        i <= skip_blank(lines, i) <= lines.len(),
        i <= block_end(lines, i) <= lines.len(),
        i < lines.len() && !blank(lines[i]) ==> block_end(lines, i) > i,
    decreases lines.len() - i,
{
    if i < lines.len() {
        lemma_scan_bounds(lines, i + 1);
    }
}

/// `n + 1`, saturating at `u32::MAX`, of a count that may exceed `u32`.
pub open spec fn line_after(n: int) -> u32 {
    if n >= u32::MAX { u32::MAX } else { (n + 1) as u32 }
}

/// The leading ESM block from index `i`: each `import`/`export` statement (possibly after
/// blank lines) runs to the next blank line; the result is the first line after the block
/// (1-based; `body_start` when there is none) and the first export title inside it.
pub open spec fn esm_block_of(lines: Seq<Seq<char>>, i: int, body_start: u32, title: Option<Seq<char>>) -> (u32, Option<Seq<char>>)
    decreases lines.len() - i,
{
    if i < 0 || i > lines.len() {
        (body_start, title)
    } else {
        let k = skip_blank(lines, i);
        if k >= lines.len() || !is_esm_statement_of(lines[k]) {
            (body_start, title)
        } else {
            let e = block_end(lines, k);
            proof {
                lemma_scan_bounds(lines, i);
                lemma_scan_bounds(lines, k);
            }
            if e <= i {
                (body_start, title)
            } else {
                esm_block_of(lines, e, line_after(e), block_title(lines, k, e, title))
            }
        }
    }
}

} // verus!

verus! {

/// The view of an optional string.
pub open spec fn opt_view(o: Option<String>) -> Option<Seq<char>> {
    match o {
        Some(s) => Some(s@),
        None => None,
    }
}

fn is_blank_line(l: &String) -> (b: bool)
    ensures
        b == blank(l@),
{
    let t = trimmed(l.as_str());
    crate::text::is_empty_text(t.as_str())
}

/// The MDX ESM block at the top of a document, starting at line `after_front_matter`
/// (1-based): the first line after it and the `export const title` inside it.
pub fn leading_esm_block(lines: &Vec<String>, after_front_matter: u32) -> (r: (u32, Option<String>))
    ensures
        (r.0, opt_view(r.1)) == esm_block_of(
            texts(lines@),
            if after_front_matter >= 1 { after_front_matter - 1 } else { 0 },
            after_front_matter,
            None,
        ),
{
    let ghost ls = texts(lines@);
    let start: u32 = if after_front_matter >= 1 { after_front_matter - 1 } else { 0 };
    if start as usize > lines.len() {
        return (after_front_matter, None);
    }
    let mut i: usize = start as usize;
    let mut body_start: u32 = after_front_matter;
    let mut title: Option<String> = None;
    let mut done = false;
    while !done
        invariant
            i <= lines.len(),
            ls == texts(lines@),
            esm_block_of(ls, start as int, after_front_matter, None) == if done {
                (body_start, opt_view(title))
            } else {
                esm_block_of(ls, i as int, body_start, opt_view(title))
            },
        decreases (lines.len() - i) * 2 + if done { 0int } else { 1int },
    {
        let ghost i0 = i;
        while i < lines.len() && is_blank_line(&lines[i])
            invariant
                i0 <= i <= lines.len(),
                ls == texts(lines@),
                skip_blank(ls, i0 as int) == skip_blank(ls, i as int),
            decreases lines.len() - i,
        {
            i = i + 1;
        }
        proof {
            lemma_scan_bounds(ls, i0 as int);
            assert(skip_blank(ls, i as int) == i);
        }
        if i >= lines.len() || !is_esm_statement(lines[i].as_str()) {
            done = true;
        } else {
            let k = i;
            let ghost t0 = opt_view(title);
            let ghost e = block_end(ls, k as int);
            proof {
                lemma_scan_bounds(ls, k as int);
            }
            while i < lines.len() && !is_blank_line(&lines[i])
                invariant
                    k <= i <= lines.len(),
                    ls == texts(lines@),
                    block_end(ls, k as int) == e,
                    block_end(ls, i as int) == e,
                    block_title(ls, k as int, e, t0) == block_title(ls, i as int, e, opt_view(title)),
                decreases lines.len() - i,
            {
                if title.is_none() {
                    title = export_title(lines[i].as_str());
                }
                proof {
                    lemma_scan_bounds(ls, i + 1);
                }
                i = i + 1;
            }
            assert(i == e);
            body_start = if i >= u32::MAX as usize { u32::MAX } else { (i + 1) as u32 };
        }
    }
    (body_start, title)
}

} // verus!

verus! {

// ---------------------------------------------------------------- raw content inside HTML blocks

/// The elements whose content is raw text: `pre`, `script`, `style`, `textarea`.
pub open spec fn raw_name(i: int) -> Seq<char> {
    if i == 0 {
        "pre"@
    } else if i == 1 {
        "script"@
    } else if i == 2 {
        "style"@
    } else {
        "textarea"@
    }
}

fn raw_name_str(i: u8) -> (s: &'static str)
    requires
        i < 4,
    ensures
        s@ == raw_name(i as int),
{
    if i == 0 {
        "pre"
    } else if i == 1 {
        "script"
    } else if i == 2 {
        "style"
    } else {
        "textarea"
    }
}

/// `t` opens the element `name`: `<`, the name in any ASCII case, then a space, `>`, tab or
/// `/`.
pub open spec fn opens_element_of(t: Seq<char>, name: Seq<char>) -> bool {
    &&& t.len() > name.len() + 1
    &&& t[0] == '<'
    &&& eq_ignore_ascii_case_of(t.subrange(1, (name.len() + 1) as int), name)
    &&& (t[(name.len() + 1) as int] == ' ' || t[(name.len() + 1) as int] == '>' || t[(name.len() + 1) as int] == '\t'
        || t[(name.len() + 1) as int] == '/')
}

/// Whether `t` opens the element `name` (see [`opens_element_of`]).
pub fn opens_element(t: &Vec<char>, name: &str) -> (b: bool)
    ensures
        b == opens_element_of(t@, name@),
{
    let n = chars_of(name);
    if !(t.len() > n.len() && t.len() - n.len() > 1) || t[0] != '<' {
        return false;
    }
    let head = string_of_range(t, 1, n.len() + 1);
    let c = t[n.len() + 1];
    eq_ignore_ascii_case(head.as_str(), name) && (c == ' ' || c == '>' || c == '\t' || c == '/')
}

/// `t`, folded to ASCII lower case, contains `p` (`p` itself lower case).
pub open spec fn contains_folded(t: Seq<char>, p: Seq<char>) -> bool {
    exists|i: int| 0 <= i && i + p.len() <= t.len() && #[trigger] folded_at(t, p, i)
}

/// `t[i..]` starts with `p` once folded to ASCII lower case.
pub open spec fn folded_at(t: Seq<char>, p: Seq<char>, i: int) -> bool {
    forall|j: int| 0 <= j < p.len() ==> crate::text::ascii_fold(#[trigger] t[i + j]) == (p[j] as u32)
}

fn folded_match(t: &Vec<char>, p: &Vec<char>, i: usize) -> (b: bool)
    requires
        i + p.len() <= t.len(),
    ensures
        b == folded_at(t@, p@, i as int),
{
    let mut j: usize = 0;
    while j < p.len()
        invariant
            0 <= j <= p.len(),
            i + p.len() <= t.len(),
            forall|k: int| 0 <= k < j ==> crate::text::ascii_fold(#[trigger] t@[i + k]) == (p@[k] as u32),
        decreases p.len() - j,
    {
        let x = t[i + j] as u32;
        let f: u32 = if 65 <= x && x <= 90 { x + 32 } else { x };
        if f != p[j] as u32 {
            return false;
        }
        j = j + 1;
    }
    true
}

/// `t` contains the closing tag `</name` in any ASCII case.
pub open spec fn closes_element_of(t: Seq<char>, name: Seq<char>) -> bool {
    contains_folded(t, "</"@ + name)
}

/// Whether `t` closes the element `name` (see [`closes_element_of`]).
pub fn closes_element(t: &Vec<char>, name: &str) -> (b: bool)
    ensures
        b == closes_element_of(t@, name@),
{
    proof {
        reveal_strlit("</");
    }
    let mut p: Vec<char> = Vec::new();
    p.push('<');
    p.push('/');
    let nv = chars_of(name);
    let mut k: usize = 0;
    while k < nv.len()
        invariant
            0 <= k <= nv.len(),
            p@ == "</"@ + nv@.take(k as int),
        decreases nv.len() - k,
    {
        p.push(nv[k]);
        assert(nv@.take(k + 1) =~= nv@.take(k as int).push(nv@[k as int]));
        k = k + 1;
    }
    assert(nv@.take(nv.len() as int) =~= nv@);
    if p.len() > t.len() {
        return false;
    }
    let mut i: usize = 0;
    while i <= t.len() - p.len()
        invariant
            0 <= i <= t.len() - p.len() + 1,
            p.len() <= t.len(),
            p@ == "</"@ + name@,
            forall|j: int| 0 <= j < i ==> !#[trigger] folded_at(t@, p@, j),
        decreases t.len() - i,
    {
        if folded_match(t, &p, i) {
            return true;
        }
        i = i + 1;
    }
    false
}

/// Raw-content state while scanning the lines of an HTML block for headings: inside a code
/// fence, an HTML comment, or a `<pre>`, `<script>`, `<style>` or `<textarea>` element, a
/// `#` line is content, not a heading.
#[derive(Clone, Copy)]
pub struct RawScan {
    /// Open fence: its character and length.
    pub fence: Option<(char, usize)>,
    /// Inside `<!-- … -->`.
    pub comment: bool,
    /// The raw-text element whose closing tag ends the skip (see [`raw_name`]).
    pub raw_element: Option<u8>,
}

/// Number of leading `c` in `t`.
pub open spec fn leading_run(t: Seq<char>, c: char) -> nat
    decreases t.len(),
{
    if t.len() > 0 && t[0] == c {
        1 + leading_run(t.drop_first(), c)
    } else {
        0
    }
}

/// The first raw-text element `t` opens, among `names[i..]`.
pub open spec fn opened_raw(t: Seq<char>, i: int) -> Option<int>
    decreases 4 - i,
{
    if i < 0 || i >= 4 {
        None
    } else if opens_element_of(t, raw_name(i)) {
        Some(i)
    } else {
        opened_raw(t, i + 1)
    }
}

/// One line fed to the scanner: the new state and whether the line is content that cannot
/// be a heading.
pub open spec fn raw_skip_of(s: RawScan, line: Seq<char>) -> (RawScan, bool) {
    let t = trim(line);
    match s.fence {
        Some((ch, len)) => {
            let closes = (forall|i: int| 0 <= i < t.len() ==> t[i] == ch) && t.len() >= len;
            (if closes { RawScan { fence: None, ..s } } else { s }, true)
        },
        None => if s.comment {
            (if contains_seq(t, "-->"@) { RawScan { comment: false, ..s } } else { s }, true)
        } else {
            match s.raw_element {
                Some(n) => (if closes_element_of(t, raw_name(n as int)) { RawScan { raw_element: None, ..s } } else { s }, true),
                None => if leading_run(t, '`') >= 3 {
                    (RawScan { fence: Some(('`', leading_run(t, '`') as usize)), ..s }, true)
                } else if leading_run(t, '~') >= 3 {
                    (RawScan { fence: Some(('~', leading_run(t, '~') as usize)), ..s }, true)
                } else if has_prefix(t, "<!--"@) {
                    (RawScan { comment: !contains_seq(t, "-->"@), ..s }, true)
                } else {
                    match opened_raw(t, 0) {
                        Some(n) => (RawScan { raw_element: if closes_element_of(t, raw_name(n)) { None } else { Some(n as u8) }, ..s }, true),
                        None => (s, false),
                    }
                },
            }
        },
    }
}

fn leading_count(v: &Vec<char>, lo: usize, hi: usize, c: char) -> (n: usize)
    requires
        lo <= hi <= v.len(),
    ensures
        n == leading_run(v@.subrange(lo as int, hi as int), c),
        lo + n <= hi,
{
    let mut i: usize = lo;
    while i < hi && v[i] == c
        invariant
            lo <= i <= hi <= v.len(),
            leading_run(v@.subrange(lo as int, hi as int), c) == (i - lo) + leading_run(v@.subrange(i as int, hi as int), c),
        decreases hi - i,
    {
        assert(v@.subrange(i as int, hi as int).drop_first() =~= v@.subrange(i + 1, hi as int));
        i = i + 1;
    }
    if i < hi {
        assert(v@.subrange(i as int, hi as int)[0] == v@[i as int]);
    }
    i - lo
}

impl RawScan {
    /// The scanner outside any raw content.
    pub fn new() -> (s: RawScan)
        ensures
            s == (RawScan { fence: None, comment: false, raw_element: None }),
    {
        RawScan { fence: None, comment: false, raw_element: None }
    }

    /// Feed one line; `true` when the line is content that cannot be a heading.
    pub fn skip(&mut self, line: &str) -> (b: bool)
        ensures
            (*final(self), b) == raw_skip_of(*old(self), line@),
    {
        proof {
            reveal_strlit("-->");
            reveal_strlit("<!--");
        }
        let lv = chars_of(line);
        let (lo, hi) = crate::text::trim_bounds(&lv, 0, lv.len());
        assert(lv@.subrange(0, lv.len() as int) =~= line@);
        let t = crate::text::string_of_range(&lv, lo, hi);
        let tv = chars_of(t.as_str());
        let ghost ts = tv@;
        assert(ts == trim(line@));
        assert(tv@.subrange(0, tv.len() as int) =~= ts);
        match self.fence {
            Some((ch, len)) => {
                let mut all = true;
                let mut i: usize = 0;
                while i < tv.len()
                    invariant
                        0 <= i <= tv.len(),
                        all == forall|j: int| 0 <= j < i ==> tv@[j] == ch,
                    decreases tv.len() - i,
                {
                    if tv[i] != ch {
                        all = false;
                    }
                    i = i + 1;
                }
                if all && tv.len() >= len {
                    self.fence = None;
                }
                return true;
            },
            None => {},
        }
        if self.comment {
            if crate::text::contains_str(t.as_str(), "-->") {
                self.comment = false;
            }
            return true;
        }
        match self.raw_element {
            Some(n) => {
                if n < 4 {
                    if closes_element(&tv, raw_name_str(n)) {
                        self.raw_element = None;
                    }
                } else {
                    if closes_element(&tv, "textarea") {
                        self.raw_element = None;
                    }
                }
                return true;
            },
            None => {},
        }
        let fence_len = leading_count(&tv, 0, tv.len(), '`');
        let tilde_len = leading_count(&tv, 0, tv.len(), '~');
        if fence_len >= 3 {
            self.fence = Some(('`', fence_len));
            return true;
        }
        if tilde_len >= 3 {
            self.fence = Some(('~', tilde_len));
            return true;
        }
        if starts_with_at(&tv, 0, tv.len(), "<!--") {
            self.comment = !crate::text::contains_str(t.as_str(), "-->");
            return true;
        }
        let mut k: u8 = 0;
        while k < 4
            invariant
                0 <= k <= 4,
                ts == tv@,
                ts == trim(line@),
                leading_run(ts, '`') < 3,
                leading_run(ts, '~') < 3,
                !has_prefix(ts, "<!--"@),
                opened_raw(ts, 0) == opened_raw(ts, k as int),
                *self == *old(self),
                self.fence is None && !self.comment && self.raw_element is None,
            decreases 4 - k,
        {
            let name = raw_name_str(k);
            if opens_element(&tv, name) {
                self.raw_element = if closes_element(&tv, name) { None } else { Some(k) };
                return true;
            }
            k = k + 1;
        }
        false
    }
}

} // verus!

verus! {

// ---------------------------------------------------------------- the tree's top-level nodes

/// A child of the document root, with what the sectioning reads from it and its
/// descendants.
pub struct TopNode {
    /// The node's own kind.
    pub kind: NodeKind,
    /// First source line (1-based).
    pub start_line: usize,
    /// Last source line (1-based).
    pub end_line: usize,
    /// Text, code and line breaks (as spaces) of the node and its descendants, in order.
    pub inline: String,
    /// Languages of the fenced code blocks among the node and its descendants, in order
    /// (the first word of the info string, `text` when there is none).
    pub langs: Vec<String>,
    /// Whether a table is among the node and its descendants.
    pub has_table: bool,
    /// Destinations of the links among the node and its descendants, in order.
    pub links: Vec<String>,
}

/// The first whitespace-separated word of an info string, or `text`.
pub open spec fn fence_lang_of(info: Seq<char>) -> Seq<char> {
    let t = trim_start(info);
    if t.len() == 0 {
        "text"@
    } else {
        t.take(first_ws(t) as int)
    }
}

/// Index of the first whitespace character of `t` (its length when there is none).
pub open spec fn first_ws(t: Seq<char>) -> nat
    decreases t.len(),
{
    if t.len() == 0 || is_ws(t[0]) {
        0
    } else {
        1 + first_ws(t.drop_first())
    }
}

/// The language a fenced code block contributes (see [`fence_lang_of`]).
pub fn fence_lang(info: &str) -> (r: String)
    ensures
        r@ == fence_lang_of(info@),
{
    let v = chars_of(info);
    let b = trim_start_index(&v, 0, v.len());
    assert(v@.subrange(0, v.len() as int) =~= info@);
    if b == v.len() {
        return "text".to_owned();
    }
    let mut e = b;
    while e < v.len() && !is_whitespace(v[e])
        invariant
            b <= e <= v.len(),
            first_ws(v@.subrange(b as int, v.len() as int)) == (e - b) + first_ws(v@.subrange(e as int, v.len() as int)),
        decreases v.len() - e,
    {
        assert(v@.subrange(e as int, v.len() as int).drop_first() =~= v@.subrange(e + 1, v.len() as int));
        e = e + 1;
    }
    if e < v.len() {
        assert(v@.subrange(e as int, v.len() as int)[0] == v@[e as int]);
    }
    assert(v@.subrange(b as int, e as int) =~= v@.subrange(b as int, v.len() as int).take((e - b) as int));
    string_of_range(&v, b, e)
}

/// A top-level node as values: what [`TopNode`] holds.
pub struct TopNodeV {
    /// The node's own kind.
    pub kind: NodeKind,
    /// First source line (1-based).
    pub start_line: usize,
    /// Last source line (1-based).
    pub end_line: usize,
    /// Text, code and line breaks (as spaces) of the node and its descendants.
    pub inline: Seq<char>,
    /// Languages of the fenced code blocks among the node and its descendants.
    pub langs: Seq<Seq<char>>,
    /// Whether a table is among the node and its descendants.
    pub has_table: bool,
    /// Destinations of the links among the node and its descendants.
    pub links: Seq<Seq<char>>,
}

impl TopNode {
    /// The node as values.
    pub open spec fn view(&self) -> TopNodeV {
        TopNodeV {
            kind: self.kind,
            start_line: self.start_line,
            end_line: self.end_line,
            inline: self.inline@,
            langs: texts(self.langs@),
            has_table: self.has_table,
            links: texts(self.links@),
        }
    }
}

/// What one node of the subtree adds to a top-level node: its text, code or line break to
/// the inline text, a fenced block's language, a table, a link's destination.
pub open spec fn feature_of(n: TopNodeV, kind: NodeKind) -> TopNodeV {
    match kind {
        NodeKind::Text(t) => TopNodeV { inline: n.inline + t@, ..n },
        NodeKind::Code(c) => TopNodeV { inline: n.inline + c@, ..n },
        NodeKind::Break => TopNodeV { inline: n.inline.push(' '), ..n },
        NodeKind::CodeBlock(fenced, info) => if fenced {
            TopNodeV { langs: n.langs.push(fence_lang_of(info@)), ..n }
        } else {
            n
        },
        NodeKind::Table => TopNodeV { has_table: true, ..n },
        NodeKind::Link(url) => TopNodeV { links: n.links.push(url@), ..n },
        _ => n,
    }
}

/// Where a pre-order walk stands: its depth, the top-level node being filled, the nodes
/// finished so far.
pub struct TopWalk {
    /// Nodes opened and not yet closed.
    pub depth: nat,
    /// The top-level node being filled.
    pub current: Option<TopNodeV>,
    /// The top-level nodes closed so far, in order.
    pub nodes: Seq<TopNodeV>,
}

/// One event of the walk: an opening at depth 2 starts a top-level node, and every opening
/// at depth 2 or more adds its feature to it; the closing at depth 2 finishes it.
pub open spec fn top_step(w: TopWalk, ev: AstEvent) -> TopWalk {
    if ev.open {
        let d = w.depth + 1;
        let started = if d == 2 {
            Some(TopNodeV {
                kind: ev.kind,
                start_line: ev.start_line,
                end_line: ev.end_line,
                inline: Seq::empty(),
                langs: Seq::empty(),
                has_table: false,
                links: Seq::empty(),
            })
        } else {
            w.current
        };
        let current = if d >= 2 {
            match started {
                Some(c) => Some(feature_of(c, ev.kind)),
                None => None,
            }
        } else {
            started
        };
        TopWalk { depth: d, current, nodes: w.nodes }
    } else {
        let (current, nodes) = if w.depth == 2 {
            match w.current {
                Some(c) => (None, w.nodes.push(c)),
                None => (None, w.nodes),
            }
        } else {
            (w.current, w.nodes)
        };
        TopWalk { depth: if w.depth > 0 { (w.depth - 1) as nat } else { 0 }, current, nodes }
    }
}

/// The walk after a sequence of events.
pub open spec fn top_walk(events: Seq<AstEvent>) -> TopWalk
    decreases events.len(),
{
    if events.len() == 0 {
        TopWalk { depth: 0, current: None, nodes: Seq::empty() }
    } else {
        top_step(top_walk(events.drop_last()), events.last())
    }
}

/// The children of the document root of a pre-order walk whose first event opens the root.
pub open spec fn top_nodes_of(events: Seq<AstEvent>) -> Seq<TopNodeV> {
    top_walk(events).nodes
}

/// The views of a list of top-level nodes.
pub open spec fn top_views(v: Seq<TopNode>) -> Seq<TopNodeV> {
    v.map_values(|n: TopNode| n.view())
}

/// A copy of a node kind.
fn copy_kind(k: &NodeKind) -> (r: NodeKind)
    ensures
        r == *k,
{
    match k {
        NodeKind::FrontMatter(s) => NodeKind::FrontMatter(s.clone()),
        NodeKind::Heading(l) => NodeKind::Heading(*l),
        NodeKind::HtmlBlock(t) => NodeKind::HtmlBlock(*t),
        NodeKind::CodeBlock(f, s) => NodeKind::CodeBlock(*f, s.clone()),
        NodeKind::Table => NodeKind::Table,
        NodeKind::Link(s) => NodeKind::Link(s.clone()),
        NodeKind::Text(s) => NodeKind::Text(s.clone()),
        NodeKind::Code(s) => NodeKind::Code(s.clone()),
        NodeKind::Break => NodeKind::Break,
        NodeKind::Other => NodeKind::Other,
    }
}

fn add_feature(node: &mut TopNode, kind: &NodeKind)
    ensures
        final(node).view() == feature_of(old(node).view(), *kind),
{
    match kind {
        NodeKind::Text(t) => push_str(&mut node.inline, t.as_str()),
        NodeKind::Code(c) => push_str(&mut node.inline, c.as_str()),
        NodeKind::Break => push_char(&mut node.inline, ' '),
        NodeKind::CodeBlock(fenced, info) => {
            if *fenced {
                let ghost before = texts(node.langs@);
                node.langs.push(fence_lang(info.as_str()));
                assert(texts(node.langs@) =~= before.push(fence_lang_of(info@)));
            }
        },
        NodeKind::Table => node.has_table = true,
        NodeKind::Link(url) => {
            let ghost before = texts(node.links@);
            node.links.push(url.clone());
            assert(texts(node.links@) =~= before.push(url@));
        },
        _ => {},
    }
}

/// The children of the document root, from a pre-order walk whose first event opens the
/// root.
fn top_nodes(events: &Vec<AstEvent>) -> (nodes: Vec<TopNode>)
    ensures
        top_views(nodes@) == top_nodes_of(events@),
{
    let mut nodes: Vec<TopNode> = Vec::new();
    let mut current: Option<TopNode> = None;
    let mut depth: usize = 0;
    let mut i: usize = 0;
    while i < events.len()
        invariant
            0 <= i <= events.len(),
            depth <= i,
            depth == top_walk(events@.take(i as int)).depth,
            top_views(nodes@) == top_walk(events@.take(i as int)).nodes,
            match current {
                Some(c) => top_walk(events@.take(i as int)).current == Some(c.view()),
                None => top_walk(events@.take(i as int)).current is None,
            },
        decreases events.len() - i,
    {
        let ev = &events[i];
        proof {
            assert(events@.take(i + 1).drop_last() =~= events@.take(i as int));
            assert(events@.take(i + 1).last() == events@[i as int]);
        }
        if ev.open {
            depth = depth + 1;
            if depth == 2 {
                current = Some(
                    TopNode {
                        kind: copy_kind(&ev.kind),
                        start_line: ev.start_line,
                        end_line: ev.end_line,
                        inline: String::new(),
                        langs: Vec::new(),
                        has_table: false,
                        links: Vec::new(),
                    },
                );
                proof {
                    let c = current.unwrap();
                    assert(texts(c.langs@) =~= Seq::<Seq<char>>::empty());
                    assert(texts(c.links@) =~= Seq::<Seq<char>>::empty());
                }
            }
            if depth >= 2 {
                match current {
                    Some(ref mut c) => add_feature(c, &ev.kind),
                    None => {},
                }
            }
        } else {
            if depth == 2 {
                let ghost before = nodes@;
                match current.take() {
                    Some(c) => {
                        nodes.push(c);
                        proof {
                            assert(top_views(nodes@) =~= top_views(before).push(c.view()));
                        }
                    },
                    None => {},
                }
            }
            if depth > 0 {
                depth = depth - 1;
            }
        }
        i = i + 1;
    }
    assert(events@.take(events.len() as int) =~= events@);
    nodes
}

/// An ATX heading line (up to three spaces of indent, one to six `#`, then a space, a tab or
/// the end of the line).
pub open spec fn atx_shape(line: Seq<char>) -> bool {
    let indent = leading_run(line, ' ');
    let t = line.skip(indent as int);
    let hashes = leading_run(t, '#');
    &&& indent <= 3
    &&& 1 <= hashes <= 6
    &&& (t.len() == hashes || t[hashes as int] == ' ' || t[hashes as int] == '\t')
}

/// The level and text of an ATX heading line: the line without its indent is parsed as a
/// document of its own, and its first top-level node must be a heading.
pub open spec fn atx_of(line: Seq<char>) -> Option<(u8, Seq<char>)> {
    if !atx_shape(line) {
        None
    } else {
        let nodes = top_nodes_of(crate::comrak_ast::comrak_events_of(line.skip(leading_run(line, ' ') as int)));
        if nodes.len() == 0 {
            None
        } else {
            match nodes[0].kind {
                NodeKind::Heading(level) => Some((level, trim(nodes[0].inline))),
                _ => None,
            }
        }
    }
}

/// `## Text` → `(2, "Text")` for an ATX heading line. The line (without its indent) is parsed
/// as a document of its own, so closing sequences and inline markup are handled exactly as
/// for a heading outside a block.
pub fn atx_heading(line: &str) -> (r: Option<(u8, String)>)
    ensures
        r is Some ==> atx_shape(line@),
        match atx_of(line@) {
            Some((level, text)) => r matches Some(h) && h.0 == level && h.1@ == text,
            None => r is None,
        },
{
    let v = chars_of(line);
    let n = v.len();
    let indent = leading_count(&v, 0, n, ' ');
    assert(v@.subrange(0, n as int) =~= line@);
    if indent > 3 {
        return None;
    }
    let hashes = leading_count(&v, indent, n, '#');
    assert(v@.subrange(indent as int, n as int) =~= line@.skip(indent as int));
    if hashes == 0 || hashes > 6 {
        return None;
    }
    let at = indent + hashes;
    if !(at == n || v[at] == ' ' || v[at] == '\t') {
        return None;
    }
    if at < n {
        assert(line@.skip(indent as int)[hashes as int] == v@[at as int]);
    }
    let rest = string_of_range(&v, indent, n);
    let events = crate::comrak_ast::comrak_events(rest.as_str());
    let nodes = top_nodes(&events);
    if nodes.len() == 0 {
        return None;
    }
    assert(top_views(nodes@)[0] == nodes@[0].view());
    match nodes[0].kind {
        NodeKind::Heading(level) => Some((level, trimmed(nodes[0].inline.as_str()))),
        _ => None,
    }
}

} // verus!

verus! {

// ---------------------------------------------------------------- sections and documents

/// One heading-delimited slice of a document.
#[derive(Debug, Clone, PartialEq, Eq)]
pub struct Section {
    /// 0-based position in the document.
    pub index: u32,
    /// Heading level (1–6). `0` for the preamble before the first heading.
    pub level: u8,
    /// Headings from the top of the document down to and including this one.
    pub heading_path: Vec<String>,
    /// First line, 1-based, inclusive. For headed sections this is the heading line.
    pub line_start: u32,
    /// Last non-blank line, 1-based, inclusive.
    pub line_end: u32,
    /// Normalised section text, including the heading line.
    pub text: String,
    /// blake3 hex digest of `text`.
    pub hash: String,
    /// Rough token count: `ceil(chars / 4)`.
    pub token_estimate: u32,
    /// Languages of fenced code blocks, deduplicated, in order of appearance.
    pub code_langs: Vec<String>,
    /// Whether the section contains a GFM table.
    pub has_tables: bool,
}

/// A parsed document.
#[derive(Debug, Clone, PartialEq, Eq)]
pub struct Document {
    /// Text of the first level-1 heading; else front matter `title:`; else the MDX
    /// `export const title = "…"` of the leading ESM block.
    pub title: Option<String>,
    /// Raw front matter (without the `---` fences), if present.
    pub frontmatter: Option<String>,
    /// Sections in document order.
    pub sections: Vec<Section>,
    /// Link targets without a scheme (relative paths, anchors).
    pub links_internal: Vec<String>,
    /// Link targets with a scheme (`https://…`, `mailto:…`).
    pub links_external: Vec<String>,
    /// Number of lines in the file as read.
    pub line_count: u32,
    /// Sum of section token estimates (saturating at `u32::MAX`).
    pub token_estimate: u32,
    /// blake3 hex digest of the whole normalised text.
    pub hash: String,
}

/// What a section's fields say about the lines it was cut from: a 1-based line range inside
/// the document ending on a non-blank line, the normalised text of exactly those lines, its
/// hash and token estimate, and its position.
pub open spec fn section_fits(s: Section, i: int, lines: Seq<Seq<char>>, line_count: nat) -> bool {
    &&& s.index == i
    &&& 1 <= s.line_start <= s.line_end <= line_count <= lines.len()
    &&& !blank(lines[s.line_end - 1])
    &&& s.text@ == block_of(lines, s.line_start - 1, s.line_end as int)
    &&& s.hash@ == crate::hash::blake3_hex_of(s.text@)
    &&& crate::hash::is_hex_digest(s.hash@)
    &&& s.token_estimate == tokens_of(s.text@)
}

/// Sections in order, each fitting its lines, with ranges that never overlap.
pub open spec fn sections_wf(secs: Seq<Section>, lines: Seq<Seq<char>>, line_count: nat) -> bool {
    &&& forall|i: int| 0 <= i < secs.len() ==> section_fits(#[trigger] secs[i], i, lines, line_count)
    &&& forall|i: int, j: int| 0 <= i < j < secs.len() ==> (#[trigger] secs[i]).line_end < (#[trigger] secs[j]).line_start
}

/// A section whose end is not yet known.
struct Open {
    level: u8,
    heading_path: Vec<String>,
    line_start: u32,
    code_langs: Vec<String>,
    has_tables: bool,
}

/// Accumulates sections while walking the top-level nodes in order.
struct Builder {
    lines: Vec<String>,
    line_count: u32,
    stack: Vec<(u8, String)>,
    current: Option<Open>,
    sections: Vec<Section>,
    h1: Option<String>,
    export_title: Option<String>,
    frontmatter: Option<String>,
    links_internal: Vec<String>,
    links_external: Vec<String>,
    body_start: u32,
}

/// Non-overlapping ranges inside `1..=line_count` are at most `line_count` many.
pub proof fn lemma_sections_bounded(secs: Seq<Section>, lines: Seq<Seq<char>>, line_count: nat)
    requires
        sections_wf(secs, lines, line_count),
    ensures
        secs.len() <= line_count,
{
    assert forall|i: int| 0 <= i < secs.len() implies (#[trigger] secs[i]).line_start >= i + 1 by {
        lemma_start_at_least(secs, lines, line_count, i);
    }
    if secs.len() > 0 {
        assert(section_fits(secs[secs.len() - 1], secs.len() - 1, lines, line_count));
        assert(secs[secs.len() - 1].line_start >= secs.len());
    }
}

proof fn lemma_start_at_least(secs: Seq<Section>, lines: Seq<Seq<char>>, line_count: nat, i: int)
    requires
        sections_wf(secs, lines, line_count),
        0 <= i < secs.len(),
    ensures
        secs[i].line_start >= i + 1,
    decreases i,
{
    assert(section_fits(secs[i], i, lines, line_count));
    if i > 0 {
        lemma_start_at_least(secs, lines, line_count, i - 1);
        assert(section_fits(secs[i - 1], i - 1, lines, line_count));
        assert(secs[i - 1].line_end < secs[i].line_start);
    }
}

// ---------------------------------------------------------------- the sectioning, as values

/// A section as values: what [`Section`] holds.
pub struct SectionV {
    /// 0-based position in the document.
    pub index: u32,
    /// Heading level; `0` for the preamble.
    pub level: u8,
    /// Headings from the top of the document down to this one.
    pub heading_path: Seq<Seq<char>>,
    /// First line, 1-based.
    pub line_start: u32,
    /// Last non-blank line, 1-based.
    pub line_end: u32,
    /// Normalised text.
    pub text: Seq<char>,
    /// Digest of `text`.
    pub hash: Seq<char>,
    /// Token estimate of `text`.
    pub token_estimate: u32,
    /// Languages of fenced code blocks, each once, in order of appearance.
    pub code_langs: Seq<Seq<char>>,
    /// Whether the section contains a table.
    pub has_tables: bool,
}

impl Section {
    /// The section as values.
    pub open spec fn view(&self) -> SectionV {
        SectionV {
            index: self.index,
            level: self.level,
            heading_path: texts(self.heading_path@),
            line_start: self.line_start,
            line_end: self.line_end,
            text: self.text@,
            hash: self.hash@,
            token_estimate: self.token_estimate,
            code_langs: texts(self.code_langs@),
            has_tables: self.has_tables,
        }
    }
}

/// The views of a list of sections.
pub open spec fn section_views(v: Seq<Section>) -> Seq<SectionV> {
    v.map_values(|s: Section| s.view())
}

/// A document as values: what [`Document`] holds.
pub struct DocumentV {
    /// The title.
    pub title: Option<Seq<char>>,
    /// Raw front matter without its fences.
    pub frontmatter: Option<Seq<char>>,
    /// Sections in document order.
    pub sections: Seq<SectionV>,
    /// Link targets without a scheme.
    pub links_internal: Seq<Seq<char>>,
    /// Link targets with a scheme.
    pub links_external: Seq<Seq<char>>,
    /// Number of lines.
    pub line_count: u32,
    /// Sum of the section token estimates, saturating.
    pub token_estimate: u32,
    /// Digest of the whole normalised text.
    pub hash: Seq<char>,
}

impl Document {
    /// The document as values.
    pub open spec fn view(&self) -> DocumentV {
        DocumentV {
            title: opt_view(self.title),
            frontmatter: opt_view(self.frontmatter),
            sections: section_views(self.sections@),
            links_internal: texts(self.links_internal@),
            links_external: texts(self.links_external@),
            line_count: self.line_count,
            token_estimate: self.token_estimate,
            hash: self.hash@,
        }
    }
}

/// A section whose end is not yet known, as values.
pub struct OpenV {
    /// Heading level; `0` for the preamble.
    pub level: u8,
    /// Headings from the top down to this one.
    pub heading_path: Seq<Seq<char>>,
    /// First line, 1-based.
    pub line_start: u32,
    /// Languages of fenced code blocks so far.
    pub code_langs: Seq<Seq<char>>,
    /// Whether a table was seen.
    pub has_tables: bool,
}

/// Where the sectioning of a document stands after some top-level nodes.
pub struct OutlineV {
    /// The headings above the current position: level and text, outermost first.
    pub stack: Seq<(u8, Seq<char>)>,
    /// The section being filled.
    pub current: Option<OpenV>,
    /// The sections closed so far.
    pub sections: Seq<SectionV>,
    /// The text of the first level-1 heading.
    pub h1: Option<Seq<char>>,
    /// The MDX `export const title`, if any.
    pub export_title: Option<Seq<char>>,
    /// The front matter without its fences.
    pub frontmatter: Option<Seq<char>>,
    /// Link targets without a scheme, in order.
    pub links_internal: Seq<Seq<char>>,
    /// Link targets with a scheme, in order.
    pub links_external: Seq<Seq<char>>,
    /// The first line that can belong to a section (after front matter and an ESM block).
    pub body_start: u32,
}

/// Whether line `e` (1-based) is blank; lines outside the document count as blank.
pub open spec fn line_blank_of(lines: Seq<Seq<char>>, e: nat) -> bool {
    e == 0 || e > lines.len() || blank(lines[e - 1])
}

/// The text of line `e` (1-based); empty outside the document.
pub open spec fn line_text_of(lines: Seq<Seq<char>>, e: nat) -> Seq<char> {
    if e == 0 || e > lines.len() {
        Seq::empty()
    } else {
        lines[e - 1]
    }
}

/// `e`, moved up past the blank lines that end a section starting at `start`.
pub open spec fn trail_end(lines: Seq<Seq<char>>, start: nat, e: nat) -> nat
    decreases e,
{
    if e >= start && e > 0 && line_blank_of(lines, e) {
        trail_end(lines, start, (e - 1) as nat)
    } else {
        e
    }
}

/// Close the open section so that it ends at `end_line` at the latest, without its trailing
/// blank lines; a section left empty, or one that would overlap the previous one, is
/// dropped.
pub open spec fn close_of(lines: Seq<Seq<char>>, line_count: nat, b: OutlineV, end_line: nat) -> OutlineV {
    match b.current {
        None => b,
        Some(open) => {
            let end = trail_end(lines, open.line_start as nat, if end_line < line_count { end_line } else { line_count });
            let closed = OutlineV { current: None, ..b };
            if end < open.line_start || open.line_start == 0 {
                closed
            } else if b.sections.len() > 0 && open.line_start <= b.sections.last().line_end {
                closed
            } else {
                let text = block_of(lines, open.line_start - 1, end as int);
                OutlineV {
                    sections: b.sections.push(
                        SectionV {
                            index: b.sections.len() as u32,
                            level: open.level,
                            heading_path: open.heading_path,
                            line_start: open.line_start,
                            line_end: end as u32,
                            text,
                            hash: crate::hash::blake3_hex_of(text),
                            token_estimate: tokens_of(text),
                            code_langs: open.code_langs,
                            has_tables: open.has_tables,
                        },
                    ),
                    ..closed
                }
            }
        },
    }
}

/// The heading stack without the entries at `level` or deeper.
pub open spec fn pop_to(stack: Seq<(u8, Seq<char>)>, level: u8) -> Seq<(u8, Seq<char>)>
    decreases stack.len(),
{
    if stack.len() > 0 && stack.last().0 >= level {
        pop_to(stack.drop_last(), level)
    } else {
        stack
    }
}

/// The texts of a heading stack.
pub open spec fn stack_texts(stack: Seq<(u8, Seq<char>)>) -> Seq<Seq<char>> {
    stack.map_values(|e: (u8, Seq<char>)| e.1)
}

/// A heading of `level` with `text` at `start_line`: the open section closes on the line
/// before, the heading replaces those at its level or deeper, and a section starts with the
/// headings above it as its path. The first level-1 heading is remembered.
pub open spec fn open_heading_of(
    lines: Seq<Seq<char>>,
    line_count: nat,
    b: OutlineV,
    level: u8,
    text: Seq<char>,
    start_line: u32,
) -> OutlineV {
    let b1 = close_of(lines, line_count, b, if start_line > 0 { (start_line - 1) as nat } else { 0 });
    let stack = pop_to(b1.stack, level).push((level, text));
    OutlineV {
        stack,
        h1: if level == 1 && b1.h1 is None { Some(text) } else { b1.h1 },
        current: Some(
            OpenV {
                level,
                heading_path: stack_texts(stack),
                line_start: start_line,
                code_langs: Seq::empty(),
                has_tables: false,
            },
        ),
        ..b1
    }
}

/// `have` with each of `langs` appended that it does not hold yet.
pub open spec fn add_langs(have: Seq<Seq<char>>, langs: Seq<Seq<char>>) -> Seq<Seq<char>>
    decreases langs.len(),
{
    if langs.len() == 0 {
        have
    } else {
        let h = add_langs(have, langs.drop_last());
        if h.contains(langs.last()) {
            h
        } else {
            h.push(langs.last())
        }
    }
}

/// The links of `links` that have no scheme, in order.
pub open spec fn internal_links(links: Seq<Seq<char>>) -> Seq<Seq<char>>
    decreases links.len(),
{
    if links.len() == 0 {
        Seq::empty()
    } else if has_scheme_of(links.last()) {
        internal_links(links.drop_last())
    } else {
        internal_links(links.drop_last()).push(links.last())
    }
}

/// The links of `links` that have a scheme, in order.
pub open spec fn external_links(links: Seq<Seq<char>>) -> Seq<Seq<char>>
    decreases links.len(),
{
    if links.len() == 0 {
        Seq::empty()
    } else if has_scheme_of(links.last()) {
        external_links(links.drop_last()).push(links.last())
    } else {
        external_links(links.drop_last())
    }
}

/// A top-level node's code languages and table go to the open section; its links go to the
/// document.
pub open spec fn collect_of(b: OutlineV, node: TopNodeV) -> OutlineV {
    OutlineV {
        current: match b.current {
            Some(cur) => Some(
                OpenV {
                    code_langs: add_langs(cur.code_langs, node.langs),
                    has_tables: cur.has_tables || node.has_table,
                    ..cur
                },
            ),
            None => None,
        },
        links_internal: b.links_internal + internal_links(node.links),
        links_external: b.links_external + external_links(node.links),
        ..b
    }
}

/// The lines `line..=end` of a raw HTML block: outside raw content, an ATX heading line
/// opens a section.
pub open spec fn html_scan_of(
    lines: Seq<Seq<char>>,
    line_count: nat,
    b: OutlineV,
    raw: RawScan,
    line: nat,
    end: nat,
) -> OutlineV
    decreases end + 1 - line,
{
    if line > end {
        b
    } else {
        let text = line_text_of(lines, line);
        let (raw2, skip) = raw_skip_of(raw, text);
        let b2 = if skip {
            b
        } else {
            match atx_of(text) {
                Some((level, heading)) => open_heading_of(lines, line_count, b, level, heading, line as u32),
                None => b,
            }
        };
        html_scan_of(lines, line_count, b2, raw2, line + 1, end)
    }
}

/// One top-level node: front matter is recorded and moves the body's start past it; a
/// heading in the body opens a section; any other node in the body belongs to the open
/// section (opening the preamble when there is none), and in a raw HTML block of type 6 or 7
/// its ATX heading lines open sections too.
pub open spec fn visit_of(lines: Seq<Seq<char>>, line_count: nat, b: OutlineV, node: TopNodeV) -> OutlineV {
    let start_line = node.start_line as u32;
    let end_line = node.end_line as u32;
    match node.kind {
        NodeKind::FrontMatter(raw) => {
            let after: u32 = if end_line < u32::MAX { (end_line + 1) as u32 } else { u32::MAX };
            OutlineV {
                frontmatter: Some(strip_fences_of(raw@)),
                body_start: if after > b.body_start { after } else { b.body_start },
                ..b
            }
        },
        NodeKind::Heading(level) => if start_line >= b.body_start {
            open_heading_of(lines, line_count, b, level, trim(node.inline), start_line)
        } else {
            b
        },
        _ => if end_line < b.body_start {
            b
        } else {
            let b1 = if b.current is None {
                OutlineV {
                    current: Some(
                        OpenV {
                            level: 0,
                            heading_path: Seq::empty(),
                            line_start: if b.body_start > start_line { b.body_start } else { start_line },
                            code_langs: Seq::empty(),
                            has_tables: false,
                        },
                    ),
                    ..b
                }
            } else {
                b
            };
            let first: u32 = if start_line > b.body_start { start_line } else { b.body_start };
            let b2 = match node.kind {
                NodeKind::HtmlBlock(t) => if t >= 6 {
                    html_scan_of(lines, line_count, b1, RawScan { fence: None, comment: false, raw_element: None }, first as nat, end_line as nat)
                } else {
                    b1
                },
                _ => b1,
            };
            collect_of(b2, node)
        },
    }
}

/// The sectioning state after the top-level nodes `nodes`, from `b`.
pub open spec fn outline_of(lines: Seq<Seq<char>>, line_count: nat, b: OutlineV, nodes: Seq<TopNodeV>) -> OutlineV
    decreases nodes.len(),
{
    if nodes.len() == 0 {
        b
    } else {
        visit_of(lines, line_count, outline_of(lines, line_count, b, nodes.drop_last()), nodes.last())
    }
}

/// The sum of the token estimates of sections given as values.
pub open spec fn token_sum_v(secs: Seq<SectionV>) -> nat
    decreases secs.len(),
{
    if secs.len() == 0 {
        0
    } else {
        token_sum_v(secs.drop_last()) + (secs.last().token_estimate as nat)
    }
}

/// The document once every node is visited: the last section closes at the end; the title
/// is the first level-1 heading, else the front matter's `title:`, else the MDX export.
pub open spec fn finish_of(lines: Seq<Seq<char>>, line_count: nat, b: OutlineV) -> DocumentV {
    let b1 = close_of(lines, line_count, b, line_count);
    let from_fm = match b1.frontmatter {
        Some(fm) => front_matter_title_of(fm),
        None => None,
    };
    DocumentV {
        title: match b1.h1 {
            Some(h) => Some(h),
            None => match from_fm {
                Some(t) => Some(t),
                None => b1.export_title,
            },
        },
        frontmatter: b1.frontmatter,
        sections: b1.sections,
        links_internal: b1.links_internal,
        links_external: b1.links_external,
        line_count: line_count as u32,
        token_estimate: if token_sum_v(b1.sections) > u32::MAX { u32::MAX } else { token_sum_v(b1.sections) as u32 },
        hash: crate::hash::blake3_hex_of(block_of(lines, 0, line_count as int)),
    }
}

/// The document `text` parses to as `flavor`, given the events of its syntax tree: the
/// text's lines (line endings normalised), the top-level nodes of the tree, the body's start
/// after front matter (and, for MDX, a leading ESM block), then every node visited in order.
pub open spec fn document_of(text: Seq<char>, events: Seq<AstEvent>, flavor: Flavor) -> DocumentV {
    let t = normalize_newlines_of(text);
    let lines = lines_of(t);
    let line_count = line_count_of(t);
    let nodes = top_nodes_of(events);
    let after_front_matter: u32 = if nodes.len() > 0 && nodes[0].kind is FrontMatter {
        let e = nodes[0].end_line as u32;
        if e < u32::MAX { (e + 1) as u32 } else { u32::MAX }
    } else {
        1
    };
    let (body_start, export_title) = match flavor {
        Flavor::Mdx => esm_block_of(
            lines,
            if after_front_matter >= 1 { after_front_matter - 1 } else { 0 },
            after_front_matter,
            None,
        ),
        Flavor::Markdown => (after_front_matter, None),
    };
    let start = OutlineV {
        stack: Seq::empty(),
        current: None,
        sections: Seq::empty(),
        h1: None,
        export_title,
        frontmatter: None,
        links_internal: Seq::empty(),
        links_external: Seq::empty(),
        body_start,
    };
    finish_of(lines, line_count, outline_of(lines, line_count, start, nodes))
}

/// The document `text` parses to as `flavor`, with the tree `comrak` builds for the text
/// (line endings normalised).
pub open spec fn parse_of(text: Seq<char>, flavor: Flavor) -> DocumentV {
    document_of(text, crate::comrak_ast::comrak_events_of(normalize_newlines_of(text)), flavor)
}

impl Open {
    spec fn view(&self) -> OpenV {
        OpenV {
            level: self.level,
            heading_path: texts(self.heading_path@),
            line_start: self.line_start,
            code_langs: texts(self.code_langs@),
            has_tables: self.has_tables,
        }
    }
}

/// The values of a heading stack.
pub open spec fn stack_view(stack: Seq<(u8, String)>) -> Seq<(u8, Seq<char>)> {
    stack.map_values(|e: (u8, String)| (e.0, e.1@))
}

/// The token sums of sections and of their views agree.
proof fn lemma_token_sum_views(secs: Seq<Section>)
    ensures
        token_sum(secs) == token_sum_v(section_views(secs)),
    decreases secs.len(),
{
    if secs.len() > 0 {
        lemma_token_sum_views(secs.drop_last());
        assert(section_views(secs).drop_last() =~= section_views(secs.drop_last()));
    }
}

impl Builder {
    spec fn view(&self) -> OutlineV {
        OutlineV {
            stack: stack_view(self.stack@),
            current: match self.current {
                Some(o) => Some(o.view()),
                None => None,
            },
            sections: section_views(self.sections@),
            h1: opt_view(self.h1),
            export_title: opt_view(self.export_title),
            frontmatter: opt_view(self.frontmatter),
            links_internal: texts(self.links_internal@),
            links_external: texts(self.links_external@),
            body_start: self.body_start,
        }
    }

    spec fn wf(&self) -> bool {
        &&& self.line_count <= self.lines.len()
        &&& self.line_count < u32::MAX - 2
        &&& self.sections.len() < u32::MAX
        &&& sections_wf(self.sections@, texts(self.lines@), self.line_count as nat)
    }

    /// Whether line `line` (1-based) is blank; lines outside the document count as blank.
    fn line_blank(&self, line: u32) -> (b: bool)
        ensures
            1 <= line <= self.lines.len() ==> b == blank(texts(self.lines@)[line - 1]),
    {
        if line == 0 || line as usize > self.lines.len() {
            return true;
        }
        is_blank_line(&self.lines[(line - 1) as usize])
    }

    /// The text of line `line` (1-based); empty outside the document.
    fn line_text(&self, line: u32) -> (r: String)
        ensures
            r@ == line_text_of(texts(self.lines@), line as nat),
    {
        if line == 0 || line as usize > self.lines.len() {
            return String::new();
        }
        self.lines[(line - 1) as usize].clone()
    }

    /// Close the open section so that it ends at `end_line` (inclusive), trimming trailing
    /// blank lines. Sections that would be empty are dropped.
    fn close_current(&mut self, end_line: u32)
        requires
            old(self).wf(),
        ensures
            final(self).wf(),
            final(self).current is None,
            final(self).lines == old(self).lines,
            final(self).line_count == old(self).line_count,
            final(self).sections.len() <= old(self).sections.len() + 1,
            old(self).sections@.len() > 0 ==> final(self).sections@.len() > 0 && final(self).sections@.last().line_end >= old(self).sections@.last().line_end,
            final(self).stack == old(self).stack,
            final(self).h1 == old(self).h1,
            final(self).export_title == old(self).export_title,
            final(self).frontmatter == old(self).frontmatter,
            final(self).links_internal == old(self).links_internal,
            final(self).links_external == old(self).links_external,
            final(self).body_start == old(self).body_start,
            forall|i: int| 0 <= i < old(self).sections.len() ==> final(self).sections@[i] == old(self).sections@[i],
            final(self).view() == close_of(texts(old(self).lines@), old(self).line_count as nat, old(self).view(), end_line as nat),
    {
        proof {
            lemma_sections_bounded(self.sections@, texts(self.lines@), self.line_count as nat);
        }
        let ghost b0 = self.view();
        let open = match self.current.take() {
            Some(o) => o,
            None => {
                return;
            },
        };
        assert(self.view() == (OutlineV { current: None, ..b0 }));
        let ghost ls = texts(self.lines@);
        let mut end: u32 = if end_line < self.line_count { end_line } else { self.line_count };
        let ghost end0 = end;
        while end >= open.line_start && end > 0 && self.line_blank(end)
            invariant
                end <= self.line_count <= self.lines.len(),
                ls == texts(self.lines@),
                trail_end(ls, open.line_start as nat, end as nat) == trail_end(ls, open.line_start as nat, end0 as nat),
            decreases end,
        {
            end = end - 1;
        }
        assert(trail_end(ls, open.line_start as nat, end as nat) == end);
        if end < open.line_start || open.line_start == 0 {
            return;
        }
        let n = self.sections.len();
        if n > 0 && open.line_start <= self.sections[n - 1].line_end {
            return;
        }
        proof {
            assert(1 <= end <= self.line_count);
            assert(!blank(ls[end - 1]));
        }
        let text = normalize_block(&self.lines, (open.line_start - 1) as usize, end as usize);
        let hash = crate::hash::blake3_hex(text.as_str());
        let token_estimate = token_estimate(text.as_str());
        let section = Section {
            index: n as u32,
            level: open.level,
            heading_path: open.heading_path,
            line_start: open.line_start,
            line_end: end,
            text,
            hash,
            token_estimate,
            code_langs: open.code_langs,
            has_tables: open.has_tables,
        };
        let ghost before = self.sections@;
        let ghost sv = section.view();
        self.sections.push(section);
        proof {
            assert(section_views(self.sections@) =~= section_views(before).push(sv));
            let secs = self.sections@;
            assert forall|i: int| 0 <= i < secs.len() implies section_fits(#[trigger] secs[i], i, ls, self.line_count as nat) by {
                if i < before.len() {
                    assert(secs[i] == before[i]);
                }
            }
            assert forall|i: int, j: int| 0 <= i < j < secs.len() implies (#[trigger] secs[i]).line_end < (#[trigger] secs[j]).line_start by {
                if j < before.len() {
                    assert(secs[i] == before[i] && secs[j] == before[j]);
                } else if i < before.len() - 1 {
                    assert(secs[i] == before[i]);
                    assert(before[i].line_end < before[before.len() - 1].line_start);
                } else {
                    assert(secs[i] == before[i]);
                }
            }
        }
    }
}


/// The sum of the sections' token estimates.
pub open spec fn token_sum(secs: Seq<Section>) -> nat
    decreases secs.len(),
{
    if secs.len() == 0 {
        0
    } else {
        token_sum(secs.drop_last()) + (secs.last().token_estimate as nat)
    }
}

impl Builder {
    /// Close the open section and start one at `start_line` for a heading.
    fn open_heading(&mut self, level: u8, text: String, start_line: u32)
        requires
            old(self).wf(),
        ensures
            final(self).wf(),
            final(self).lines == old(self).lines,
            final(self).line_count == old(self).line_count,
            final(self).export_title == old(self).export_title,
            final(self).frontmatter == old(self).frontmatter,
            final(self).links_internal == old(self).links_internal,
            final(self).links_external == old(self).links_external,
            final(self).body_start == old(self).body_start,
            final(self).view() == open_heading_of(
                texts(old(self).lines@),
                old(self).line_count as nat,
                old(self).view(),
                level,
                text@,
                start_line,
            ),
    {
        let end = if start_line > 0 { start_line - 1 } else { 0 };
        self.close_current(end);
        let ghost b1 = self.view();
        while self.stack.len() > 0 && self.stack[self.stack.len() - 1].0 >= level
            invariant
                self.wf(),
                self.lines == old(self).lines,
                self.line_count == old(self).line_count,
                self.export_title == old(self).export_title,
                self.frontmatter == old(self).frontmatter,
                self.links_internal == old(self).links_internal,
                self.links_external == old(self).links_external,
                self.body_start == old(self).body_start,
                pop_to(stack_view(self.stack@), level) == pop_to(b1.stack, level),
                self.view() == (OutlineV { stack: stack_view(self.stack@), ..b1 }),
            decreases self.stack.len(),
        {
            let ghost before = self.stack@;
            self.stack.pop();
            assert(stack_view(self.stack@) =~= stack_view(before).drop_last());
        }
        assert(pop_to(stack_view(self.stack@), level) == stack_view(self.stack@));
        let ghost popped = self.stack@;
        self.stack.push((level, text.clone()));
        assert(stack_view(self.stack@) =~= stack_view(popped).push((level, text@)));
        if level == 1 && self.h1.is_none() {
            self.h1 = Some(text);
        }
        let ghost st = stack_view(self.stack@);
        let mut heading_path: Vec<String> = Vec::new();
        let mut i: usize = 0;
        while i < self.stack.len()
            invariant
                0 <= i <= self.stack.len(),
                st == stack_view(self.stack@),
                texts(heading_path@) == stack_texts(st).take(i as int),
            decreases self.stack.len() - i,
        {
            let ghost hp = texts(heading_path@);
            heading_path.push(self.stack[i].1.clone());
            assert(texts(heading_path@) =~= hp.push(stack_texts(st)[i as int]));
            assert(stack_texts(st).take(i + 1) =~= stack_texts(st).take(i as int).push(stack_texts(st)[i as int]));
            i = i + 1;
        }
        assert(stack_texts(st).take(self.stack.len() as int) =~= stack_texts(st));
        assert(texts(Seq::<String>::empty()) =~= Seq::<Seq<char>>::empty());
        self.current = Some(
            Open {
                level,
                heading_path,
                line_start: start_line,
                code_langs: Vec::new(),
                has_tables: false,
            },
        );
    }

    /// Record code fences, tables and links found anywhere under a top-level node.
    fn collect_features(&mut self, node: &TopNode)
        requires
            old(self).wf(),
        ensures
            final(self).wf(),
            final(self).lines == old(self).lines,
            final(self).line_count == old(self).line_count,
            final(self).body_start == old(self).body_start,
            final(self).view() == collect_of(old(self).view(), node.view()),
    {
        let ghost b0 = self.view();
        let ghost langs = texts(node.langs@);
        let mut i: usize = 0;
        while i < node.langs.len()
            invariant
                0 <= i <= node.langs.len(),
                self.wf(),
                self.lines == old(self).lines,
                self.line_count == old(self).line_count,
                self.body_start == old(self).body_start,
                langs == texts(node.langs@),
                self.view() == (OutlineV {
                    current: match b0.current {
                        Some(cur) => Some(OpenV { code_langs: add_langs(cur.code_langs, langs.take(i as int)), ..cur }),
                        None => None,
                    },
                    ..b0
                }),
            decreases node.langs.len() - i,
        {
            let lang = &node.langs[i];
            proof {
                assert(langs.take(i + 1).drop_last() =~= langs.take(i as int));
                assert(langs.take(i + 1).last() == lang@);
            }
            match self.current {
                Some(ref mut cur) => {
                    if !crate::text::contains_string(&cur.code_langs, lang) {
                        let ghost before = texts(cur.code_langs@);
                        cur.code_langs.push(lang.clone());
                        assert(texts(cur.code_langs@) =~= before.push(lang@));
                    }
                },
                None => {},
            }
            i = i + 1;
        }
        assert(langs.take(node.langs.len() as int) =~= langs);
        if node.has_table {
            match self.current {
                Some(ref mut cur) => cur.has_tables = true,
                None => {},
            }
        }
        let ghost mid = self.view();
        let ghost links = texts(node.links@);
        let mut j: usize = 0;
        while j < node.links.len()
            invariant
                0 <= j <= node.links.len(),
                self.wf(),
                self.lines == old(self).lines,
                self.line_count == old(self).line_count,
                self.body_start == old(self).body_start,
                links == texts(node.links@),
                self.view() == (OutlineV {
                    links_internal: mid.links_internal + internal_links(links.take(j as int)),
                    links_external: mid.links_external + external_links(links.take(j as int)),
                    ..mid
                }),
            decreases node.links.len() - j,
        {
            let url = node.links[j].clone();
            proof {
                assert(links.take(j + 1).drop_last() =~= links.take(j as int));
                assert(links.take(j + 1).last() == url@);
            }
            let ghost li = texts(self.links_internal@);
            let ghost le = texts(self.links_external@);
            if has_scheme(url.as_str()) {
                self.links_external.push(url);
                assert(texts(self.links_external@) =~= le.push(links[j as int]));
                assert(mid.links_external + external_links(links.take(j + 1)) =~= (mid.links_external
                    + external_links(links.take(j as int))).push(links[j as int]));
            } else {
                self.links_internal.push(url);
                assert(texts(self.links_internal@) =~= li.push(links[j as int]));
                assert(mid.links_internal + internal_links(links.take(j + 1)) =~= (mid.links_internal
                    + internal_links(links.take(j as int))).push(links[j as int]));
            }
            j = j + 1;
        }
        assert(links.take(node.links.len() as int) =~= links);
    }

    /// Visit one top-level node: front matter is recorded, a heading opens a section, any
    /// other node belongs to the open section (or opens the preamble); in a raw HTML block
    /// of type 6 or 7, ATX heading lines outside raw content still open sections.
    fn visit_top_level(&mut self, node: &TopNode)
        requires
            old(self).wf(),
        ensures
            final(self).wf(),
            final(self).lines == old(self).lines,
            final(self).line_count == old(self).line_count,
            final(self).view() == visit_of(texts(old(self).lines@), old(self).line_count as nat, old(self).view(), node.view()),
    {
        let ghost ls = texts(self.lines@);
        let ghost lc = self.line_count as nat;
        let ghost b0 = self.view();
        let start_line = node.start_line as u32;
        let end_line = node.end_line as u32;
        let mut html_block = false;
        match &node.kind {
            NodeKind::FrontMatter(raw) => {
                self.frontmatter = Some(strip_front_matter_fences(raw.as_str()));
                let after = if end_line < u32::MAX { end_line + 1 } else { u32::MAX };
                if after > self.body_start {
                    self.body_start = after;
                }
                return;
            },
            NodeKind::Heading(level) => {
                if start_line >= self.body_start {
                    let text = trimmed(node.inline.as_str());
                    self.open_heading(*level, text, start_line);
                }
                return;
            },
            NodeKind::HtmlBlock(block_type) => {
                html_block = *block_type >= 6;
            },
            _ => {},
        }
        if end_line < self.body_start {
            return;
        }
        if self.current.is_none() {
            let line_start = if self.body_start > start_line { self.body_start } else { start_line };
            self.current = Some(
                Open {
                    level: 0,
                    heading_path: Vec::new(),
                    line_start,
                    code_langs: Vec::new(),
                    has_tables: false,
                },
            );
            assert(texts(Seq::<String>::empty()) =~= Seq::<Seq<char>>::empty());
        }
        let ghost b1 = self.view();
        if html_block {
            let mut raw = RawScan::new();
            let first = if start_line > self.body_start { start_line } else { self.body_start };
            let ghost raw0 = raw;
            let mut line: u64 = first as u64;
            while line <= end_line as u64
                invariant
                    self.wf(),
                    self.lines == old(self).lines,
                    self.line_count == old(self).line_count,
                    ls == texts(self.lines@),
                    lc == self.line_count as nat,
                    line >= first as u64,
                    line <= end_line as u64 + 1 || line == first as u64,
                    html_scan_of(ls, lc, self.view(), raw, line as nat, end_line as nat)
                        == html_scan_of(ls, lc, b1, raw0, first as nat, end_line as nat),
                decreases end_line as u64 + 1 - line,
            {
                let ghost bv = self.view();
                let ghost rv = raw;
                let text = self.line_text(line as u32);
                if !raw.skip(text.as_str()) {
                    match atx_heading(text.as_str()) {
                        Some((level, heading)) => self.open_heading(level, heading, line as u32),
                        None => {},
                    }
                }
                assert(html_scan_of(ls, lc, bv, rv, line as nat, end_line as nat)
                    == html_scan_of(ls, lc, self.view(), raw, (line + 1) as nat, end_line as nat));
                line = line + 1;
            }
        }
        self.collect_features(node);
    }

    fn finish(self) -> (doc: Document)
        requires
            self.wf(),
        ensures
            doc.line_count == self.line_count,
            sections_wf(doc.sections@, texts(self.lines@), self.line_count as nat),
            doc.hash@ == crate::hash::blake3_hex_of(block_of(texts(self.lines@), 0, self.line_count as int)),
            crate::hash::is_hex_digest(doc.hash@),
            doc.token_estimate == if token_sum(doc.sections@) > u32::MAX { u32::MAX as nat } else { token_sum(doc.sections@) },
            doc.view() == finish_of(texts(self.lines@), self.line_count as nat, self.view()),
    {
        let mut b = self;
        let lc = b.line_count;
        b.close_current(lc);
        proof {
            lemma_token_sum_views(b.sections@);
        }
        let whole = normalize_block(&b.lines, 0, b.line_count as usize);
        let title = match b.h1 {
            Some(h) => Some(h),
            None => {
                let from_fm = match &b.frontmatter {
                    Some(fm) => front_matter_title(fm.as_str()),
                    None => None,
                };
                match from_fm {
                    Some(t) => Some(t),
                    None => b.export_title,
                }
            },
        };
        let mut total: u64 = 0;
        let mut i: usize = 0;
        while i < b.sections.len()
            invariant
                0 <= i <= b.sections.len(),
                total == if token_sum(b.sections@.take(i as int)) > u32::MAX { u32::MAX as nat } else { token_sum(b.sections@.take(i as int)) },
            decreases b.sections.len() - i,
        {
            proof {
                assert(b.sections@.take(i + 1).drop_last() =~= b.sections@.take(i as int));
            }
            let t = total + b.sections[i].token_estimate as u64;
            total = if t > u32::MAX as u64 { u32::MAX as u64 } else { t };
            i = i + 1;
        }
        assert(b.sections@.take(b.sections.len() as int) =~= b.sections@);
        Document {
            title,
            frontmatter: b.frontmatter,
            token_estimate: total as u32,
            hash: crate::hash::blake3_hex(whole.as_str()),
            line_count: b.line_count,
            sections: b.sections,
            links_internal: b.links_internal,
            links_external: b.links_external,
        }
    }
}

proof fn lemma_normalize_newlines_len(s: Seq<char>)
    ensures
        normalize_newlines_of(s).len() <= s.len(),
    decreases s.len(),
{
    if s.len() > 0 {
        lemma_normalize_newlines_len(s.drop_first());
        if s.len() > 1 {
            lemma_normalize_newlines_len(s.skip(2));
        }
    }
}

/// What a parsed document's fields say about the text it was parsed from: its line count,
/// its hash over all its normalised lines, well-formed sections and their token sum.
pub open spec fn document_fits(doc: Document, text: Seq<char>) -> bool {
    let t = normalize_newlines_of(text);
    &&& doc.line_count == line_count_of(t)
    &&& sections_wf(doc.sections@, lines_of(t), doc.line_count as nat)
    &&& doc.hash@ == crate::hash::blake3_hex_of(block_of(lines_of(t), 0, doc.line_count as int))
    &&& crate::hash::is_hex_digest(doc.hash@)
    &&& doc.token_estimate == if token_sum(doc.sections@) > u32::MAX { u32::MAX as nat } else { token_sum(doc.sections@) }
}

/// Every section of a parsed document is well formed: sections are numbered in order, each
/// spans lines `line_start..=line_end` inside the document (`1 <= line_start <= line_end <=
/// line_count`) after the previous one, its text is exactly those lines with trailing
/// whitespace stripped and joined by `\n`, that text is never blank, and its hash is 64
/// hexadecimal characters.
pub proof fn law_sections_are_well_formed(doc: Document, text: Seq<char>)
    requires
        document_fits(doc, text),
    ensures
        forall|i: int| #![trigger doc.sections@[i]] 0 <= i < doc.sections@.len() ==> {
            let s = doc.sections@[i];
            let lines = lines_of(normalize_newlines_of(text));
            &&& s.index == i
            &&& 1 <= s.line_start <= s.line_end <= doc.line_count
            &&& (i > 0 ==> doc.sections@[i - 1].line_end < s.line_start)
            &&& s.text@ == block_of(lines, s.line_start - 1, s.line_end as int)
            &&& trim(s.text@).len() > 0
            &&& s.hash@.len() == 64
        },
{
    let lines = lines_of(normalize_newlines_of(text));
    assert forall|i: int| #![trigger doc.sections@[i]] 0 <= i < doc.sections@.len() implies {
        let s = doc.sections@[i];
        &&& s.index == i
        &&& 1 <= s.line_start <= s.line_end <= doc.line_count
        &&& (i > 0 ==> doc.sections@[i - 1].line_end < s.line_start)
        &&& s.text@ == block_of(lines, s.line_start - 1, s.line_end as int)
        &&& trim(s.text@).len() > 0
        &&& s.hash@.len() == 64
    } by {
        let s = doc.sections@[i];
        assert(section_fits(s, i, lines, doc.line_count as nat));
        law_section_text_not_blank(doc.sections@, lines, doc.line_count as nat, i);
        if i > 0 {
            assert(doc.sections@[i - 1].line_end < doc.sections@[i].line_start);
        }
    }
}

/// Parse text as the given flavour. Never fails: any text is a document.
///
/// Which lines start sections, and the headings' text, follow the tree `comrak` builds (see
/// [`crate::comrak_ast`]); what every document satisfies whatever that tree is, is stated
/// by [`document_fits`].
pub fn parse_str_as(text: &str, flavor: Flavor) -> (doc: Document)
    requires
        text@.len() < u32::MAX - 3,
    ensures
        doc.view() == parse_of(text@, flavor),
        document_fits(doc, text@),
{
    let v = normalize_newlines(text);
    let t = crate::text::string_of(&v);
    let events = crate::comrak_ast::comrak_events(t.as_str());
    document_from_events(text, &events, flavor)
}

/// Section `text` as `flavor` along the pre-order walk `events` of its syntax tree (see
/// [`document_of`]); every result fits the text (see [`document_fits`]).
pub fn document_from_events(text: &str, events: &Vec<AstEvent>, flavor: Flavor) -> (doc: Document)
    requires
        text@.len() < u32::MAX - 3,
    ensures
        doc.view() == document_of(text@, events@, flavor),
        document_fits(doc, text@),
{
    let v = normalize_newlines(text);
    proof {
        lemma_normalize_newlines_len(text@);
        lemma_lines_of_len(v@);
    }
    let lines = split_lines(&v);
    let line_count: u32 = if v.len() == 0 || v[v.len() - 1] == '\n' {
        (lines.len() - 1) as u32
    } else {
        lines.len() as u32
    };
    let nodes = top_nodes(events);
    let after_front_matter: u32 = if nodes.len() > 0 {
        match &nodes[0].kind {
            NodeKind::FrontMatter(_) => {
                let e = nodes[0].end_line as u32;
                if e < u32::MAX { e + 1 } else { u32::MAX }
            },
            _ => 1,
        }
    } else {
        1
    };
    let (body_start, export_title) = match flavor {
        Flavor::Mdx => leading_esm_block(&lines, after_front_matter),
        Flavor::Markdown => (after_front_matter, None),
    };
    let mut b = Builder {
        lines,
        line_count,
        stack: Vec::new(),
        current: None,
        sections: Vec::new(),
        h1: None,
        export_title,
        frontmatter: None,
        links_internal: Vec::new(),
        links_external: Vec::new(),
        body_start,
    };
    let ghost ls = lines_of(v@);
    let ghost lc = line_count_of(v@);
    let ghost tops = top_views(nodes@);
    let ghost start = b.view();
    proof {
        assert(texts(Seq::<String>::empty()) =~= Seq::<Seq<char>>::empty());
        assert(section_views(Seq::<Section>::empty()) =~= Seq::<SectionV>::empty());
        assert(stack_view(Seq::<(u8, String)>::empty()) =~= Seq::<(u8, Seq<char>)>::empty());
        if nodes.len() > 0 {
            assert(tops[0] == nodes@[0].view());
        }
    }
    let mut i: usize = 0;
    while i < nodes.len()
        invariant
            0 <= i <= nodes.len(),
            b.wf(),
            texts(b.lines@) == ls,
            b.line_count == lc,
            ls == lines_of(v@),
            lc == line_count_of(v@),
            tops == top_views(nodes@),
            b.view() == outline_of(ls, lc, start, tops.take(i as int)),
        decreases nodes.len() - i,
    {
        proof {
            assert(tops.take(i + 1).drop_last() =~= tops.take(i as int));
            assert(tops.take(i + 1).last() == nodes@[i as int].view());
        }
        b.visit_top_level(&nodes[i]);
        i = i + 1;
    }
    assert(tops.take(nodes.len() as int) =~= tops);
    b.finish()
}

/// `s` holds no `\r` directly before a `\n`.
pub open spec fn no_crlf(s: Seq<char>) -> bool {
    forall|i: int| 0 <= i < s.len() - 1 ==> !(#[trigger] s[i] == '\r' && s[i + 1] == '\n')
}

/// Writing every `\n` as `\r\n` changes nothing once line endings are normalised, for any
/// text that holds no `\r\n` yet (a lone `\r` is a line ending either way).
pub proof fn lemma_crlf_of_normalises(s: Seq<char>)
    requires
        no_crlf(s),
    ensures
        normalize_newlines_of(crlf_of(s)) == normalize_newlines_of(s),
    decreases s.len(),
{
    if s.len() > 0 {
        let rest = s.drop_first();
        assert forall|i: int| 0 <= i < rest.len() - 1 implies !(#[trigger] rest[i] == '\r' && rest[i + 1] == '\n') by {
            assert(rest[i] == s[i + 1] && rest[i + 1] == s[i + 2]);
        }
        lemma_crlf_of_normalises(rest);
        let c = crlf_of(s);
        if s[0] == '\n' {
            assert(c.skip(2) =~= crlf_of(rest));
            assert(c[0] == '\r' && c[1] == '\n');
        } else {
            assert(c.drop_first() =~= crlf_of(rest));
            assert(c[0] == s[0]);
            if s[0] == '\r' && c.len() > 1 {
                assert(s.len() > 1);
                assert(s[1] != '\n');
                if rest[0] == '\n' {
                    assert(false);
                }
                assert(crlf_of(rest)[0] == rest[0]);
                assert(c[1] == crlf_of(rest)[0]);
            }
        }
        assert(s.len() > 1 ==> s[1] == rest[0]);
    }
}

/// Line endings never influence the parse: a text with no `\r\n` and the same text with
/// every `\n` written as `\r\n` give the same document (hashes, ranges, headings and all).
pub proof fn law_line_endings_do_not_change_the_document(s: Seq<char>, flavor: Flavor)
    requires
        no_crlf(s),
    ensures
        parse_of(crlf_of(s), flavor) == parse_of(s, flavor),
{
    lemma_crlf_of_normalises(s);
}

/// Parse plain markdown text. Never fails.
pub fn parse_str(text: &str) -> (doc: Document)
    requires
        text@.len() < u32::MAX - 3,
    ensures
        doc.view() == parse_of(text@, Flavor::Markdown),
        document_fits(doc, text@),
{
    parse_str_as(text, Flavor::Markdown)
}
} // verus!

verus! {

/// No section is blank: the text of every section of a well-formed list has something
/// besides whitespace.
pub proof fn law_section_text_not_blank(secs: Seq<Section>, lines: Seq<Seq<char>>, line_count: nat, i: int)
    requires
        sections_wf(secs, lines, line_count),
        0 <= i < secs.len(),
    ensures
        trim(secs[i].text@).len() > 0,
{
    let s = secs[i];
    assert(section_fits(s, i, lines, line_count));
    let a = s.line_start - 1;
    let b = s.line_end as int;
    let m = lines.subrange(a, b).map_values(|l: Seq<char>| trim_end(l));
    let last_line = lines[b - 1];
    crate::text::lemma_trim_empty_iff_all_ws(last_line);
    crate::text::lemma_trim_end(last_line);
    let te = trim_end(last_line);
    assert(m.last() == te);
    if te.len() == 0 {
        // then the whole line is whitespace
        assert(all_ws(last_line)) by {
            assert(last_line.subrange(0, last_line.len() as int) =~= last_line);
        }
    }
    assert(te.len() > 0);
    assert(!is_ws(te.last()));
    let text = s.text@;
    reveal_strlit("\n");
    if m.len() == 1 {
        assert(text == te);
    } else {
        assert(text == join_of(m.drop_last(), "\n"@) + "\n"@ + m.last());
    }
    assert(text.last() == te.last());
    crate::text::lemma_trim_empty_iff_all_ws(text);
}

} // verus!

verus! {

// ---------------------------------------------------------------- title and code languages

proof fn lemma_html_scan_keeps_title(lines: Seq<Seq<char>>, line_count: nat, b: OutlineV, raw: RawScan, line: nat, end: nat)
    requires
        b.h1 is Some,
    ensures
        html_scan_of(lines, line_count, b, raw, line, end).h1 == b.h1,
    decreases end + 1 - line,
{
    if line <= end {
        let text = line_text_of(lines, line);
        let (raw2, skip) = raw_skip_of(raw, text);
        let b2 = if skip {
            b
        } else {
            match atx_of(text) {
                Some((level, heading)) => open_heading_of(lines, line_count, b, level, heading, line as u32),
                None => b,
            }
        };
        lemma_html_scan_keeps_title(lines, line_count, b2, raw2, line + 1, end);
    }
}

proof fn lemma_visit_keeps_title(lines: Seq<Seq<char>>, line_count: nat, b: OutlineV, node: TopNodeV)
    requires
        b.h1 is Some,
    ensures
        visit_of(lines, line_count, b, node).h1 == b.h1,
{
    let start_line = node.start_line as u32;
    let end_line = node.end_line as u32;
    match node.kind {
        NodeKind::FrontMatter(_) => {},
        NodeKind::Heading(_) => {},
        _ => if end_line >= b.body_start {
            let b1 = if b.current is None {
                OutlineV {
                    current: Some(
                        OpenV {
                            level: 0,
                            heading_path: Seq::empty(),
                            line_start: if b.body_start > start_line { b.body_start } else { start_line },
                            code_langs: Seq::empty(),
                            has_tables: false,
                        },
                    ),
                    ..b
                }
            } else {
                b
            };
            let first: u32 = if start_line > b.body_start { start_line } else { b.body_start };
            match node.kind {
                NodeKind::HtmlBlock(t) => if t >= 6 {
                    lemma_html_scan_keeps_title(lines, line_count, b1, RawScan { fence: None, comment: false, raw_element: None }, first as nat, end_line as nat);
                },
                _ => {},
            }
        },
    }
}

/// The title comes from the first level-1 heading: a level-1 heading gives the document
/// its title only while it has none, and once some prefix of the top-level nodes has given
/// it a title, every later node (heading or not, level 1 or not) leaves it, and the finished
/// document carries it.
pub proof fn law_title_is_the_first_level_one_heading(
    lines: Seq<Seq<char>>,
    line_count: nat,
    b: OutlineV,
    nodes: Seq<TopNodeV>,
    k: int,
    t: Seq<char>,
)
    requires
        0 <= k <= nodes.len(),
        outline_of(lines, line_count, b, nodes.take(k)).h1 == Some(t),
    ensures
        outline_of(lines, line_count, b, nodes).h1 == Some(t),
        finish_of(lines, line_count, outline_of(lines, line_count, b, nodes)).title == Some(t),
        forall|level: u8, text: Seq<char>, start: u32| #[trigger] open_heading_of(lines, line_count, b, level, text, start).h1
            == if b.h1 is Some { b.h1 } else if level == 1 { Some(text) } else { None::<Seq<char>> },
    decreases nodes.len(),
{
    if k == nodes.len() {
        assert(nodes.take(k) =~= nodes);
    } else {
        assert(nodes.take(k) =~= nodes.drop_last().take(k));
        law_title_is_the_first_level_one_heading(lines, line_count, b, nodes.drop_last(), k, t);
        lemma_visit_keeps_title(lines, line_count, outline_of(lines, line_count, b, nodes.drop_last()), nodes.last());
    }
}

/// Adding fence languages to a list keeps each once: the result holds exactly the
/// languages already there and the new ones, and has no repeat when the list had none.
pub proof fn law_add_langs_keeps_each_once(have: Seq<Seq<char>>, langs: Seq<Seq<char>>)
    ensures
        have.no_duplicates() ==> add_langs(have, langs).no_duplicates(),
        forall|x: Seq<char>| #[trigger] add_langs(have, langs).contains(x) <==> (have.contains(x) || langs.contains(x)),
    decreases langs.len(),
{
    if langs.len() > 0 {
        let l = langs.last();
        let p = langs.drop_last();
        law_add_langs_keeps_each_once(have, p);
        let h = add_langs(have, p);
        assert forall|x: Seq<char>| #[trigger] add_langs(have, langs).contains(x) <==> (have.contains(x) || langs.contains(x)) by {
            if p.contains(x) {
                let i = choose|i: int| 0 <= i < p.len() && p[i] == x;
                assert(langs[i] == x);
            }
            if langs.contains(x) && x != l {
                let i = choose|i: int| 0 <= i < langs.len() && langs[i] == x;
                assert(i != langs.len() - 1);
                assert(p[i] == x);
            }
            if x == l {
                assert(langs[langs.len() - 1] == x);
            }
            if !h.contains(l) {
                let r = h.push(l);
                if r.contains(x) {
                    let i = choose|i: int| 0 <= i < r.len() && r[i] == x;
                    if i < h.len() {
                        assert(h[i] == x);
                    }
                }
                if h.contains(x) {
                    let i = choose|i: int| 0 <= i < h.len() && h[i] == x;
                    assert(r[i] == x);
                }
                if x == l {
                    assert(r[h.len() as int] == x);
                }
            }
        }
        if have.no_duplicates() && !h.contains(l) {
            let r = h.push(l);
            assert forall|i: int, j: int| 0 <= i < r.len() && 0 <= j < r.len() && i != j implies r[i] != r[j] by {
                if i < h.len() && j < h.len() {
                } else if i < h.len() {
                    assert(h.contains(r[i]));
                } else {
                    assert(h.contains(r[j]));
                }
            }
        }
    }
}

/// Every section closed so far, and the one being filled, lists each code language once.
pub open spec fn langs_once(b: OutlineV) -> bool {
    &&& (b.current matches Some(c) ==> c.code_langs.no_duplicates())
    &&& forall|i: int| 0 <= i < b.sections.len() ==> (#[trigger] b.sections[i]).code_langs.no_duplicates()
}

proof fn lemma_close_langs(lines: Seq<Seq<char>>, line_count: nat, b: OutlineV, end_line: nat)
    requires
        langs_once(b),
    ensures
        langs_once(close_of(lines, line_count, b, end_line)),
{
    let r = close_of(lines, line_count, b, end_line);
    if let Some(open) = b.current {
        assert forall|i: int| 0 <= i < r.sections.len() implies (#[trigger] r.sections[i]).code_langs.no_duplicates() by {
            if i < b.sections.len() {
                assert(r.sections[i] == b.sections[i]);
            }
        }
    }
}

proof fn lemma_open_heading_langs(lines: Seq<Seq<char>>, line_count: nat, b: OutlineV, level: u8, text: Seq<char>, start: u32)
    requires
        langs_once(b),
    ensures
        langs_once(open_heading_of(lines, line_count, b, level, text, start)),
{
    lemma_close_langs(lines, line_count, b, if start > 0 { (start - 1) as nat } else { 0 });
    let r = open_heading_of(lines, line_count, b, level, text, start);
    assert(r.current.unwrap().code_langs =~= Seq::<Seq<char>>::empty());
}

proof fn lemma_html_scan_langs(lines: Seq<Seq<char>>, line_count: nat, b: OutlineV, raw: RawScan, line: nat, end: nat)
    requires
        langs_once(b),
    ensures
        langs_once(html_scan_of(lines, line_count, b, raw, line, end)),
    decreases end + 1 - line,
{
    if line <= end {
        let text = line_text_of(lines, line);
        let (raw2, skip) = raw_skip_of(raw, text);
        let b2 = if skip {
            b
        } else {
            match atx_of(text) {
                Some((level, heading)) => open_heading_of(lines, line_count, b, level, heading, line as u32),
                None => b,
            }
        };
        if !skip {
            if let Some((level, heading)) = atx_of(text) {
                lemma_open_heading_langs(lines, line_count, b, level, heading, line as u32);
            }
        }
        lemma_html_scan_langs(lines, line_count, b2, raw2, line + 1, end);
    }
}

proof fn lemma_visit_langs(lines: Seq<Seq<char>>, line_count: nat, b: OutlineV, node: TopNodeV)
    requires
        langs_once(b),
    ensures
        langs_once(visit_of(lines, line_count, b, node)),
{
    let start_line = node.start_line as u32;
    let end_line = node.end_line as u32;
    match node.kind {
        NodeKind::FrontMatter(_) => {},
        NodeKind::Heading(level) => if start_line >= b.body_start {
            lemma_open_heading_langs(lines, line_count, b, level, trim(node.inline), start_line);
        },
        _ => if end_line >= b.body_start {
            let b1 = if b.current is None {
                OutlineV {
                    current: Some(
                        OpenV {
                            level: 0,
                            heading_path: Seq::empty(),
                            line_start: if b.body_start > start_line { b.body_start } else { start_line },
                            code_langs: Seq::empty(),
                            has_tables: false,
                        },
                    ),
                    ..b
                }
            } else {
                b
            };
            if b.current is None {
                assert(b1.current.unwrap().code_langs =~= Seq::<Seq<char>>::empty());
            }
            let first: u32 = if start_line > b.body_start { start_line } else { b.body_start };
            let b2 = match node.kind {
                NodeKind::HtmlBlock(t) => if t >= 6 {
                    html_scan_of(lines, line_count, b1, RawScan { fence: None, comment: false, raw_element: None }, first as nat, end_line as nat)
                } else {
                    b1
                },
                _ => b1,
            };
            match node.kind {
                NodeKind::HtmlBlock(t) => if t >= 6 {
                    lemma_html_scan_langs(lines, line_count, b1, RawScan { fence: None, comment: false, raw_element: None }, first as nat, end_line as nat);
                },
                _ => {},
            }
            if let Some(cur) = b2.current {
                law_add_langs_keeps_each_once(cur.code_langs, node.langs);
            }
        },
    }
}

proof fn lemma_outline_langs(lines: Seq<Seq<char>>, line_count: nat, b: OutlineV, nodes: Seq<TopNodeV>)
    requires
        langs_once(b),
    ensures
        langs_once(outline_of(lines, line_count, b, nodes)),
    decreases nodes.len(),
{
    if nodes.len() > 0 {
        lemma_outline_langs(lines, line_count, b, nodes.drop_last());
        lemma_visit_langs(lines, line_count, outline_of(lines, line_count, b, nodes.drop_last()), nodes.last());
    }
}

/// Every section of every document lists the languages of its fenced code blocks once
/// each, whatever the syntax tree: no language appears twice in a section's `code_langs`.
pub proof fn law_code_langs_have_no_repeats(text: Seq<char>, events: Seq<AstEvent>, flavor: Flavor)
    ensures
        forall|i: int| 0 <= i < document_of(text, events, flavor).sections.len()
            ==> (#[trigger] document_of(text, events, flavor).sections[i]).code_langs.no_duplicates(),
{
    let t = normalize_newlines_of(text);
    let lines = lines_of(t);
    let line_count = line_count_of(t);
    let nodes = top_nodes_of(events);
    let after_front_matter: u32 = if nodes.len() > 0 && nodes[0].kind is FrontMatter {
        let e = nodes[0].end_line as u32;
        if e < u32::MAX { (e + 1) as u32 } else { u32::MAX }
    } else {
        1
    };
    let (body_start, export_title) = match flavor {
        Flavor::Mdx => esm_block_of(
            lines,
            if after_front_matter >= 1 { after_front_matter - 1 } else { 0 },
            after_front_matter,
            None,
        ),
        Flavor::Markdown => (after_front_matter, None),
    };
    let start = OutlineV {
        stack: Seq::empty(),
        current: None,
        sections: Seq::empty(),
        h1: None,
        export_title,
        frontmatter: None,
        links_internal: Seq::empty(),
        links_external: Seq::empty(),
        body_start,
    };
    lemma_outline_langs(lines, line_count, start, nodes);
    lemma_close_langs(lines, line_count, outline_of(lines, line_count, start, nodes), line_count);
}

} // verus!
