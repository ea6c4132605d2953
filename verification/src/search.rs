//! The text rules of retrieval: which words of a query count, the OR fallback query, and
//! the snippet shown for a hit.

use vstd::prelude::*;
use crate::markdown::{str_lines_of, lemma_lines_of_len, lines_of, split_lines};
use crate::store::fts_escape_of;
use crate::text::{
    chars_of, contains_seq, has_prefix, is_ws, join, join_of, lowercase_of, push_char,
    same_text, split_words, texts, to_lower, trim, trim_start, trimmed, words_of,
};

verus! {

/// Which index produced a hit.
#[derive(Debug, Clone, Copy, PartialEq, Eq, Structural)]
pub enum Matched {
    /// Only the card fields matched.
    Cards,
    /// Only the raw section text matched.
    Raw,
    /// Both.
    Both,
    /// Neither lexical index matched; only the card vector did.
    Vector,
}

/// `char::is_alphanumeric`: the Unicode `Alphabetic` or `Numeric` properties.
pub uninterp spec fn is_alphanumeric_of(c: char) -> bool;

/// Calls `char::is_alphanumeric`. Its answer is a function of the character alone (the
/// Unicode tables of the standard library); the contract names it.
#[verifier::external_body]
pub(crate) fn is_alphanumeric(c: char) -> (b: bool)
    ensures
        b == is_alphanumeric_of(c),
{
    c.is_alphanumeric()
}

/// `w` without leading and trailing characters that are not alphanumeric.
pub open spec fn trim_non_alnum(w: Seq<char>) -> Seq<char>
    decreases w.len(),
{
    if w.len() > 0 && !is_alphanumeric_of(w[0]) {
        trim_non_alnum(w.drop_first())
    } else if w.len() > 0 && !is_alphanumeric_of(w.last()) {
        trim_non_alnum(w.drop_last())
    } else {
        w
    }
}

fn trim_non_alnum_exec(w: &str) -> (r: String)
    ensures
        r@ == trim_non_alnum(w@),
{
    let v = chars_of(w);
    let mut lo: usize = 0;
    let mut hi: usize = v.len();
    assert(v@.subrange(0, v.len() as int) =~= w@);
    while lo < hi && !is_alphanumeric(v[lo])
        invariant
            0 <= lo <= hi == v.len(),
            trim_non_alnum(w@) == trim_non_alnum(v@.subrange(lo as int, hi as int)),
        decreases hi - lo,
    {
        assert(v@.subrange(lo as int, hi as int).drop_first() =~= v@.subrange(lo + 1, hi as int));
        lo = lo + 1;
    }
    while lo < hi && !is_alphanumeric(v[hi - 1])
        invariant
            0 <= lo <= hi <= v.len(),
            lo < hi ==> is_alphanumeric_of(v@[lo as int]),
            trim_non_alnum(w@) == trim_non_alnum(v@.subrange(lo as int, hi as int)),
        decreases hi - lo,
    {
        let ghost s = v@.subrange(lo as int, hi as int);
        assert(s[0] == v@[lo as int]);
        assert(s.drop_last() =~= v@.subrange(lo as int, hi - 1));
        hi = hi - 1;
    }
    let ghost s = v@.subrange(lo as int, hi as int);
    if lo < hi {
        assert(s[0] == v@[lo as int]);
        assert(s.last() == v@[hi - 1]);
    }
    crate::text::string_of_range(&v, lo, hi)
}

/// The stop-words an AND query drops.
pub open spec fn is_stopword(w: Seq<char>) -> bool {
    stopwords().contains(w)
}

/// The stop-words: function words that long questions are mostly made of.
pub open spec fn stopwords() -> Seq<Seq<char>> {
    seq![
        "a"@, "an"@, "and"@, "are"@, "as"@, "at"@, "be"@, "but"@, "by"@, "can"@, "do"@, "does"@,
        "for"@, "from"@, "how"@, "i"@, "if"@, "in"@, "into"@, "is"@, "it"@, "its"@, "my"@, "of"@,
        "on"@, "or"@, "that"@, "the"@, "this"@, "to"@, "was"@, "we"@, "what"@, "when"@, "where"@,
        "which"@, "why"@, "with"@, "you"@, "your"@
    ]
}

fn stopword_list() -> (v: Vec<&'static str>)
    ensures
        v@.map_values(|s: &str| s@) == stopwords(),
{
    let v = vec![
        "a", "an", "and", "are", "as", "at", "be", "but", "by", "can", "do", "does", "for", "from",
        "how", "i", "if", "in", "into", "is", "it", "its", "my", "of", "on", "or", "that", "the",
        "this", "to", "was", "we", "what", "when", "where", "which", "why", "with", "you", "your",
    ];
    assert(v@.map_values(|s: &str| s@) =~= stopwords());
    v
}

fn is_stop(w: &str) -> (b: bool)
    ensures
        b == is_stopword(w@),
{
    let list = stopword_list();
    let ghost sw = stopwords();
    let mut i: usize = 0;
    while i < list.len()
        invariant
            0 <= i <= list.len(),
            list@.map_values(|s: &str| s@) == sw,
            sw == stopwords(),
            forall|j: int| 0 <= j < i ==> sw[j] != w@,
        decreases list.len() - i,
    {
        if same_text(list[i], w) {
            assert(sw[i as int] == w@);
            return true;
        }
        i = i + 1;
    }
    false
}

/// A word is kept in the AND form unless, trimmed of non-alphanumerics and lower-cased, it
/// is a stop-word.
pub open spec fn keeps_word(w: Seq<char>) -> bool {
    !is_stopword(lowercase_of(trim_non_alnum(w)))
}

/// The kept words of `ws`, in order.
pub open spec fn kept_words(ws: Seq<Seq<char>>) -> Seq<Seq<char>>
    decreases ws.len(),
{
    if ws.len() == 0 {
        ws
    } else if keeps_word(ws.last()) {
        kept_words(ws.drop_last()).push(ws.last())
    } else {
        kept_words(ws.drop_last())
    }
}

/// The AND form of a query: its kept words joined by spaces, or the query unchanged when
/// every word is a stop-word.
pub open spec fn without_stopwords_of(query: Seq<char>) -> Seq<char> {
    let kept = kept_words(words_of(query));
    if kept.len() == 0 {
        query
    } else {
        join_of(kept, " "@)
    }
}

/// Drop stop-words from a query; a query made only of stop-words is left as it is.
pub fn without_stopwords(query: &str) -> (r: String)
    ensures
        r@ == without_stopwords_of(query@),
{
    let words = split_words(query);
    let ghost ws = texts(words@);
    let mut kept: Vec<String> = Vec::new();
    let mut i: usize = 0;
    while i < words.len()
        invariant
            0 <= i <= words.len(),
            ws == texts(words@),
            texts(kept@) == kept_words(ws.take(i as int)),
        decreases words.len() - i,
    {
        proof {
            assert(ws.take(i + 1).drop_last() =~= ws.take(i as int));
            assert(ws.take(i + 1).last() == words@[i as int]@);
        }
        let t = trim_non_alnum_exec(words[i].as_str());
        let l = to_lower(t.as_str());
        if !is_stop(l.as_str()) {
            let ghost k0 = texts(kept@);
            kept.push(words[i].clone());
            assert(texts(kept@) =~= k0.push(words@[i as int]@));
        }
        i = i + 1;
    }
    assert(ws.take(words.len() as int) =~= ws);
    if kept.len() == 0 {
        query.to_owned()
    } else {
        join(&kept, " ")
    }
}

/// The escaped words of a query that are not empty once escaped.
pub open spec fn or_terms(ws: Seq<Seq<char>>) -> Seq<Seq<char>>
    decreases ws.len(),
{
    if ws.len() == 0 {
        ws
    } else if fts_escape_of(ws.last()).len() > 0 {
        or_terms(ws.drop_last()).push(fts_escape_of(ws.last()))
    } else {
        or_terms(ws.drop_last())
    }
}

/// `"term1" OR "term2" …`: each word escaped on its own, empties dropped, joined by `OR`.
pub fn or_expression(query: &str) -> (r: String)
    ensures
        r@ == join_of(or_terms(words_of(query@)), " OR "@),
{
    let words = split_words(query);
    let ghost ws = texts(words@);
    let mut terms: Vec<String> = Vec::new();
    let mut i: usize = 0;
    while i < words.len()
        invariant
            0 <= i <= words.len(),
            ws == texts(words@),
            texts(terms@) == or_terms(ws.take(i as int)),
        decreases words.len() - i,
    {
        proof {
            assert(ws.take(i + 1).drop_last() =~= ws.take(i as int));
            assert(ws.take(i + 1).last() == words@[i as int]@);
        }
        let e = crate::store::fts_escape(words[i].as_str());
        if !e.as_str().is_empty() {
            let ghost t0 = texts(terms@);
            terms.push(e);
            assert(texts(terms@) =~= t0.push(terms@.last()@));
        }
        i = i + 1;
    }
    assert(ws.take(words.len() as int) =~= ws);
    join(&terms, " OR ")
}

} // verus!

verus! {

/// `<Tag`, `</Tag` or `<!--`: the start of markup, as opposed to `<` in prose.
pub open spec fn opens_tag_of(t: Seq<char>) -> bool {
    t.len() > 1 && t[0] == '<' && (crate::text::is_ascii_alpha(t[1]) || t[1] == '/' || t[1] == '!')
}

fn opens_tag(t: &Vec<char>) -> (b: bool)
    ensures
        b == opens_tag_of(t@),
{
    t.len() > 1 && t[0] == '<' && (('a' <= t[1] && t[1] <= 'z') || ('A' <= t[1] && t[1] <= 'Z')
        || t[1] == '/' || t[1] == '!')
}

/// Tag depth and whether every character so far is inside a tag or whitespace, after `s`.
pub open spec fn tag_depth_state(s: Seq<char>) -> (nat, bool)
    decreases s.len(),
{
    if s.len() == 0 {
        (0, true)
    } else {
        let (d, ok) = tag_depth_state(s.drop_last());
        let c = s.last();
        if c == '<' {
            (if d >= u32::MAX { d } else { d + 1 }, ok)
        } else if c == '>' {
            (if d == 0 { 0 } else { (d - 1) as nat }, ok)
        } else {
            (d, ok && (d > 0 || is_ws(c)))
        }
    }
}

/// A trimmed line that carries no prose: an MDX `import`/`export` statement, a bare brace,
/// or nothing but tags and whitespace.
pub open spec fn markup_only_of(t: Seq<char>) -> bool {
    ||| has_prefix(t, "import "@) || has_prefix(t, "export "@) || t == "{"@ || t == "}"@
    ||| opens_tag_of(t) && tag_depth_state(t).1
}

fn is_markup_only(t: &Vec<char>) -> (b: bool)
    ensures
        b == markup_only_of(t@),
{
    proof {
        reveal_strlit("{");
        reveal_strlit("}");
    }
    let n = t.len();
    assert(t@.subrange(0, n as int) =~= t@);
    if crate::text::starts_with_at(t, 0, n, "import ") || crate::text::starts_with_at(t, 0, n, "export ") {
        return true;
    }
    if n == 1 && t[0] == '{' {
        assert(t@ =~= "{"@);
        return true;
    }
    if n == 1 && t[0] == '}' {
        assert(t@ =~= "}"@);
        return true;
    }
    if n == 1 {
        assert(t@ != "{"@ && t@ != "}"@) by {
            if t@ == "{"@ {
                assert(t@[0] == '{');
            }
            if t@ == "}"@ {
                assert(t@[0] == '}');
            }
        }
    }
    if !opens_tag(t) {
        return false;
    }
    let mut depth: u32 = 0;
    let mut ok = true;
    let mut i: usize = 0;
    while i < n
        invariant
            0 <= i <= n == t.len(),
            (depth as nat, ok) == tag_depth_state(t@.take(i as int)),
        decreases n - i,
    {
        proof {
            assert(t@.take(i + 1).drop_last() =~= t@.take(i as int));
            assert(t@.take(i + 1).last() == t@[i as int]);
        }
        let c = t[i];
        if c == '<' {
            if depth < u32::MAX {
                depth = depth + 1;
            }
        } else if c == '>' {
            if depth > 0 {
                depth = depth - 1;
            }
        } else {
            ok = ok && (depth > 0 || crate::text::is_whitespace(c));
        }
        i = i + 1;
    }
    assert(t@.take(n as int) =~= t@);
    ok
}

/// The lines after any leading lines whose text (after indentation) starts with `#`.
pub open spec fn after_headings(lines: Seq<Seq<char>>) -> Seq<Seq<char>>
    decreases lines.len(),
{
    if lines.len() > 0 && has_prefix(trim_start(lines[0]), "#"@) {
        after_headings(lines.drop_first())
    } else {
        lines
    }
}

/// Whether a tag spread over several lines is still open, and the words collected.
pub struct SnippetState {
    /// Inside a tag whose `>` has not come yet.
    pub in_tag: bool,
    /// Prose words so far.
    pub words: Seq<Seq<char>>,
}

/// A trimmed line that is not inside a tag: a tag that does not close on the line opens a
/// multi-line tag; a line with prose contributes its words.
pub open spec fn snippet_take(st: SnippetState, t: Seq<char>) -> SnippetState {
    if opens_tag_of(t) && !contains_seq(t, ">"@) {
        SnippetState { in_tag: true, ..st }
    } else if t.len() > 0 && !markup_only_of(t) {
        SnippetState { words: st.words + words_of(t), ..st }
    } else {
        st
    }
}

/// One line of the body: inside a multi-line tag, the tag ends at the first `>` and what
/// follows is read as a line of its own; a line without `>` stays inside the tag.
pub open spec fn snippet_step(st: SnippetState, line: Seq<char>) -> SnippetState {
    let t = trim(line);
    if st.in_tag {
        match crate::text::find_of(t, ">"@) {
            Some(e) => snippet_take(SnippetState { in_tag: false, ..st }, trim(t.skip((e + 1) as int))),
            None => st,
        }
    } else {
        snippet_take(st, t)
    }
}

/// The state after the lines `lines`.
pub open spec fn snippet_fold(lines: Seq<Seq<char>>) -> SnippetState
    decreases lines.len(),
{
    if lines.len() == 0 {
        SnippetState { in_tag: false, words: Seq::empty() }
    } else {
        snippet_step(snippet_fold(lines.drop_last()), lines.last())
    }
}

/// Body text after the heading lines, markup-only lines skipped, words joined by single
/// spaces, cut to 200 characters with `…` appended when cut.
pub open spec fn snippet_text(text: Seq<char>) -> Seq<char> {
    let body = join_of(snippet_fold(after_headings(str_lines_of(text))).words, " "@);
    if body.len() > 200 {
        body.take(200).push('…')
    } else {
        body
    }
}

fn take_line(t: &Vec<char>, words: &mut Vec<String>, in_tag: &mut bool)
    ensures
        ({
            let st = snippet_take(SnippetState { in_tag: *old(in_tag), words: texts(old(words)@) }, t@);
            &&& *final(in_tag) == st.in_tag
            &&& texts(final(words)@) == st.words
        }),
{
    proof {
        reveal_strlit(">");
    }
    let s = crate::text::string_of(t);
    if opens_tag(t) && !crate::text::contains_str(s.as_str(), ">") {
        *in_tag = true;
        return;
    }
    if t.len() > 0 && !is_markup_only(t) {
        let ws = split_words(s.as_str());
        let ghost w0 = texts(words@);
        let mut i: usize = 0;
        while i < ws.len()
            invariant
                0 <= i <= ws.len(),
                texts(words@) == w0 + texts(ws@).take(i as int),
            decreases ws.len() - i,
        {
            let ghost before = texts(words@);
            words.push(ws[i].clone());
            assert(texts(words@) =~= before.push(ws@[i as int]@));
            assert(texts(ws@).take(i + 1) =~= texts(ws@).take(i as int).push(ws@[i as int]@));
            assert(texts(words@) =~= w0 + texts(ws@).take(i + 1));
            i = i + 1;
        }
        assert(texts(ws@).take(ws.len() as int) =~= texts(ws@));
    }
}

/// The snippet shown for a hit (see [`snippet_text`]).
pub fn snippet_of(text: &str) -> (r: String)
    ensures
        r@ == snippet_text(text@),
{
    proof {
        reveal_strlit("#");
        reveal_strlit(">");
    }
    let lines = crate::planner::str_lines(text);
    let ghost ls = texts(lines@);
    let mut start: usize = 0;
    assert(ls.skip(0) =~= ls);
    while start < lines.len() && heading_line(&lines[start])
        invariant
            0 <= start <= lines.len(),
            ls == texts(lines@),
            after_headings(ls) == after_headings(ls.skip(start as int)),
        decreases lines.len() - start,
    {
        assert(ls.skip(start as int).drop_first() =~= ls.skip(start + 1));
        start = start + 1;
    }
    proof {
        if start < lines.len() {
            assert(ls.skip(start as int)[0] == ls[start as int]);
        }
        assert(after_headings(ls.skip(start as int)) == ls.skip(start as int));
    }
    let ghost body_lines = ls.skip(start as int);
    let mut words: Vec<String> = Vec::new();
    let mut in_tag = false;
    let mut i: usize = start;
    assert(body_lines.take(0) =~= Seq::<Seq<char>>::empty());
    assert(texts(words@) =~= Seq::<Seq<char>>::empty());
    while i < lines.len()
        invariant
            start <= i <= lines.len(),
            ls == texts(lines@),
            body_lines == ls.skip(start as int),
            snippet_fold(body_lines.take(i - start)) == (SnippetState { in_tag, words: texts(words@) }),
        decreases lines.len() - i,
    {
        proof {
            assert(body_lines.take(i - start + 1).drop_last() =~= body_lines.take(i - start));
            assert(body_lines.take(i - start + 1).last() == ls[i as int]);
        }
        proof {
            reveal_strlit(">");
        }
        let v = chars_of(lines[i].as_str());
        let (lo, hi) = crate::text::trim_bounds(&v, 0, v.len());
        assert(v@.subrange(0, v.len() as int) =~= ls[i as int]);
        let t = slice_of(&v, lo, hi);
        if in_tag {
            match crate::text::find_at(&t, 0, t.len(), ">") {
                Some(e) => {
                    proof {
                        assert(t@.subrange(0, t.len() as int) =~= t@);
                        crate::text::lemma_find_of_bound(t@, ">"@);
                    }
                    in_tag = false;
                    let (a, b) = crate::text::trim_bounds(&t, e + 1, t.len());
                    assert(t@.subrange(e + 1, t.len() as int) =~= t@.skip(e + 1));
                    let u = slice_of(&t, a, b);
                    take_line(&u, &mut words, &mut in_tag);
                },
                None => {
                    assert(t@.subrange(0, t.len() as int) =~= t@);
                },
            }
        } else {
            take_line(&t, &mut words, &mut in_tag);
        }
        i = i + 1;
    }
    assert(body_lines.take(lines.len() - start) =~= body_lines);
    let body = join(&words, " ");
    let bv = chars_of(body.as_str());
    if bv.len() > 200 {
        let mut out = crate::text::string_of_range(&bv, 0, 200);
        push_char(&mut out, '…');
        assert(bv@.subrange(0, 200) =~= bv@.take(200));
        out
    } else {
        body
    }
}

fn heading_line(l: &String) -> (b: bool)
    ensures
        b == has_prefix(trim_start(l@), "#"@),
{
    let v = chars_of(l.as_str());
    let b = crate::text::trim_start_index(&v, 0, v.len());
    assert(v@.subrange(0, v.len() as int) =~= l@);
    crate::text::starts_with_at(&v, b, v.len(), "#")
}

fn slice_of(v: &Vec<char>, lo: usize, hi: usize) -> (r: Vec<char>)
    requires
        lo <= hi <= v.len(),
    ensures
        r@ == v@.subrange(lo as int, hi as int),
{
    let mut r: Vec<char> = Vec::new();
    let mut i: usize = lo;
    while i < hi
        invariant
            lo <= i <= hi <= v.len(),
            r@ == v@.subrange(lo as int, i as int),
        decreases hi - i,
    {
        r.push(v[i]);
        assert(v@.subrange(lo as int, i + 1) =~= v@.subrange(lo as int, i as int).push(v@[i as int]));
        i = i + 1;
    }
    r
}

} // verus!

verus! {

/// `a` is earlier than `b`: by second, then by nanosecond.
pub open spec fn stamp_before(a: crate::timefmt::Stamp, b: crate::timefmt::Stamp) -> bool {
    a.second < b.second || (a.second == b.second && a.nanosecond < b.nanosecond)
}

fn before(a: crate::timefmt::Stamp, b: crate::timefmt::Stamp) -> (r: bool)
    ensures
        r == stamp_before(a, b),
{
    a.second < b.second || (a.second == b.second && a.nanosecond < b.nanosecond)
}

/// `p` without its leading `./` pieces, as `trim_start_matches("./")` leaves it.
pub open spec fn strip_dot_slash(p: Seq<char>) -> Seq<char>
    decreases p.len(),
{
    if p.len() >= 2 && p[0] == '.' && p[1] == '/' {
        strip_dot_slash(p.skip(2))
    } else {
        p
    }
}

/// A path lies under a prefix filter: it starts with the prefix once the prefix's leading
/// `./` pieces are dropped.
pub open spec fn under_prefix(rel_path: Seq<char>, prefix: Seq<char>) -> bool {
    has_prefix(rel_path, strip_dot_slash(prefix))
}

/// Whether `rel_path` lies under the prefix filter `prefix` (see [`under_prefix`]).
pub fn path_under_prefix(rel_path: &str, prefix: &str) -> (b: bool)
    ensures
        b == under_prefix(rel_path@, prefix@),
{
    let v = chars_of(prefix);
    let mut i: usize = 0;
    assert(prefix@.skip(0) =~= prefix@);
    while i < v.len() && v.len() - i >= 2 && v[i] == '.' && v[i + 1] == '/'
        invariant
            i <= v.len(),
            v@ == prefix@,
            strip_dot_slash(prefix@) == strip_dot_slash(prefix@.skip(i as int)),
        decreases v.len() - i,
    {
        assert(prefix@.skip(i as int).skip(2) =~= prefix@.skip(i + 2));
        i = i + 2;
    }
    let rest = crate::text::string_of_range(&v, i, v.len());
    assert(rest@ =~= prefix@.skip(i as int));
    crate::text::starts_with(rel_path, rest.as_str())
}

/// The time and path filters of a search or a timeline: not before `since`, not after
/// `until`, under the path prefix.
pub open spec fn passes_filters(
    updated_at: crate::timefmt::Stamp,
    rel_path: Seq<char>,
    since: Option<crate::timefmt::Stamp>,
    until: Option<crate::timefmt::Stamp>,
    path_prefix: Option<Seq<char>>,
) -> bool {
    &&& !(since matches Some(s) && stamp_before(updated_at, s))
    &&& !(until matches Some(u) && stamp_before(u, updated_at))
    &&& !(path_prefix matches Some(p) && !under_prefix(rel_path, p))
}

/// Whether a candidate passes the filters (see [`passes_filters`]). They are applied before
/// the fused list is cut and before the OR-fallback decision, so an excluded hit never
/// hides an eligible one.
pub fn passes(
    updated_at: crate::timefmt::Stamp,
    rel_path: &str,
    since: Option<crate::timefmt::Stamp>,
    until: Option<crate::timefmt::Stamp>,
    path_prefix: Option<&str>,
) -> (b: bool)
    ensures
        b == passes_filters(
            updated_at,
            rel_path@,
            since,
            until,
            match path_prefix {
                Some(p) => Some(p@),
                None => None,
            },
        ),
{
    if let Some(s) = since {
        if before(updated_at, s) {
            return false;
        }
    }
    if let Some(u) = until {
        if before(u, updated_at) {
            return false;
        }
    }
    if let Some(p) = path_prefix {
        if !path_under_prefix(rel_path, p) {
            return false;
        }
    }
    true
}

/// How many hits each list fetches for a search of `k`: four times `k`, at least 200 when a
/// filter will discard candidates after ranking, else at least 16.
pub open spec fn fetch_depth_of(k: nat, filtered: bool) -> nat {
    let four = if 4 * k > usize::MAX { usize::MAX as nat } else { 4 * k };
    let floor: nat = if filtered { 200 } else { 16 };
    if four > floor { four } else { floor }
}

/// The fetch depth of a search (see [`fetch_depth_of`]).
pub fn fetch_depth(k: usize, filtered: bool) -> (n: usize)
    ensures
        n == fetch_depth_of(k as nat, filtered),
{
    let four = if k > usize::MAX / 4 { usize::MAX } else { k * 4 };
    let floor: usize = if filtered { 200 } else { 16 };
    if four > floor { four } else { floor }
}

/// The OR fallback runs when nothing eligible matched the AND form, the fallback is on,
/// and the OR form is a different, non-empty query.
pub open spec fn falls_back_to_or(
    any_eligible: bool,
    or_fallback: bool,
    or_expr: Seq<char>,
    and_expr: Seq<char>,
) -> bool {
    !any_eligible && or_fallback && or_expr != and_expr && or_expr.len() > 0
}

/// Whether to run the OR form (see [`falls_back_to_or`]).
pub fn use_or_fallback(any_eligible: bool, or_fallback: bool, or_expr: &str, and_expr: &str) -> (b: bool)
    ensures
        b == falls_back_to_or(any_eligible, or_fallback, or_expr@, and_expr@),
{
    !any_eligible && or_fallback && !same_text(or_expr, and_expr) && !crate::text::is_empty_text(
        or_expr,
    )
}

/// Which lexical lists a fused hit came from.
pub open spec fn matched_of(cards: bool, raw: bool) -> Matched {
    if cards && raw {
        Matched::Both
    } else if cards {
        Matched::Cards
    } else if raw {
        Matched::Raw
    } else {
        Matched::Vector
    }
}

/// The label of a fused hit (see [`matched_of`]).
pub fn matched(cards: bool, raw: bool) -> (m: Matched)
    ensures
        m == matched_of(cards, raw),
{
    if cards && raw {
        Matched::Both
    } else if cards {
        Matched::Cards
    } else if raw {
        Matched::Raw
    } else {
        Matched::Vector
    }
}

} // verus!
