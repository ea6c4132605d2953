//! Offline evaluation helpers: dataset splits, page-level ranking and the seeded generator
//! behind the paired bootstrap.

use vstd::prelude::*;
use crate::text::{
    chars_of, find_at, find_of, has_prefix, lemma_find_of_bound, join_words, lowercase_of, push_char, push_str,
    remove_char, remove_char_of, replace_char, replace_char_of, same_text, starts_with_at, texts,
    to_lower, trim, trimmed, words_joined,
};

verus! {

/// Which part of a dataset a question belongs to.
#[derive(Debug, Clone, Copy, PartialEq, Eq, Hash, Structural)]
pub enum Split {
    /// 30%: for tuning.
    Dev,
    /// 55%: published on every release.
    Test,
    /// 15%: sealed until 1.0.
    Holdout,
}

impl Split {
    /// Parse `dev`, `test` or `holdout`.
    pub fn parse(s: &str) -> (r: Option<Split>)
        ensures
            r == if s@ == "dev"@ {
                Some(Split::Dev)
            } else if s@ == "test"@ {
                Some(Split::Test)
            } else if s@ == "holdout"@ {
                Some(Split::Holdout)
            } else {
                None
            },
    {
        if same_text(s, "dev") {
            Some(Split::Dev)
        } else if same_text(s, "test") {
            Some(Split::Test)
        } else if same_text(s, "holdout") {
            Some(Split::Holdout)
        } else {
            None
        }
    }
}

/// `s` with every later repetition of an element removed, first occurrences in order.
pub open spec fn first_occurrences(s: Seq<Seq<char>>) -> Seq<Seq<char>>
    decreases s.len(),
{
    if s.len() == 0 {
        Seq::empty()
    } else {
        let prev = first_occurrences(s.drop_last());
        if prev.contains(s.last()) {
            prev
        } else {
            prev.push(s.last())
        }
    }
}

/// Deduplicate a ranked list of section paths into a ranked list of pages: a page's rank is
/// the rank of its first section.
pub fn pages_of(section_paths: &Vec<String>) -> (pages: Vec<String>)
    ensures
        texts(pages@) == first_occurrences(texts(section_paths@)),
{
    let ghost s = texts(section_paths@);
    let mut pages: Vec<String> = Vec::new();
    let mut i: usize = 0;
    while i < section_paths.len()
        invariant
            0 <= i <= section_paths.len(),
            s == texts(section_paths@),
            texts(pages@) == first_occurrences(s.take(i as int)),
        decreases section_paths.len() - i,
    {
        let p = &section_paths[i];
        proof {
            assert(s.take(i + 1).drop_last() =~= s.take(i as int));
            assert(s.take(i + 1).last() == p@);
        }
        if !crate::text::contains_string(&pages, p) {
            let ghost q = texts(pages@);
            pages.push(p.clone());
            assert(texts(pages@) =~= q.push(p@));
        }
        i = i + 1;
    }
    assert(s.take(section_paths.len() as int) =~= s);
    pages
}

/// Where `e` first occurs in `x` (meaningful when `x` contains `e`).
pub open spec fn first_index_of(x: Seq<Seq<char>>, e: Seq<char>) -> int
    decreases x.len(),
{
    if x.len() == 0 {
        0
    } else if x.drop_last().contains(e) {
        first_index_of(x.drop_last(), e)
    } else {
        x.len() - 1
    }
}

proof fn lemma_first_index_of(x: Seq<Seq<char>>, e: Seq<char>)
    requires
        x.contains(e),
    ensures
        0 <= first_index_of(x, e) < x.len(),
        x[first_index_of(x, e)] == e,
        forall|c: int| 0 <= c < first_index_of(x, e) ==> x[c] != e,
    decreases x.len(),
{
    let y = x.drop_last();
    if y.contains(e) {
        lemma_first_index_of(y, e);
        assert forall|c: int| 0 <= c < first_index_of(x, e) implies x[c] != e by {
            assert(x[c] == y[c]);
        }
    } else {
        let k = choose|k: int| 0 <= k < x.len() && x[k] == e;
        if k < x.len() - 1 {
            assert(y[k] == e);
        }
        assert forall|c: int| 0 <= c < x.len() - 1 implies x[c] != e by {
            assert(x[c] == y[c]);
        }
    }
}

/// Pages come out once each, every page of the input comes out, and in the order in which
/// each first appears in the ranked list.
pub proof fn law_pages_first_occurrence(x: Seq<Seq<char>>)
    ensures
        first_occurrences(x).no_duplicates(),
        forall|e: Seq<char>| x.contains(e) <==> first_occurrences(x).contains(e),
        forall|i: int, j: int|
            0 <= i < j < first_occurrences(x).len() ==> first_index_of(x, #[trigger] first_occurrences(x)[i])
                < first_index_of(x, #[trigger] first_occurrences(x)[j]),
    decreases x.len(),
{
    if x.len() > 0 {
        let y = x.drop_last();
        let l = x.last();
        law_pages_first_occurrence(y);
        let p = first_occurrences(y);
        let s = first_occurrences(x);
        if p.contains(l) {
            assert(s == p);
        } else {
            assert(s =~= p.push(l));
        }
        assert forall|e: Seq<char>| x.contains(e) <==> s.contains(e) by {
            if x.contains(e) {
                let k = choose|k: int| 0 <= k < x.len() && x[k] == e;
                if k < x.len() - 1 {
                    assert(y[k] == e);
                    assert(y.contains(e));
                    assert(p.contains(e));
                    let m = choose|m: int| 0 <= m < p.len() && p[m] == e;
                    assert(s[m] == e);
                } else if p.contains(l) {
                    assert(p.contains(e));
                } else {
                    assert(s[p.len() as int] == l);
                }
            }
            if s.contains(e) {
                let k = choose|k: int| 0 <= k < s.len() && s[k] == e;
                if k < p.len() {
                    assert(p[k] == e);
                    assert(p.contains(e));
                    assert(y.contains(e));
                    let m = choose|m: int| 0 <= m < y.len() && y[m] == e;
                    assert(x[m] == e);
                } else {
                    assert(x[x.len() - 1] == l);
                }
            }
        }
        assert forall|e: Seq<char>| y.contains(e) implies first_index_of(x, e) == first_index_of(y, e) by {}
        if !p.contains(l) {
            assert(!y.contains(l));
            assert(s =~= p.push(l));
            assert forall|i: int, j: int| 0 <= i < j < s.len() implies s[i] != s[j] by {
                if j == p.len() {
                    assert(p[i] == s[i]);
                    assert(p.contains(s[i]));
                } else {
                    assert(p[i] == s[i] && p[j] == s[j]);
                }
            }
            assert forall|i: int, j: int|
                0 <= i < j < s.len() implies first_index_of(x, #[trigger] s[i]) < first_index_of(x, #[trigger] s[j]) by {
                assert(p[i] == s[i]);
                assert(p.contains(s[i]));
                lemma_first_index_of(y, s[i]);
                if j < p.len() {
                    assert(p[j] == s[j]);
                    assert(p.contains(s[j]));
                }
            }
        }
    }
}

/// The increment of the generator's state per draw.
pub open spec fn splitmix_gamma() -> u64 {
    0x9E37_79B9_7F4A_7C15
}

/// `x * y` modulo 2⁶⁴.
pub open spec fn mul64(x: u64, y: u64) -> u64 {
    ((x as nat * y as nat) % 0x1_0000_0000_0000_0000) as u64
}

/// `x + y` modulo 2⁶⁴.
pub open spec fn add64(x: u64, y: u64) -> u64 {
    ((x as nat + y as nat) % 0x1_0000_0000_0000_0000) as u64
}

/// The output `SplitMix64` derives from a state.
pub open spec fn splitmix_mix(state: u64) -> u64 {
    let z1 = mul64(state ^ (state >> 30u64), 0xBF58_476D_1CE4_E5B9);
    let z2 = mul64(z1 ^ (z1 >> 27u64), 0x94D0_49BB_1331_11EB);
    z2 ^ (z2 >> 31u64)
}

/// The state after `k` draws from `state`.
pub open spec fn splitmix_state_after(state: u64, k: nat) -> u64
    decreases k,
{
    if k == 0 {
        state
    } else {
        add64(splitmix_state_after(state, (k - 1) as nat), splitmix_gamma())
    }
}

/// The `k`-th draw (from 1) from `state`.
pub open spec fn splitmix_draw(state: u64, k: nat) -> u64 {
    splitmix_mix(splitmix_state_after(state, k))
}

/// The largest multiple of `n` that fits below `u64::MAX`: draws at or above it are
/// rejected so that every remainder is equally likely.
pub open spec fn rejection_zone(n: u64) -> u64
    recommends
        n > 0,
{
    (u64::MAX - u64::MAX % n) as u64
}

/// `SplitMix64`: a tiny, fully specified generator so the draws are the same on every
/// platform and every release.
pub struct SplitMix64(pub u64);

impl SplitMix64 {
    /// Advance the state by the gamma and return the mixed output.
    pub fn next_u64(&mut self) -> (v: u64)
        ensures
            final(self).0 == add64(old(self).0, splitmix_gamma()),
            v == splitmix_mix(final(self).0),
    {
        self.0 = self.0.wrapping_add(0x9E37_79B9_7F4A_7C15);
        let mut z = self.0;
        z = (z ^ (z >> 30)).wrapping_mul(0xBF58_476D_1CE4_E5B9);
        z = (z ^ (z >> 27)).wrapping_mul(0x94D0_49BB_1331_11EB);
        z ^ (z >> 31)
    }

    /// Uniform index in `0..n`, by rejection so every index is equally likely: the remainder
    /// by `n` of the first draw below [`rejection_zone`]. (The state runs through every
    /// 64-bit value before it repeats, so a draw below the zone comes within 2⁶⁴ draws; the
    /// loop stops after that many and answers 0, which never happens.)
    pub fn below(&mut self, n: usize) -> (r: usize)
        requires
            n > 0,
        ensures
            r < n,
            (exists|k: nat|
                1 <= k && splitmix_draw(old(self).0, k) < rejection_zone(n as u64) && (forall|j: nat|
                    1 <= j < k ==> splitmix_draw(old(self).0, j) >= rejection_zone(n as u64)) && r
                    == splitmix_draw(old(self).0, k) % (n as u64) && final(self).0
                    == splitmix_state_after(old(self).0, k)) || (r == 0 && forall|j: nat|
                1 <= j < u64::MAX ==> splitmix_draw(old(self).0, j) >= rejection_zone(n as u64)),
    {
        let n64 = n as u64;
        let zone = u64::MAX - u64::MAX % n64;
        let ghost s0 = self.0;
        let mut tries: u64 = 1;
        while tries < u64::MAX
            invariant
                1 <= tries <= u64::MAX,
                n64 == n as u64,
                n64 > 0,
                zone == rejection_zone(n64),
                s0 == old(self).0,
                self.0 == splitmix_state_after(s0, (tries - 1) as nat),
                forall|j: nat| 1 <= j < tries ==> splitmix_draw(s0, j) >= zone,
            decreases u64::MAX - tries,
        {
            let v = self.next_u64();
            assert(self.0 == splitmix_state_after(s0, tries as nat));
            if v < zone {
                let r = (v % n64) as usize;
                assert(splitmix_draw(s0, tries as nat) == v);
                assert(1 <= (tries as nat) && splitmix_draw(s0, tries as nat) < rejection_zone(n as u64) && (forall|j: nat|
                    1 <= j < (tries as nat) ==> splitmix_draw(s0, j) >= rejection_zone(n as u64)) && r
                    == splitmix_draw(s0, tries as nat) % (n as u64) && self.0
                    == splitmix_state_after(s0, tries as nat));
                return r;
            }
            tries = tries + 1;
        }
        0
    }
}

} // verus!

verus! {

/// `s` without its template tags: each `{%` up to and including the next `%}` (searched from
/// the `{%` itself) is removed, and an unclosed `{%` removes the rest.
pub open spec fn strip_template_tags(s: Seq<char>) -> Seq<char>
    decreases s.len(),
{
    if s.len() == 0 {
        s
    } else if has_prefix(s, "{%"@) {
        match find_of(s, "%}"@) {
            Some(e) => {
                proof {
                    lemma_find_of_bound(s, "%}"@);
                    reveal_strlit("%}");
                }
                strip_template_tags(s.skip((e + 2) as int))
            },
            None => Seq::empty(),
        }
    } else {
        seq![s[0]] + strip_template_tags(s.drop_first())
    }
}

/// A heading as the dataset renders it: template tags removed, backticks removed,
/// lower-cased, whitespace collapsed to single spaces.
pub open spec fn normalize_heading_of(text: Seq<char>) -> Seq<char> {
    words_joined(lowercase_of(remove_char_of(strip_template_tags(text), '`')))
}

/// Fold a heading to the form the dataset renders: `{% … %}` template tags and backticks
/// removed, lower case, single spaces.
pub fn normalize_heading(text: &str) -> (r: String)
    ensures
        r@ == normalize_heading_of(text@),
{
    let v = chars_of(text);
    let mut out = String::new();
    let mut i: usize = 0;
    proof {
        reveal_strlit("%}");
        reveal_strlit("{%");
    }
    assert(v@.skip(0) =~= v@);
    while i < v.len()
        invariant
            0 <= i <= v.len(),
            v@ == text@,
            strip_template_tags(v@) == out@ + strip_template_tags(v@.skip(i as int)),
        decreases v.len() - i,
    {
        let ghost t = v@.skip(i as int);
        proof {
            reveal_strlit("%}");
            reveal_strlit("{%");
        }
        assert(v@.subrange(i as int, v.len() as int) =~= t);
        if starts_with_at(&v, i, v.len(), "{%") {
            match find_at(&v, i, v.len(), "%}") {
                Some(e) => {
                    proof {
                        lemma_find_of_bound(t, "%}"@);
                        assert(t.skip((e - i) + 2) =~= v@.skip(e + 2));
                    }
                    i = e + 2;
                },
                None => {
                    assert(out@ + Seq::<char>::empty() =~= out@);
                    assert(v@.skip(v.len() as int) =~= Seq::<char>::empty());
                    i = v.len();
                },
            }
        } else {
            push_char(&mut out, v[i]);
            assert(t.drop_first() =~= v@.skip(i + 1));
            assert(seq![t[0]] + strip_template_tags(t.drop_first()) == strip_template_tags(t));
            i = i + 1;
        }
    }
    assert(v@.skip(v.len() as int) =~= Seq::<char>::empty());
    assert(out@ + Seq::<char>::empty() =~= out@);
    let stripped = remove_char(out.as_str(), '`');
    let lower = to_lower(stripped.as_str());
    join_words(lower.as_str())
}

/// `p` without leading `./` and `/`, repeatedly.
pub open spec fn lead_stripped(p: Seq<char>) -> Seq<char>
    decreases p.len(),
{
    if has_prefix(p, "./"@) && p.len() >= 2 {
        lead_stripped(p.skip(2))
    } else if p.len() > 0 && p[0] == '/' {
        lead_stripped(p.drop_first())
    } else {
        p
    }
}

/// `out` with one more path segment: empty and `.` segments are dropped, others are
/// appended after a `/` (none before the first).
pub open spec fn push_segment(out: Seq<char>, seg: Seq<char>) -> Seq<char> {
    if seg.len() == 0 || seg == "."@ {
        out
    } else if out.len() == 0 {
        seg
    } else {
        out + "/"@ + seg
    }
}

/// Reading `p` left to right: the kept segments so far, and the segment being read.
pub open spec fn segments_state(p: Seq<char>) -> (Seq<char>, Seq<char>)
    decreases p.len(),
{
    if p.len() == 0 {
        (Seq::empty(), Seq::empty())
    } else {
        let (out, seg) = segments_state(p.drop_last());
        if p.last() == '/' {
            (push_segment(out, seg), Seq::empty())
        } else {
            (out, seg.push(p.last()))
        }
    }
}

/// An arm's path in the store's form: trimmed, `\` as `/`, no leading `./` or `/`, empty and
/// `.` segments dropped.
pub open spec fn normalize_arm_path_of(path: Seq<char>) -> Seq<char> {
    let p = lead_stripped(replace_char_of(trim(path), '\\', '/'));
    let (out, seg) = segments_state(p);
    push_segment(out, seg)
}

/// Fold a path an external arm reports to the store's relative form.
pub fn normalize_arm_path(path: &str) -> (r: String)
    ensures
        r@ == normalize_arm_path_of(path@),
{
    proof {
        reveal_strlit("./");
        reveal_strlit("/");
        reveal_strlit(".");
    }
    let t = trimmed(path);
    let p = replace_char(t.as_str(), '\\', '/');
    let v = chars_of(p.as_str());
    let mut i: usize = 0;
    assert(v@.skip(0) =~= v@);
    while i < v.len() && (starts_with_at(&v, i, v.len(), "./") || v[i] == '/')
        invariant
            0 <= i <= v.len(),
            lead_stripped(v@) == lead_stripped(v@.skip(i as int)),
        decreases v.len() - i,
    {
        let ghost s = v@.skip(i as int);
        proof {
            reveal_strlit("./");
        }
        assert(v@.subrange(i as int, v.len() as int) =~= s);
        if starts_with_at(&v, i, v.len(), "./") {
            assert(s.skip(2) =~= v@.skip(i + 2));
            i = i + 2;
        } else {
            assert(s.drop_first() =~= v@.skip(i + 1));
            i = i + 1;
        }
    }
    let ghost q = v@.skip(i as int);
    proof {
        assert(v@.subrange(i as int, v.len() as int) =~= q);
        if q.len() > 0 {
            assert(q[0] == v@[i as int]);
        }
        assert(lead_stripped(q) == q);
    }
    let mut out = String::new();
    let mut seg = String::new();
    let mut j: usize = i;
    assert(v@.subrange(i as int, i as int) =~= Seq::<char>::empty());
    while j < v.len()
        invariant
            i <= j <= v.len(),
            q == v@.skip(i as int),
            (out@, seg@) == segments_state(v@.subrange(i as int, j as int)),
        decreases v.len() - j,
    {
        proof {
            assert(v@.subrange(i as int, j + 1).drop_last() =~= v@.subrange(i as int, j as int));
            assert(v@.subrange(i as int, j + 1).last() == v@[j as int]);
        }
        if v[j] == '/' {
            append_segment(&mut out, &seg);
            seg = String::new();
        } else {
            push_char(&mut seg, v[j]);
        }
        j = j + 1;
    }
    assert(v@.subrange(i as int, v.len() as int) =~= q);
    append_segment(&mut out, &seg);
    out
}

fn append_segment(out: &mut String, seg: &String)
    ensures
        final(out)@ == push_segment(old(out)@, seg@),
{
    proof {
        reveal_strlit("/");
        reveal_strlit(".");
    }
    if seg.as_str().is_empty() || same_text(seg.as_str(), ".") {
        return;
    }
    if out.as_str().is_empty() {
        push_str(out, seg.as_str());
        assert(out@ =~= seg@);
    } else {
        push_char(out, '/');
        push_str(out, seg.as_str());
        assert(out@ =~= old(out)@ + "/"@ + seg@);
    }
}

} // verus!
