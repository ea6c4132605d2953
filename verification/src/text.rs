//! Character-level text helpers shared by every stage.
//!
//! Text is handled as a sequence of Unicode scalar values (`Seq<char>`, the view of `str` and
//! `String`). The whitespace notion is the one `str::trim` and `str::split_whitespace` use: the
//! Unicode `White_Space` property.

use vstd::prelude::*;

verus! {

/// The Unicode `White_Space` property, as `char::is_whitespace` defines it.
pub open spec fn is_ws(c: char) -> bool {
    let u = c as u32;
    ||| u == 0x09 || u == 0x0A || u == 0x0B || u == 0x0C || u == 0x0D || u == 0x20
    ||| u == 0x85 || u == 0xA0 || u == 0x1680
    ||| (0x2000 <= u && u <= 0x200A)
    ||| u == 0x2028 || u == 0x2029 || u == 0x202F || u == 0x205F || u == 0x3000
}

/// `true` for a whitespace character (see [`is_ws`]).
pub fn is_whitespace(c: char) -> (b: bool)
    ensures
        b == is_ws(c),
{
    let u = c as u32;
    u == 0x09 || u == 0x0A || u == 0x0B || u == 0x0C || u == 0x0D || u == 0x20 || u == 0x85
        || u == 0xA0 || u == 0x1680 || (0x2000 <= u && u <= 0x200A) || u == 0x2028 || u
        == 0x2029 || u == 0x202F || u == 0x205F || u == 0x3000
}

/// An ASCII decimal digit.
pub open spec fn is_digit(c: char) -> bool {
    '0' <= c && c <= '9'
}

/// An ASCII letter.
pub open spec fn is_ascii_alpha(c: char) -> bool {
    ('a' <= c && c <= 'z') || ('A' <= c && c <= 'Z')
}

/// `true` when every character is whitespace (the empty sequence included).
pub open spec fn all_ws(s: Seq<char>) -> bool {
    forall|i: int| 0 <= i < s.len() ==> is_ws(#[trigger] s[i])
}

/// `s` without trailing whitespace (`str::trim_end`).
pub open spec fn trim_end(s: Seq<char>) -> Seq<char>
    decreases s.len(),
{
    if s.len() > 0 && is_ws(s.last()) {
        trim_end(s.drop_last())
    } else {
        s
    }
}

/// `s` without leading whitespace (`str::trim_start`).
pub open spec fn trim_start(s: Seq<char>) -> Seq<char>
    decreases s.len(),
{
    if s.len() > 0 && is_ws(s[0]) {
        trim_start(s.drop_first())
    } else {
        s
    }
}

/// `s` without leading or trailing whitespace (`str::trim`).
pub open spec fn trim(s: Seq<char>) -> Seq<char> {
    trim_start(trim_end(s))
}

/// `trim_end(s)` is a prefix of `s`, and what it drops is whitespace.
pub proof fn lemma_trim_end(s: Seq<char>)
    ensures
        trim_end(s).len() <= s.len(),
        trim_end(s) == s.subrange(0, trim_end(s).len() as int),
        all_ws(s.subrange(trim_end(s).len() as int, s.len() as int)),
        trim_end(s).len() > 0 ==> !is_ws(trim_end(s).last()),
    decreases s.len(),
{
    if s.len() > 0 && is_ws(s.last()) {
        lemma_trim_end(s.drop_last());
        let t = trim_end(s.drop_last());
        assert(s.subrange(t.len() as int, s.len() as int) =~= s.drop_last().subrange(
            t.len() as int,
            s.drop_last().len() as int,
        ).push(s.last()));
        assert(s.drop_last().subrange(0, t.len() as int) =~= s.subrange(0, t.len() as int));
    } else {
        assert(s.subrange(0, s.len() as int) =~= s);
    }
}

/// `trim_start(s)` is a suffix of `s`, and what it drops is whitespace.
pub proof fn lemma_trim_start(s: Seq<char>)
    ensures
        trim_start(s).len() <= s.len(),
        trim_start(s) == s.subrange(s.len() - trim_start(s).len(), s.len() as int),
        all_ws(s.subrange(0, s.len() - trim_start(s).len())),
        trim_start(s).len() > 0 ==> !is_ws(trim_start(s)[0]),
    decreases s.len(),
{
    if s.len() > 0 && is_ws(s[0]) {
        lemma_trim_start(s.drop_first());
        let t = trim_start(s.drop_first());
        let k = s.len() - t.len();
        assert(s.subrange(0, k) =~= seq![s[0]] + s.drop_first().subrange(0, k - 1));
        assert(s.drop_first().subrange(
            s.drop_first().len() - t.len(),
            s.drop_first().len() as int,
        ) =~= s.subrange(k, s.len() as int));
    } else {
        assert(s.subrange(0, 0) =~= Seq::<char>::empty());
        assert(s.subrange(0, s.len() as int) =~= s);
    }
}

/// A sequence that is all whitespace trims to nothing, and only such a sequence does.
pub proof fn lemma_trim_empty_iff_all_ws(s: Seq<char>)
    ensures
        (trim(s).len() == 0) == all_ws(s),
{
    lemma_trim_end(s);
    let e = trim_end(s);
    lemma_trim_start(e);
    if trim(s).len() == 0 {
        assert forall|i: int| 0 <= i < s.len() implies is_ws(#[trigger] s[i]) by {
            if i < e.len() {
                assert(e.subrange(0, e.len() - trim_start(e).len())[i] == e[i]);
                assert(s.subrange(0, e.len() as int)[i] == s[i]);
            } else {
                assert(s.subrange(e.len() as int, s.len() as int)[i - e.len()] == s[i]);
            }
        }
    } else {
        if all_ws(s) {
            let t = trim(s);
            assert(t[0] == e[e.len() - t.len()]);
            assert(e[e.len() - t.len()] == s[e.len() - t.len()]);
        }
    }
}

/// Start of `trim_end(s[lo..hi])`: the index just past its last non-whitespace character.
pub fn trim_end_index(s: &Vec<char>, lo: usize, hi: usize) -> (e: usize)
    requires
        lo <= hi <= s.len(),
    ensures
        lo <= e <= hi,
        s@.subrange(lo as int, e as int) == trim_end(s@.subrange(lo as int, hi as int)),
{
    let mut e = hi;
    while e > lo && is_whitespace(s[e - 1])
        invariant
            lo <= e <= hi <= s.len(),
            trim_end(s@.subrange(lo as int, e as int)) == trim_end(s@.subrange(lo as int, hi as int)),
        decreases e,
    {
        assert(s@.subrange(lo as int, e - 1) =~= s@.subrange(lo as int, e as int).drop_last());
        e = e - 1;
    }
    proof {
        let t = s@.subrange(lo as int, e as int);
        if t.len() > 0 {
            assert(t.last() == s@[e - 1]);
        }
        assert(trim_end(t) == t);
    }
    e
}

/// Index of the first non-whitespace character of `s[lo..hi]` (or `hi`).
pub fn trim_start_index(s: &Vec<char>, lo: usize, hi: usize) -> (b: usize)
    requires
        lo <= hi <= s.len(),
    ensures
        lo <= b <= hi,
        s@.subrange(b as int, hi as int) == trim_start(s@.subrange(lo as int, hi as int)),
{
    let mut b = lo;
    while b < hi && is_whitespace(s[b])
        invariant
            lo <= b <= hi <= s.len(),
            trim_start(s@.subrange(b as int, hi as int)) == trim_start(s@.subrange(lo as int, hi as int)),
        decreases hi - b,
    {
        assert(s@.subrange(b + 1, hi as int) =~= s@.subrange(b as int, hi as int).drop_first());
        b = b + 1;
    }
    proof {
        let t = s@.subrange(b as int, hi as int);
        if t.len() > 0 {
            assert(t[0] == s@[b as int]);
        }
        assert(trim_start(t) == t);
    }
    b
}

/// The bounds of `trim(s[lo..hi])` inside `s`.
pub fn trim_bounds(s: &Vec<char>, lo: usize, hi: usize) -> (r: (usize, usize))
    requires
        lo <= hi <= s.len(),
    ensures
        lo <= r.0 <= r.1 <= hi,
        s@.subrange(r.0 as int, r.1 as int) == trim(s@.subrange(lo as int, hi as int)),
{
    let e = trim_end_index(s, lo, hi);
    let b = trim_start_index(s, lo, e);
    (b, e)
}

/// The characters of `s`, in order.
pub fn chars_of(s: &str) -> (v: Vec<char>)
    ensures
        v@ == s@,
{
    let mut v: Vec<char> = Vec::new();
    for c in it: s.chars()
        invariant
            v@ == it.seq().take(it.index() as int),
    {
        v.push(c);
    }
    v
}

/// Calls `String::push`: the string afterwards is the old one with `c` appended.
#[verifier::external_body]
pub(crate) fn push_char(s: &mut String, c: char)
    ensures
        final(s)@ == old(s)@.push(c),
{
    s.push(c);
}

/// Append `v[lo..hi]` to `out`.
pub fn push_range(out: &mut String, v: &Vec<char>, lo: usize, hi: usize)
    requires
        lo <= hi <= v.len(),
    ensures
        final(out)@ == old(out)@ + v@.subrange(lo as int, hi as int),
{
    let mut i = lo;
    while i < hi
        invariant
            lo <= i <= hi <= v.len(),
            out@ == old(out)@ + v@.subrange(lo as int, i as int),
        decreases hi - i,
    {
        push_char(out, v[i]);
        assert(v@.subrange(lo as int, i + 1) =~= v@.subrange(lo as int, i as int).push(v@[i as int]));
        i = i + 1;
    }
}

/// A `String` holding `v[lo..hi]`.
pub fn string_of_range(v: &Vec<char>, lo: usize, hi: usize) -> (s: String)
    requires
        lo <= hi <= v.len(),
    ensures
        s@ == v@.subrange(lo as int, hi as int),
{
    let mut s = String::new();
    push_range(&mut s, v, lo, hi);
    s
}

/// A `String` holding `v`.
pub fn string_of(v: &Vec<char>) -> (s: String)
    ensures
        s@ == v@,
{
    let s = string_of_range(v, 0, v.len());
    assert(v@.subrange(0, v.len() as int) =~= v@);
    s
}

/// `s` with leading and trailing whitespace removed (`str::trim`).
pub fn trimmed(s: &str) -> (r: String)
    ensures
        r@ == trim(s@),
{
    let v = chars_of(s);
    let (b, e) = trim_bounds(&v, 0, v.len());
    assert(v@.subrange(0, v.len() as int) =~= v@);
    string_of_range(&v, b, e)
}

} // verus!

verus! {

/// `p` is a prefix of `s`.
pub open spec fn has_prefix(s: Seq<char>, p: Seq<char>) -> bool {
    p.len() <= s.len() && s.subrange(0, p.len() as int) == p
}

/// `n` occurs in `s` as a contiguous run.
pub open spec fn contains_seq(s: Seq<char>, n: Seq<char>) -> bool {
    exists|i: int| 0 <= i && i + n.len() <= s.len() && #[trigger] s.subrange(i, i + n.len()) == n
}

/// Whether `v[lo..hi]` starts with `p`.
pub fn starts_with_at(v: &Vec<char>, lo: usize, hi: usize, p: &str) -> (b: bool)
    requires
        lo <= hi <= v.len(),
    ensures
        b == has_prefix(v@.subrange(lo as int, hi as int), p@),
{
    let pv = chars_of(p);
    if pv.len() > hi - lo {
        return false;
    }
    let mut i: usize = 0;
    while i < pv.len()
        invariant
            0 <= i <= pv.len(),
            pv@ == p@,
            lo + pv.len() <= hi <= v.len(),
            forall|j: int| 0 <= j < i ==> v@[lo + j] == pv@[j],
        decreases pv.len() - i,
    {
        if v[lo + i] != pv[i] {
            assert(v@.subrange(lo as int, hi as int).subrange(0, pv.len() as int)[i as int] == v@[lo + i]);
            return false;
        }
        i = i + 1;
    }
    assert(v@.subrange(lo as int, hi as int).subrange(0, pv.len() as int) =~= pv@);
    true
}

/// Whether `v[lo..hi]` contains `n`.
pub fn contains_at(v: &Vec<char>, lo: usize, hi: usize, n: &str) -> (b: bool)
    requires
        lo <= hi <= v.len(),
    ensures
        b == contains_seq(v@.subrange(lo as int, hi as int), n@),
{
    let nv = chars_of(n);
    let ghost s = v@.subrange(lo as int, hi as int);
    if nv.len() > hi - lo {
        assert forall|i: int| 0 <= i && i + nv@.len() <= s.len() implies #[trigger] s.subrange(i, i + nv@.len()) != nv@ by {}
        return false;
    }
    if nv.len() == 0 {
        assert(s.subrange(0int, 0int + nv@.len()) =~= nv@);
        return true;
    }
    let mut i: usize = lo;
    while i <= hi - nv.len()
        invariant
            lo <= i <= hi - nv.len() + 1,
            nv@ == n@,
            0 < nv.len() <= hi - lo,
            hi <= v.len(),
            s == v@.subrange(lo as int, hi as int),
            forall|j: int| 0 <= j < i - lo ==> #[trigger] s.subrange(j, j + nv@.len()) != nv@,
        decreases hi - i,
    {
        assert(s.subrange(i - lo, i - lo + nv@.len()) =~= v@.subrange(i as int, hi as int).subrange(0, nv@.len() as int));
        if starts_with_at(v, i, hi, n) {
            return true;
        }
        i = i + 1;
    }
    false
}

} // verus!

verus! {

/// The text of each string of a list.
pub open spec fn texts(v: Seq<String>) -> Seq<Seq<char>> {
    v.map_values(|s: String| s@)
}

/// `a` sorts before `b`: lexicographic order by code point, the order of `str` and `String`
/// (byte-wise over UTF-8, which orders like the code points).
pub open spec fn text_lt(a: Seq<char>, b: Seq<char>) -> bool
    decreases a.len(),
{
    if b.len() == 0 {
        false
    } else if a.len() == 0 {
        true
    } else if a[0] != b[0] {
        (a[0] as int) < (b[0] as int)
    } else {
        text_lt(a.drop_first(), b.drop_first())
    }
}

/// [`text_lt`] is irreflexive, total on distinct texts, asymmetric and transitive.
pub proof fn lemma_text_lt_order(a: Seq<char>, b: Seq<char>, c: Seq<char>)
    ensures
        !text_lt(a, a),
        a != b ==> text_lt(a, b) || text_lt(b, a),
        text_lt(a, b) ==> !text_lt(b, a),
        text_lt(a, b) && text_lt(b, c) ==> text_lt(a, c),
    decreases a.len(),
{
    if a.len() > 0 && b.len() > 0 && c.len() > 0 {
        lemma_text_lt_order(a.drop_first(), b.drop_first(), c.drop_first());
    } else if a.len() > 0 && b.len() > 0 {
        lemma_text_lt_order(a.drop_first(), b.drop_first(), b.drop_first());
    } else if a.len() > 0 {
        lemma_text_lt_order(a.drop_first(), a.drop_first(), a.drop_first());
    }
    if a.len() > 0 && b.len() > 0 && a[0] == b[0] && a != b {
        assert(a =~= seq![a[0]] + a.drop_first());
        assert(b =~= seq![b[0]] + b.drop_first());
        assert(a.drop_first() != b.drop_first());
    }
    if a.len() > 0 && b.len() > 0 && a[0] != b[0] {
        assert((a[0] as int) != (b[0] as int));
    }
    if a.len() == 0 && b.len() == 0 {
        assert(a =~= b);
    }
}

/// Whether `a` sorts before `b` (see [`text_lt`]).
pub fn text_less(a: &str, b: &str) -> (r: bool)
    ensures
        r == text_lt(a@, b@),
{
    let av = chars_of(a);
    let bv = chars_of(b);
    let mut i: usize = 0;
    assert(a@.skip(0) =~= a@ && b@.skip(0) =~= b@);
    while i < av.len() && i < bv.len() && av[i] == bv[i]
        invariant
            0 <= i <= av.len(),
            i <= bv.len(),
            av@ == a@,
            bv@ == b@,
            text_lt(a@, b@) == text_lt(a@.skip(i as int), b@.skip(i as int)),
        decreases av.len() - i,
    {
        assert(a@.skip(i as int).drop_first() =~= a@.skip(i + 1));
        assert(b@.skip(i as int).drop_first() =~= b@.skip(i + 1));
        i = i + 1;
    }
    if i == bv.len() {
        false
    } else if i == av.len() {
        true
    } else {
        av[i] < bv[i]
    }
}

/// The lowercase mapping of `s` (Unicode `Lowercase_Mapping`, character by character, with
/// the final-sigma rule), as `str::to_lowercase` computes it.
pub uninterp spec fn lowercase_of(s: Seq<char>) -> Seq<char>;

/// Calls `str::to_lowercase`. Its result is a function of the text alone (the Unicode tables
/// of the standard library); the contract names it.
#[verifier::external_body]
pub(crate) fn to_lower(s: &str) -> (r: String)
    ensures
        r@ == lowercase_of(s@),
{
    s.to_lowercase()
}

/// The first `max` characters of `s` (all of it when it is shorter).
pub open spec fn clip_of(s: Seq<char>, max: nat) -> Seq<char> {
    if s.len() <= max {
        s
    } else {
        s.take(max as int)
    }
}

/// `s` truncated to `max` characters, on a character boundary.
pub fn clip(s: &str, max: usize) -> (r: String)
    ensures
        r@ == clip_of(s@, max as nat),
{
    let v = chars_of(s);
    if v.len() <= max {
        let r = string_of(&v);
        r
    } else {
        let r = string_of_range(&v, 0, max);
        assert(v@.subrange(0, max as int) =~= v@.take(max as int));
        r
    }
}

/// Append all of `t` to `out`.
pub fn push_str(out: &mut String, t: &str)
    ensures
        final(out)@ == old(out)@ + t@,
{
    let v = chars_of(t);
    push_range(out, &v, 0, v.len());
    assert(v@.subrange(0, v.len() as int) =~= v@);
}

/// Whether `needle` occurs in `hay`.
pub fn contains_str(hay: &str, needle: &str) -> (b: bool)
    ensures
        b == contains_seq(hay@, needle@),
{
    let v = chars_of(hay);
    let b = contains_at(&v, 0, v.len(), needle);
    assert(v@.subrange(0, v.len() as int) =~= v@);
    b
}

/// Whether `hay` starts with `p`.
pub fn starts_with(hay: &str, p: &str) -> (b: bool)
    ensures
        b == has_prefix(hay@, p@),
{
    let v = chars_of(hay);
    let b = starts_with_at(&v, 0, v.len(), p);
    assert(v@.subrange(0, v.len() as int) =~= v@);
    b
}

/// `true` when `s` has no characters.
pub fn is_empty_text(s: &str) -> (b: bool)
    ensures
        b == (s@.len() == 0),
{
    let v = chars_of(s);
    v.len() == 0
}

/// Whether `a` and `b` are the same text.
pub fn same_text(a: &str, b: &str) -> (r: bool)
    ensures
        r == (a@ == b@),
{
    let av = chars_of(a);
    let bv = chars_of(b);
    if av.len() != bv.len() {
        return false;
    }
    let mut i: usize = 0;
    while i < av.len()
        invariant
            0 <= i <= av.len() == bv.len(),
            av@ == a@,
            bv@ == b@,
            forall|j: int| 0 <= j < i ==> av@[j] == bv@[j],
        decreases av.len() - i,
    {
        if av[i] != bv[i] {
            return false;
        }
        i = i + 1;
    }
    assert(av@ =~= bv@);
    true
}

/// Whether `keys` holds a string equal to `k`.
pub fn contains_string(keys: &Vec<String>, k: &String) -> (b: bool)
    ensures
        b == keys@.map_values(|s: String| s@).contains(k@),
{
    let ghost ks = keys@.map_values(|s: String| s@);
    let mut i: usize = 0;
    while i < keys.len()
        invariant
            0 <= i <= keys.len(),
            ks == keys@.map_values(|s: String| s@),
            forall|j: int| 0 <= j < i ==> ks[j] != k@,
        decreases keys.len() - i,
    {
        if keys[i] == *k {
            assert(ks[i as int] == k@);
            return true;
        }
        i = i + 1;
    }
    false
}

} // verus!

verus! {

/// `parts` joined with `sep` between consecutive parts (`[T]::join`).
pub open spec fn join_of(parts: Seq<Seq<char>>, sep: Seq<char>) -> Seq<char>
    decreases parts.len(),
{
    if parts.len() == 0 {
        Seq::empty()
    } else if parts.len() == 1 {
        parts[0]
    } else {
        join_of(parts.drop_last(), sep) + sep + parts.last()
    }
}

/// `parts` joined with `sep`.
pub fn join(parts: &Vec<String>, sep: &str) -> (r: String)
    ensures
        r@ == join_of(texts(parts@), sep@),
{
    let ghost ps = texts(parts@);
    let mut r = String::new();
    let mut i: usize = 0;
    while i < parts.len()
        invariant
            0 <= i <= parts.len(),
            ps == texts(parts@),
            r@ == join_of(ps.take(i as int), sep@),
        decreases parts.len() - i,
    {
        proof {
            assert(ps.take(i + 1).drop_last() =~= ps.take(i as int));
            assert(ps.take(i + 1).last() == parts@[i as int]@);
            if i == 0 {
                assert(ps.take(1)[0] == parts@[0]@);
            }
        }
        if i > 0 {
            push_str(&mut r, sep);
        }
        push_str(&mut r, parts[i].as_str());
        if i == 0 {
            assert(r@ =~= join_of(ps.take(1), sep@));
        }
        i = i + 1;
    }
    assert(ps.take(parts.len() as int) =~= ps);
    r
}

/// The state of collapsing whitespace after reading `s`: the output so far and whether a
/// whitespace run is pending.
pub open spec fn collapse_state(s: Seq<char>) -> (Seq<char>, bool)
    decreases s.len(),
{
    if s.len() == 0 {
        (Seq::empty(), false)
    } else {
        let (out, pending) = collapse_state(s.drop_last());
        let c = s.last();
        if is_ws(c) {
            (out, true)
        } else if pending && out.len() > 0 {
            (out.push(' ').push(c), false)
        } else {
            (out.push(c), false)
        }
    }
}

/// The words of `s` (split at whitespace) joined by single spaces
/// (`split_whitespace().collect::<Vec<_>>().join(" ")`).
pub open spec fn words_joined(s: Seq<char>) -> Seq<char> {
    collapse_state(s).0
}

/// The words of `s` joined by single spaces.
pub fn join_words(s: &str) -> (r: String)
    ensures
        r@ == words_joined(s@),
{
    let v = chars_of(s);
    let mut out = String::new();
    let mut pending = false;
    let mut i: usize = 0;
    while i < v.len()
        invariant
            0 <= i <= v.len(),
            (out@, pending) == collapse_state(v@.take(i as int)),
        decreases v.len() - i,
    {
        let c = v[i];
        proof {
            assert(v@.take(i + 1).drop_last() =~= v@.take(i as int));
            assert(v@.take(i + 1).last() == c);
        }
        if is_whitespace(c) {
            pending = true;
        } else {
            if pending && !out.as_str().is_empty() {
                push_char(&mut out, ' ');
            }
            push_char(&mut out, c);
            pending = false;
        }
        i = i + 1;
    }
    assert(v@.take(v.len() as int) =~= v@);
    out
}

/// `s` with every `from` replaced by `to`.
pub open spec fn replace_char_of(s: Seq<char>, from: char, to: char) -> Seq<char> {
    s.map_values(|c: char| if c == from { to } else { c })
}

/// `s` without any `c`.
pub open spec fn remove_char_of(s: Seq<char>, c: char) -> Seq<char>
    decreases s.len(),
{
    if s.len() == 0 {
        s
    } else if s.last() == c {
        remove_char_of(s.drop_last(), c)
    } else {
        remove_char_of(s.drop_last(), c).push(s.last())
    }
}

/// `s` with every `from` replaced by `to`.
pub fn replace_char(s: &str, from: char, to: char) -> (r: String)
    ensures
        r@ == replace_char_of(s@, from, to),
{
    let v = chars_of(s);
    let mut out = String::new();
    let mut i: usize = 0;
    while i < v.len()
        invariant
            0 <= i <= v.len(),
            out@ == replace_char_of(v@.take(i as int), from, to),
        decreases v.len() - i,
    {
        let c = if v[i] == from { to } else { v[i] };
        push_char(&mut out, c);
        assert(replace_char_of(v@.take(i + 1), from, to) =~= replace_char_of(v@.take(i as int), from, to).push(c));
        i = i + 1;
    }
    assert(v@.take(v.len() as int) =~= v@);
    out
}

/// `s` without any `c`.
pub fn remove_char(s: &str, c: char) -> (r: String)
    ensures
        r@ == remove_char_of(s@, c),
{
    let v = chars_of(s);
    let mut out = String::new();
    let mut i: usize = 0;
    while i < v.len()
        invariant
            0 <= i <= v.len(),
            out@ == remove_char_of(v@.take(i as int), c),
        decreases v.len() - i,
    {
        proof {
            assert(v@.take(i + 1).drop_last() =~= v@.take(i as int));
            assert(v@.take(i + 1).last() == v@[i as int]);
        }
        if v[i] != c {
            push_char(&mut out, v[i]);
        }
        i = i + 1;
    }
    assert(v@.take(v.len() as int) =~= v@);
    out
}

/// The code of `c` with ASCII upper case folded to lower case.
pub open spec fn ascii_fold(c: char) -> u32 {
    let u = c as u32;
    if 65 <= u && u <= 90 {
        (u + 32) as u32
    } else {
        u
    }
}

/// ASCII-case-insensitive equality (`str::eq_ignore_ascii_case`).
pub open spec fn eq_ignore_ascii_case_of(a: Seq<char>, b: Seq<char>) -> bool {
    a.len() == b.len() && forall|i: int| 0 <= i < a.len() ==> ascii_fold(#[trigger] a[i]) == ascii_fold(b[i])
}

/// Whether `a` and `b` are equal ignoring ASCII case.
pub fn eq_ignore_ascii_case(a: &str, b: &str) -> (r: bool)
    ensures
        r == eq_ignore_ascii_case_of(a@, b@),
{
    let av = chars_of(a);
    let bv = chars_of(b);
    if av.len() != bv.len() {
        return false;
    }
    let mut i: usize = 0;
    while i < av.len()
        invariant
            0 <= i <= av.len() == bv.len(),
            av@ == a@,
            bv@ == b@,
            forall|j: int| 0 <= j < i ==> ascii_fold(#[trigger] av@[j]) == ascii_fold(bv@[j]),
        decreases av.len() - i,
    {
        let x = av[i] as u32;
        let y = bv[i] as u32;
        let lx: u32 = if 65 <= x && x <= 90 { x + 32 } else { x };
        let ly: u32 = if 65 <= y && y <= 90 { y + 32 } else { y };
        if lx != ly {
            return false;
        }
        i = i + 1;
    }
    true
}

} // verus!

verus! {

/// Index of the first occurrence of `p` in `s`.
pub open spec fn find_of(s: Seq<char>, p: Seq<char>) -> Option<nat>
    decreases s.len(),
{
    if has_prefix(s, p) {
        Some(0)
    } else if s.len() == 0 {
        None
    } else {
        match find_of(s.drop_first(), p) {
            Some(i) => Some(i + 1),
            None => None,
        }
    }
}

/// A found occurrence lies inside the text.
pub proof fn lemma_find_of_bound(s: Seq<char>, p: Seq<char>)
    ensures
        match find_of(s, p) {
            Some(k) => k + p.len() <= s.len() && s.subrange(k as int, (k + p.len()) as int) == p,
            None => true,
        },
    decreases s.len(),
{
    if has_prefix(s, p) {
    } else if s.len() > 0 {
        lemma_find_of_bound(s.drop_first(), p);
        match find_of(s.drop_first(), p) {
            Some(k) => {
                assert(s.subrange((k + 1) as int, (k + 1 + p.len()) as int) =~= s.drop_first().subrange(k as int, (k + p.len()) as int));
            },
            None => {},
        }
    }
}

/// Index (in `v`) of the first occurrence of `p` in `v[lo..hi]`.
pub fn find_at(v: &Vec<char>, lo: usize, hi: usize, p: &str) -> (r: Option<usize>)
    requires
        lo <= hi <= v.len(),
    ensures
        match find_of(v@.subrange(lo as int, hi as int), p@) {
            Some(k) => r == Some((lo + k) as usize),
            None => r is None,
        },
{
    let mut i: usize = lo;
    while i < hi && !starts_with_at(v, i, hi, p)
        invariant
            lo <= i <= hi <= v.len(),
            find_of(v@.subrange(lo as int, hi as int), p@) == match find_of(v@.subrange(i as int, hi as int), p@) {
                Some(k) => Some((k + (i - lo)) as nat),
                None => None::<nat>,
            },
        decreases hi - i,
    {
        assert(v@.subrange(i as int, hi as int).drop_first() =~= v@.subrange(i + 1, hi as int));
        i = i + 1;
    }
    if i < hi {
        Some(i)
    } else if starts_with_at(v, i, hi, p) {
        Some(i)
    } else {
        assert(v@.subrange(i as int, hi as int).len() == 0);
        None
    }
}

} // verus!

verus! {

/// Reading `s` left to right: the words finished so far and the word being read.
pub open spec fn words_state(s: Seq<char>) -> (Seq<Seq<char>>, Seq<char>)
    decreases s.len(),
{
    if s.len() == 0 {
        (Seq::empty(), Seq::empty())
    } else {
        let (ws, cur) = words_state(s.drop_last());
        if is_ws(s.last()) {
            if cur.len() > 0 {
                (ws.push(cur), Seq::empty())
            } else {
                (ws, Seq::empty())
            }
        } else {
            (ws, cur.push(s.last()))
        }
    }
}

/// The words of `s`: its maximal runs of non-whitespace (`str::split_whitespace`).
pub open spec fn words_of(s: Seq<char>) -> Seq<Seq<char>> {
    let (ws, cur) = words_state(s);
    if cur.len() > 0 {
        ws.push(cur)
    } else {
        ws
    }
}

/// The words of `s` (`str::split_whitespace`).
pub fn split_words(s: &str) -> (r: Vec<String>)
    ensures
        texts(r@) == words_of(s@),
{
    let v = chars_of(s);
    let mut ws: Vec<String> = Vec::new();
    let mut cur = String::new();
    let mut i: usize = 0;
    while i < v.len()
        invariant
            0 <= i <= v.len(),
            v@ == s@,
            (texts(ws@), cur@) == words_state(v@.take(i as int)),
        decreases v.len() - i,
    {
        proof {
            assert(v@.take(i + 1).drop_last() =~= v@.take(i as int));
            assert(v@.take(i + 1).last() == v@[i as int]);
        }
        if is_whitespace(v[i]) {
            if !cur.as_str().is_empty() {
                let ghost w0 = texts(ws@);
                let word = cur;
                cur = String::new();
                ws.push(word);
                assert(texts(ws@) =~= w0.push(ws@.last()@));
            } else {
                cur = String::new();
            }
        } else {
            push_char(&mut cur, v[i]);
        }
        i = i + 1;
    }
    assert(v@.take(v.len() as int) =~= v@);
    if !cur.as_str().is_empty() {
        let ghost w0 = texts(ws@);
        ws.push(cur);
        assert(texts(ws@) =~= w0.push(ws@.last()@));
    }
    ws
}

} // verus!

verus! {

/// The pieces of `s` between occurrences of `c`, as `str::split(c)` yields them (one empty
/// piece for an empty string, an empty piece at each end that `c` touches).
pub open spec fn split_on_of(s: Seq<char>, c: char) -> Seq<Seq<char>>
    decreases s.len(),
{
    if s.len() == 0 {
        seq![Seq::<char>::empty()]
    } else {
        let prev = split_on_of(s.drop_last(), c);
        if s.last() == c {
            prev.push(Seq::empty())
        } else {
            prev.update(prev.len() - 1, prev.last().push(s.last()))
        }
    }
}

/// There is always at least one piece.
pub proof fn lemma_split_on_nonempty(s: Seq<char>, c: char)
    ensures
        split_on_of(s, c).len() >= 1,
    decreases s.len(),
{
    if s.len() > 0 {
        lemma_split_on_nonempty(s.drop_last(), c);
    }
}

/// Split `s` at every `c` (see [`split_on_of`]).
pub fn split_on(s: &str, c: char) -> (v: Vec<String>)
    ensures
        texts(v@) == split_on_of(s@, c),
{
    let chars = chars_of(s);
    let mut done: Vec<String> = Vec::new();
    let mut cur = String::new();
    let mut i: usize = 0;
    assert(s@.take(0) =~= Seq::<char>::empty());
    while i < chars.len()
        invariant
            i <= chars.len(),
            chars@ == s@,
            texts(done@).push(cur@) == split_on_of(s@.take(i as int), c),
        decreases chars.len() - i,
    {
        let ghost t = s@.take(i + 1);
        assert(t.drop_last() =~= s@.take(i as int));
        assert(t.last() == chars@[i as int]);
        proof {
            lemma_split_on_nonempty(t.drop_last(), c);
        }
        if chars[i] == c {
            let ghost d0 = texts(done@);
            let piece = cur;
            cur = String::new();
            done.push(piece);
            assert(texts(done@) =~= d0.push(piece@));
            assert(texts(done@).push(cur@) =~= split_on_of(t.drop_last(), c).push(Seq::empty()));
        } else {
            let ghost before = cur@;
            push_char(&mut cur, chars[i]);
            assert(texts(done@).push(cur@) =~= split_on_of(t.drop_last(), c).update(
                split_on_of(t.drop_last(), c).len() - 1,
                before.push(chars@[i as int]),
            ));
        }
        i = i + 1;
    }
    assert(s@.take(chars.len() as int) =~= s@);
    let ghost d0 = texts(done@);
    done.push(cur);
    assert(texts(done@) =~= d0.push(done@.last()@));
    done
}

} // verus!
