//! The text that gets embedded for a card.

use vstd::prelude::*;
use crate::card::SectionSummary;
use crate::text::{is_empty_text, join, join_of, texts, trim, trimmed};

verus! {

/// The non-empty texts of `parts`, in order.
pub open spec fn non_empty(parts: Seq<Seq<char>>) -> Seq<Seq<char>>
    decreases parts.len(),
{
    if parts.len() == 0 {
        parts
    } else if parts.last().len() == 0 {
        non_empty(parts.drop_last())
    } else {
        non_empty(parts.drop_last()).push(parts.last())
    }
}

/// The parts of an embedding text, before empty ones are dropped: the trimmed title when it
/// has any, the heading path joined by ` › `, the trimmed tldr and summary, the keywords
/// joined by `, ` and the questions joined by spaces (the last three only when present).
pub open spec fn embed_parts(title: Option<Seq<char>>, heading_path: Seq<Seq<char>>, s: SectionSummary) -> Seq<Seq<char>> {
    let t = match title {
        Some(t) => if trim(t).len() > 0 { seq![trim(t)] } else { Seq::empty() },
        None => Seq::empty(),
    };
    let h = if heading_path.len() > 0 { seq![join_of(heading_path, " › "@)] } else { Seq::empty() };
    let k = if s.keywords.len() > 0 { seq![join_of(texts(s.keywords@), ", "@)] } else { Seq::empty() };
    let q = if s.questions_answered.len() > 0 {
        seq![join_of(texts(s.questions_answered@), " "@)]
    } else {
        Seq::empty()
    };
    t + h + seq![trim(s.tldr@), trim(s.summary@)] + k + q
}

fn push_part(parts: &mut Vec<String>, p: String)
    ensures
        texts(final(parts)@) == texts(old(parts)@).push(p@),
{
    let ghost before = texts(parts@);
    parts.push(p);
    assert(texts(parts@) =~= before.push(p@));
}

/// A card plus what surrounds it, flattened into the text that gets embedded: the non-empty
/// parts of [`embed_parts`], one per line.
pub fn embed_text(title: Option<&str>, heading_path: &Vec<String>, summary: &SectionSummary) -> (r: String)
    ensures
        r@ == join_of(non_empty(embed_parts(
            match title { Some(t) => Some(t@), None => None },
            texts(heading_path@),
            *summary,
        )), "\n"@),
{
    let mut parts: Vec<String> = Vec::new();
    match title {
        Some(t) => {
            let tt = trimmed(t);
            if !is_empty_text(tt.as_str()) {
                push_part(&mut parts, tt);
            }
        },
        None => {},
    }
    if heading_path.len() > 0 {
        push_part(&mut parts, join(heading_path, " › "));
    }
    push_part(&mut parts, trimmed(summary.tldr.as_str()));
    push_part(&mut parts, trimmed(summary.summary.as_str()));
    if summary.keywords.len() > 0 {
        push_part(&mut parts, join(&summary.keywords, ", "));
    }
    if summary.questions_answered.len() > 0 {
        push_part(&mut parts, join(&summary.questions_answered, " "));
    }
    let ghost all = texts(parts@);
    assert(all =~= embed_parts(
        match title { Some(t) => Some(t@), None => None },
        texts(heading_path@),
        *summary,
    ));
    let mut kept: Vec<String> = Vec::new();
    let mut i: usize = 0;
    while i < parts.len()
        invariant
            0 <= i <= parts.len(),
            all == texts(parts@),
            texts(kept@) == non_empty(all.take(i as int)),
        decreases parts.len() - i,
    {
        proof {
            assert(all.take(i + 1).drop_last() =~= all.take(i as int));
            assert(all.take(i + 1).last() == parts@[i as int]@);
        }
        if !is_empty_text(parts[i].as_str()) {
            push_part(&mut kept, parts[i].clone());
        }
        i = i + 1;
    }
    assert(all.take(parts.len() as int) =~= all);
    join(&kept, "\n")
}

} // verus!

verus! {

/// What a health check reports about embeddings.
#[derive(Debug, Clone, PartialEq, Eq)]
pub struct EmbedCheck {
    /// Configured setting.
    pub embeddings: crate::config::Embeddings,
    /// Model name, when embeddings are on.
    pub model: Option<String>,
    /// Cache directory.
    pub cache_dir: String,
    /// The model files are already present (no download needed).
    pub cached: bool,
}

/// The local model's name as stored with its vectors.
pub const LOCAL_SMALL_MODEL: &'static str = "bge-small-en-v1.5-q";

/// Dimension of [`LOCAL_SMALL_MODEL`].
pub const LOCAL_SMALL_DIM: usize = 384;

/// Texts embedded per batch.
pub const EMBED_BATCH: usize = 32;

/// The health report for a setting, given the cache directory and whether the model files
/// are already in it: with embeddings off there is no model and nothing counts as cached.
pub fn check(embeddings: crate::config::Embeddings, cache_dir: String, cached: bool) -> (c: EmbedCheck)
    ensures
        c.embeddings == embeddings,
        c.cache_dir == cache_dir,
        match embeddings {
            crate::config::Embeddings::Off => c.model is None && !c.cached,
            crate::config::Embeddings::LocalSmall => c.model matches Some(m) && m@ == LOCAL_SMALL_MODEL@
                && c.cached == cached,
        },
{
    match embeddings {
        crate::config::Embeddings::Off => EmbedCheck {
            embeddings: crate::config::Embeddings::Off,
            model: None,
            cache_dir,
            cached: false,
        },
        crate::config::Embeddings::LocalSmall => EmbedCheck {
            embeddings: crate::config::Embeddings::LocalSmall,
            model: Some(LOCAL_SMALL_MODEL.to_string()),
            cache_dir,
            cached,
        },
    }
}

/// The words of `s` for hashing: the non-empty runs of alphanumeric characters.
pub open spec fn alnum_words_of(s: Seq<char>) -> Seq<Seq<char>>
    decreases s.len(),
{
    non_empty(alnum_runs_of(s))
}

/// The runs of `s` between characters that are not alphanumeric, as `str::split` with that
/// predicate yields them.
pub open spec fn alnum_runs_of(s: Seq<char>) -> Seq<Seq<char>>
    decreases s.len(),
{
    if s.len() == 0 {
        seq![Seq::<char>::empty()]
    } else {
        let prev = alnum_runs_of(s.drop_last());
        if !crate::search::is_alphanumeric_of(s.last()) {
            prev.push(Seq::empty())
        } else {
            prev.update(prev.len() - 1, prev.last().push(s.last()))
        }
    }
}

proof fn lemma_runs_nonempty(s: Seq<char>)
    ensures
        alnum_runs_of(s).len() >= 1,
    decreases s.len(),
{
    if s.len() > 0 {
        lemma_runs_nonempty(s.drop_last());
    }
}

/// The value of a lowercase hexadecimal digit.
pub open spec fn hex_value(c: char) -> nat {
    if '0' <= c && c <= '9' {
        ((c as int) - ('0' as int)) as nat
    } else {
        ((c as int) - ('a' as int) + 10) as nat
    }
}

fn hex_digit_value(c: char) -> (v: u8)
    requires
        crate::hash::is_lower_hex(c),
    ensures
        v == hex_value(c),
        v < 16,
{
    if c == '0' { 0 } else if c == '1' { 1 } else if c == '2' { 2 } else if c == '3' { 3 } else if c
        == '4' { 4 } else if c == '5' { 5 } else if c == '6' { 6 } else if c == '7' { 7 } else if c
        == '8' { 8 } else if c == '9' { 9 } else if c == 'a' { 10 } else if c == 'b' { 11 } else if c
        == 'c' { 12 } else if c == 'd' { 13 } else if c == 'e' { 14 } else { 15 }
}

/// Where a word lands in a `dim`-dimensional hash vector and with which sign: the first byte
/// of blake3 over its lowercase form, modulo `dim`, and `+` when the second byte is even.
pub open spec fn word_slot_of(word: Seq<char>, dim: nat) -> (nat, bool) {
    let h = crate::hash::blake3_hex_of(crate::text::lowercase_of(word));
    let b0 = hex_value(h[0]) * 16 + hex_value(h[1]);
    let b1 = hex_value(h[2]) * 16 + hex_value(h[3]);
    (b0 % dim, b1 % 2 == 0)
}

/// A deterministic embedder for tests: hashes words into a small vector, so texts sharing
/// words are close. Not a language model. (The vector itself, a sum of signed unit slots
/// scaled to unit length, is built by the caller from [`HashEmbedder::slots`].)
#[derive(Debug, PartialEq, Eq)]
pub struct HashEmbedder {
    dim: usize,
}

impl HashEmbedder {
    /// The dimension is at least one.
    #[verifier::type_invariant]
    spec fn dim_positive(self) -> bool {
        self.dim >= 1
    }

    /// An embedder producing `dim`-dimensional vectors (at least one).
    pub fn new(dim: usize) -> (e: HashEmbedder)
        ensures
            e.dim() == (if dim < 1 { 1 } else { dim }),
            e.dim() >= 1,
    {
        HashEmbedder { dim: if dim < 1 { 1 } else { dim } }
    }

    /// The vector's dimension.
    pub closed spec fn spec_dim(&self) -> usize {
        self.dim
    }

    /// The vector's dimension.
    #[verifier::when_used_as_spec(spec_dim)]
    pub fn dim(&self) -> (d: usize)
        ensures
            d == self.spec_dim(),
    {
        self.dim
    }

    /// The model name.
    pub fn model(&self) -> (m: &'static str)
        ensures
            m@ == "hash-test"@,
    {
        proof {
            reveal_strlit("hash-test");
        }
        "hash-test"
    }

    /// Always ready: nothing to load.
    pub fn ready(&self) -> (b: bool)
        ensures
            b,
    {
        true
    }

    /// The slot and sign of every word of `text`, in order (see [`word_slot_of`]).
    pub fn slots(&self, text: &str) -> (r: Vec<(usize, bool)>)
        ensures
            r@.len() == alnum_words_of(text@).len(),
            forall|i: int|
                0 <= i < r@.len() ==> (#[trigger] r@[i]).0 == word_slot_of(alnum_words_of(text@)[i], self.dim() as nat).0
                    && r@[i].1 == word_slot_of(alnum_words_of(text@)[i], self.dim() as nat).1,
    {
        proof {
            use_type_invariant(self);
        }
        let words = alnum_words(text);
        let mut r: Vec<(usize, bool)> = Vec::new();
        let mut i: usize = 0;
        while i < words.len()
            invariant
                i <= words.len(),
                self.dim >= 1,
                texts(words@) == alnum_words_of(text@),
                r@.len() == i,
                forall|k: int|
                    0 <= k < i ==> (#[trigger] r@[k]).0 == word_slot_of(texts(words@)[k], self.dim as nat).0
                        && r@[k].1 == word_slot_of(texts(words@)[k], self.dim as nat).1,
            decreases words.len() - i,
        {
            let lower = crate::text::to_lower(words[i].as_str());
            let h = crate::hash::blake3_hex(lower.as_str());
            let hv = crate::text::chars_of(h.as_str());
            assert(crate::hash::is_lower_hex(hv@[0]) && crate::hash::is_lower_hex(hv@[1]));
            assert(crate::hash::is_lower_hex(hv@[2]) && crate::hash::is_lower_hex(hv@[3]));
            let b0: usize = (hex_digit_value(hv[0]) as usize) * 16 + (hex_digit_value(hv[1]) as usize);
            let b1: usize = (hex_digit_value(hv[2]) as usize) * 16 + (hex_digit_value(hv[3]) as usize);
            r.push((b0 % self.dim, b1 % 2 == 0));
            i = i + 1;
        }
        r
    }
}

impl Clone for HashEmbedder {
    fn clone(&self) -> (r: Self)
        ensures
            r == *self,
    {
        proof {
            use_type_invariant(self);
        }
        HashEmbedder { dim: self.dim }
    }
}

/// The words of `text` for hashing (see [`alnum_words_of`]).
fn alnum_words(text: &str) -> (v: Vec<String>)
    ensures
        texts(v@) == alnum_words_of(text@),
{
    let chars = crate::text::chars_of(text);
    let mut done: Vec<String> = Vec::new();
    let mut cur = String::new();
    let mut i: usize = 0;
    assert(text@.take(0) =~= Seq::<char>::empty());
    assert(alnum_runs_of(Seq::<char>::empty()).drop_last() =~= Seq::<Seq<char>>::empty());
    while i < chars.len()
        invariant
            i <= chars.len(),
            chars@ == text@,
            alnum_runs_of(text@.take(i as int)).len() >= 1,
            non_empty(alnum_runs_of(text@.take(i as int)).drop_last()) == texts(done@),
            alnum_runs_of(text@.take(i as int)).last() == cur@,
        decreases chars.len() - i,
    {
        let ghost t = text@.take(i + 1);
        let ghost r = alnum_runs_of(t.drop_last());
        assert(t.drop_last() =~= text@.take(i as int));
        assert(t.last() == chars@[i as int]);
        if !crate::search::is_alphanumeric(chars[i]) {
            let ghost d0 = texts(done@);
            assert(alnum_runs_of(t).drop_last() =~= r);
            assert(r =~= r.drop_last().push(r.last()));
            if !crate::text::is_empty_text(cur.as_str()) {
                let piece = cur;
                cur = String::new();
                done.push(piece);
                assert(texts(done@) =~= d0.push(piece@));
            } else {
                cur = String::new();
            }
        } else {
            crate::text::push_char(&mut cur, chars[i]);
            assert(alnum_runs_of(t).drop_last() =~= r.drop_last());
        }
        i = i + 1;
    }
    assert(text@.take(chars.len() as int) =~= text@);
    let ghost r = alnum_runs_of(text@);
    assert(r =~= r.drop_last().push(r.last()));
    let ghost d0 = texts(done@);
    if !crate::text::is_empty_text(cur.as_str()) {
        done.push(cur);
        assert(texts(done@) =~= d0.push(done@.last()@));
    }
    done
}

} // verus!
