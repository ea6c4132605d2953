//! Section-level diff between what the index knew about a document and a fresh parse.
//!
//! Identity is the content hash, not the position: a section that moves keeps its hash and
//! is reported as *moved*, not as removed-and-added. Duplicate hashes are handled by
//! multiplicity.

use vstd::prelude::*;
use crate::eval::{first_occurrences, law_pages_first_occurrence};
use crate::markdown::{Document, Section};
use crate::text::{lemma_text_lt_order, same_text, text_less, text_lt, texts};

verus! {

/// What the index previously knew about one section of a document.
#[derive(Debug, Clone, PartialEq, Eq)]
pub struct Known {
    /// blake3 hex digest of the section's normalised text.
    pub hash: String,
    /// Position the section had in the document.
    pub index: u32,
}

/// A section that kept its content but changed position.
#[derive(Debug, Clone, PartialEq, Eq)]
pub struct Moved {
    /// The section's hash.
    pub hash: String,
    /// Where it was.
    pub from: u32,
    /// Where it is now.
    pub to: u32,
}

/// Result of comparing a stored document with a fresh parse.
#[derive(Debug, Clone, Default, PartialEq, Eq)]
pub struct SectionDelta {
    /// Hashes present now that were not present before, in document order, deduplicated.
    pub added: Vec<String>,
    /// Hashes present before and now, at the same index.
    pub unchanged: Vec<String>,
    /// Hashes present before and now, at a different index.
    pub moved: Vec<Moved>,
    /// Hashes present before but not now.
    pub removed: Vec<String>,
}

/// A section as the diff sees it: hash and position.
pub type Entry = (Seq<char>, u32);

/// The entries of what the store knew.
pub open spec fn known_entries(old: Seq<Known>) -> Seq<Entry> {
    old.map_values(|k: Known| (k.hash@, k.index))
}

/// The entries of a fresh parse.
pub open spec fn doc_entries(secs: Seq<Section>) -> Seq<Entry> {
    secs.map_values(|s: Section| (s.hash@, s.index))
}

/// The first old entry from `k` on that is still unmatched and has hash `h`.
pub open spec fn first_unused(olds: Seq<Entry>, used: Seq<bool>, h: Seq<char>, k: int) -> Option<int>
    decreases olds.len() - k,
{
    if k < 0 || k >= olds.len() {
        None
    } else if !used[k] && olds[k].0 == h {
        Some(k)
    } else {
        first_unused(olds, used, h, k + 1)
    }
}

/// The position of the last old entry with hash `h`.
pub open spec fn last_known(olds: Seq<Entry>, h: Seq<char>) -> Option<u32>
    decreases olds.len(),
{
    if olds.len() == 0 {
        None
    } else if olds.last().0 == h {
        Some(olds.last().1)
    } else {
        last_known(olds.drop_last(), h)
    }
}

/// The diff after some of the new sections: which old entries are matched, and the lists.
pub struct DiffState {
    /// Per old entry, whether a new section took it.
    pub used: Seq<bool>,
    /// Hashes added so far.
    pub added: Seq<Seq<char>>,
    /// Hashes unchanged so far.
    pub unchanged: Seq<Seq<char>>,
    /// Moves so far: hash, from, to.
    pub moved: Seq<(Seq<char>, u32, u32)>,
}

/// One new section taken into the diff: it takes the first unmatched old entry with its
/// hash (unchanged when at the same index, else moved); with none left, an extra copy of a
/// known hash is a move from the last position it had, and an unknown hash is added once.
pub open spec fn diff_step(olds: Seq<Entry>, st: DiffState, e: Entry) -> DiffState {
    match first_unused(olds, st.used, e.0, 0) {
        Some(j) => {
            let used = st.used.update(j, true);
            if olds[j].1 == e.1 {
                DiffState { used, unchanged: st.unchanged.push(e.0), ..st }
            } else {
                DiffState { used, moved: st.moved.push((e.0, olds[j].1, e.1)), ..st }
            }
        },
        None => match last_known(olds, e.0) {
            Some(from) => DiffState { moved: st.moved.push((e.0, from, e.1)), ..st },
            None => if st.added.contains(e.0) {
                st
            } else {
                DiffState { added: st.added.push(e.0), ..st }
            },
        },
    }
}

/// The diff after all of `news`.
pub open spec fn diff_fold(olds: Seq<Entry>, news: Seq<Entry>) -> DiffState
    decreases news.len(),
{
    if news.len() == 0 {
        DiffState {
            used: Seq::new(olds.len(), |i: int| false),
            added: Seq::empty(),
            unchanged: Seq::empty(),
            moved: Seq::empty(),
        }
    } else {
        diff_step(olds, diff_fold(olds, news.drop_last()), news.last())
    }
}

/// The old entries no new section took, as `(index, hash)`, in old order.
pub open spec fn leftovers(olds: Seq<Entry>, used: Seq<bool>) -> Seq<(u32, Seq<char>)>
    decreases olds.len(),
{
    if olds.len() == 0 {
        Seq::empty()
    } else {
        let prev = leftovers(olds.drop_last(), used);
        if used[olds.len() - 1] {
            prev
        } else {
            prev.push((olds.last().1, olds.last().0))
        }
    }
}

/// `(index, hash)` order: by index, then by hash.
pub open spec fn pair_lt(a: (u32, Seq<char>), b: (u32, Seq<char>)) -> bool {
    a.0 < b.0 || (a.0 == b.0 && text_lt(a.1, b.1))
}

/// `s` is ordered by [`pair_lt`] (equal pairs may repeat).
pub open spec fn pairs_sorted(s: Seq<(u32, Seq<char>)>) -> bool {
    forall|i: int, j: int| 0 <= i < j < s.len() ==> !pair_lt(#[trigger] s[j], #[trigger] s[i])
}

/// `s` with each run of equal consecutive elements kept once (`Vec::dedup`).
pub open spec fn dedup_adjacent(s: Seq<Seq<char>>) -> Seq<Seq<char>>
    decreases s.len(),
{
    if s.len() <= 1 {
        s
    } else if s.last() == s[s.len() - 2] {
        dedup_adjacent(s.drop_last())
    } else {
        dedup_adjacent(s.drop_last()).push(s.last())
    }
}

/// The removed hashes: the leftovers ordered by `(index, hash)`, hashes only, consecutive
/// repeats dropped.
pub open spec fn removed_from(sorted: Seq<(u32, Seq<char>)>) -> Seq<Seq<char>> {
    dedup_adjacent(sorted.map_values(|p: (u32, Seq<char>)| p.1))
}

proof fn lemma_pair_lt(a: (u32, Seq<char>), b: (u32, Seq<char>), c: (u32, Seq<char>))
    ensures
        pair_lt(a, b) ==> !pair_lt(b, a),
        pair_lt(a, b) && pair_lt(b, c) ==> pair_lt(a, c),
{
    lemma_text_lt_order(a.1, b.1, c.1);
}

fn pair_less(a: &(u32, String), b: &(u32, String)) -> (r: bool)
    ensures
        r == pair_lt((a.0, a.1@), (b.0, b.1@)),
{
    a.0 < b.0 || (a.0 == b.0 && text_less(a.1.as_str(), b.1.as_str()))
}

/// The view of a list of `(index, hash)` pairs.
pub open spec fn pair_views(s: Seq<(u32, String)>) -> Seq<(u32, Seq<char>)> {
    s.map_values(|p: (u32, String)| (p.0, p.1@))
}

/// The view of a list of moves.
pub open spec fn moved_views(s: Seq<Moved>) -> Seq<(Seq<char>, u32, u32)> {
    s.map_values(|m: Moved| (m.hash@, m.from, m.to))
}

fn sort_pairs(v: Vec<(u32, String)>) -> (out: Vec<(u32, String)>)
    ensures
        pairs_sorted(pair_views(out@)),
        pair_views(out@).to_multiset() == pair_views(v@).to_multiset(),
{
    let mut out: Vec<(u32, String)> = Vec::new();
    let mut i: usize = 0;
    assert(pair_views(out@) =~= pair_views(v@).take(0));
    while i < v.len()
        invariant
            0 <= i <= v.len(),
            pairs_sorted(pair_views(out@)),
            pair_views(out@).to_multiset() == pair_views(v@).take(i as int).to_multiset(),
        decreases v.len() - i,
    {
        let x = (v[i].0, v[i].1.clone());
        let mut p: usize = 0;
        while p < out.len() && !pair_less(&x, &out[p])
            invariant
                0 <= p <= out.len(),
                forall|b: int| 0 <= b < p ==> !pair_lt((x.0, x.1@), #[trigger] pair_views(out@)[b]),
            decreases out.len() - p,
        {
            p = p + 1;
        }
        let ghost o0 = pair_views(out@);
        let ghost xv = (x.0, x.1@);
        out.insert(p, x);
        proof {
            assert(pair_views(out@) =~= o0.insert(p as int, xv));
            let o1 = pair_views(out@);
            assert forall|a: int, b: int| 0 <= a < b < o1.len() implies !pair_lt(#[trigger] o1[b], #[trigger] o1[a]) by {
                if b < p {
                    assert(o1[a] == o0[a] && o1[b] == o0[b]);
                } else if b == p {
                    assert(o1[a] == o0[a]);
                } else if a == p {
                    assert(o1[b] == o0[b - 1]);
                    assert(pair_lt(xv, o0[p as int]));
                    lemma_pair_lt(o0[b - 1], xv, o0[p as int]);
                    if b - 1 > p {
                        assert(!pair_lt(o0[b - 1], o0[p as int]));
                    }
                } else if a < p {
                    assert(o1[a] == o0[a] && o1[b] == o0[b - 1]);
                } else {
                    assert(o1[a] == o0[a - 1] && o1[b] == o0[b - 1]);
                }
            }
            vstd::seq_lib::to_multiset_insert(o0, p as int, xv);
            assert(pair_views(v@).take(i + 1) =~= pair_views(v@).take(i as int).push(xv));
            vstd::seq_lib::to_multiset_build(pair_views(v@).take(i as int), xv);
        }
        i = i + 1;
    }
    assert(pair_views(v@).take(v.len() as int) =~= pair_views(v@));
    out
}

fn dedup_hashes(sorted: &Vec<(u32, String)>) -> (out: Vec<String>)
    ensures
        texts(out@) == removed_from(pair_views(sorted@)),
{
    let ghost hs = pair_views(sorted@).map_values(|p: (u32, Seq<char>)| p.1);
    let mut out: Vec<String> = Vec::new();
    let mut i: usize = 0;
    while i < sorted.len()
        invariant
            0 <= i <= sorted.len(),
            hs == pair_views(sorted@).map_values(|p: (u32, Seq<char>)| p.1),
            texts(out@) == dedup_adjacent(hs.take(i as int)),
        decreases sorted.len() - i,
    {
        proof {
            assert(hs.take(i + 1).drop_last() =~= hs.take(i as int));
            assert(hs.take(i + 1).last() == sorted@[i as int].1@);
            if i > 0 {
                assert(hs.take(i + 1)[i - 1] == sorted@[i - 1].1@);
            }
            if i == 0 {
                assert(hs.take(1) =~= seq![sorted@[0].1@]);
            }
        }
        if i == 0 || !same_text(sorted[i].1.as_str(), sorted[i - 1].1.as_str()) {
            let ghost o0 = texts(out@);
            out.push(sorted[i].1.clone());
            assert(texts(out@) =~= o0.push(sorted@[i as int].1@));
        }
        i = i + 1;
    }
    assert(hs.take(sorted.len() as int) =~= hs);
    out
}

impl SectionDelta {
    /// Compare `old` (what the store had) with `doc` (what the file contains now): each new
    /// section is taken by [`diff_step`] in document order; whatever old entries are left
    /// are removed (see [`removed_from`]).
    pub fn compute(old: &Vec<Known>, doc: &Document) -> (d: SectionDelta)
        ensures
            ({
                let st = diff_fold(known_entries(old@), doc_entries(doc.sections@));
                &&& texts(d.added@) == st.added
                &&& texts(d.unchanged@) == st.unchanged
                &&& moved_views(d.moved@) == st.moved
                &&& exists|sorted: Seq<(u32, Seq<char>)>|
                    sorted.to_multiset() == leftovers(known_entries(old@), st.used).to_multiset()
                        && pairs_sorted(sorted) && texts(d.removed@) == removed_from(sorted)
            }),
    {
        let ghost olds = known_entries(old@);
        let ghost news = doc_entries(doc.sections@);
        let mut used: Vec<bool> = Vec::new();
        let mut k: usize = 0;
        while k < old.len()
            invariant
                0 <= k <= old.len(),
                used.len() == k,
                forall|j: int| 0 <= j < k ==> !used@[j],
            decreases old.len() - k,
        {
            used.push(false);
            k = k + 1;
        }
        assert(used@ =~= diff_fold(olds, news.take(0)).used);
        let mut added: Vec<String> = Vec::new();
        let mut unchanged: Vec<String> = Vec::new();
        let mut moved: Vec<Moved> = Vec::new();
        let mut i: usize = 0;
        while i < doc.sections.len()
            invariant
                0 <= i <= doc.sections.len(),
                olds == known_entries(old@),
                news == doc_entries(doc.sections@),
                used@ == diff_fold(olds, news.take(i as int)).used,
                texts(added@) == diff_fold(olds, news.take(i as int)).added,
                texts(unchanged@) == diff_fold(olds, news.take(i as int)).unchanged,
                moved_views(moved@) == diff_fold(olds, news.take(i as int)).moved,
                used.len() == old.len(),
            decreases doc.sections.len() - i,
        {
            let s = &doc.sections[i];
            let ghost e = (s.hash@, s.index);
            proof {
                assert(news.take(i + 1).drop_last() =~= news.take(i as int));
                assert(news.take(i + 1).last() == e);
            }
            let ghost st = diff_fold(olds, news.take(i as int));
            // first unmatched old entry with this hash
            let mut j: usize = 0;
            while j < old.len() && (used[j] || !same_text(old[j].hash.as_str(), s.hash.as_str()))
                invariant
                    0 <= j <= old.len(),
                    used.len() == old.len(),
                    olds == known_entries(old@),
                    first_unused(olds, used@, e.0, 0) == first_unused(olds, used@, e.0, j as int),
                    e == (s.hash@, s.index),
                decreases old.len() - j,
            {
                j = j + 1;
            }
            if j < old.len() {
                assert(first_unused(olds, used@, e.0, j as int) == Some(j as int));
                used.set(j, true);
                if old[j].index == s.index {
                    let ghost u0 = texts(unchanged@);
                    unchanged.push(s.hash.clone());
                    assert(texts(unchanged@) =~= u0.push(e.0));
                } else {
                    let ghost m0 = moved_views(moved@);
                    moved.push(Moved { hash: s.hash.clone(), from: old[j].index, to: s.index });
                    assert(moved_views(moved@) =~= m0.push((e.0, olds[j as int].1, e.1)));
                }
            } else {
                // the last position the hash had, if any
                let mut last: Option<u32> = None;
                let mut q: usize = 0;
                while q < old.len()
                    invariant
                        0 <= q <= old.len(),
                        olds == known_entries(old@),
                        last == last_known(olds.take(q as int), e.0),
                        e == (s.hash@, s.index),
                    decreases old.len() - q,
                {
                    proof {
                        assert(olds.take(q + 1).drop_last() =~= olds.take(q as int));
                        assert(olds.take(q + 1).last() == olds[q as int]);
                    }
                    if same_text(old[q].hash.as_str(), s.hash.as_str()) {
                        last = Some(old[q].index);
                    }
                    q = q + 1;
                }
                assert(olds.take(old.len() as int) =~= olds);
                match last {
                    Some(from) => {
                        let ghost m0 = moved_views(moved@);
                        moved.push(Moved { hash: s.hash.clone(), from, to: s.index });
                        assert(moved_views(moved@) =~= m0.push((e.0, from, e.1)));
                    },
                    None => {
                        if !crate::text::contains_string(&added, &s.hash) {
                            let ghost a0 = texts(added@);
                            added.push(s.hash.clone());
                            assert(texts(added@) =~= a0.push(e.0));
                        }
                    },
                }
            }
            i = i + 1;
        }
        assert(news.take(doc.sections.len() as int) =~= news);
        let ghost st = diff_fold(olds, news);
        let mut rest: Vec<(u32, String)> = Vec::new();
        let mut j: usize = 0;
        while j < old.len()
            invariant
                0 <= j <= old.len(),
                used.len() == old.len(),
                olds == known_entries(old@),
                pair_views(rest@) == leftovers(olds.take(j as int), used@),
            decreases old.len() - j,
        {
            proof {
                assert(olds.take(j + 1).drop_last() =~= olds.take(j as int));
                assert(olds.take(j + 1).last() == olds[j as int]);
            }
            if !used[j] {
                let ghost r0 = pair_views(rest@);
                rest.push((old[j].index, old[j].hash.clone()));
                assert(pair_views(rest@) =~= r0.push((olds[j as int].1, olds[j as int].0)));
            }
            j = j + 1;
        }
        assert(olds.take(old.len() as int) =~= olds);
        let sorted = sort_pairs(rest);
        let removed = dedup_hashes(&sorted);
        SectionDelta { added, unchanged, moved, removed }
    }

    /// `true` when nothing changed at all, including positions.
    pub fn is_noop(&self) -> (b: bool)
        ensures
            b == (self.added.len() == 0 && self.moved.len() == 0 && self.removed.len() == 0),
    {
        self.added.len() == 0 && self.moved.len() == 0 && self.removed.len() == 0
    }

    /// `true` when no model call is needed (only moves or removals).
    pub fn needs_no_summaries(&self) -> (b: bool)
        ensures
            b == (self.added.len() == 0),
    {
        self.added.len() == 0
    }
}


proof fn lemma_first_unused_at(olds: Seq<Entry>, used: Seq<bool>, h: Seq<char>, k: int, i: int)
    requires
        0 <= k <= i < olds.len(),
        used.len() == olds.len(),
        forall|j: int| k <= j < i ==> used[j],
        !used[i],
        olds[i].0 == h,
    ensures
        first_unused(olds, used, h, k) == Some(i),
    decreases i - k,
{
    if k < i {
        lemma_first_unused_at(olds, used, h, k + 1, i);
    }
}

proof fn lemma_identical_prefix(es: Seq<Entry>, i: int)
    requires
        0 <= i <= es.len(),
    ensures
        diff_fold(es, es.take(i)).used == Seq::new(es.len(), |j: int| j < i),
        diff_fold(es, es.take(i)).added.len() == 0,
        diff_fold(es, es.take(i)).moved.len() == 0,
        diff_fold(es, es.take(i)).unchanged == es.take(i).map_values(|e: Entry| e.0),
    decreases i,
{
    if i == 0 {
        assert(es.take(0).len() == 0);
        assert(Seq::new(es.len(), |j: int| false) =~= Seq::new(es.len(), |j: int| j < 0));
        assert(es.take(0).map_values(|e: Entry| e.0) =~= Seq::<Seq<char>>::empty());
    } else {
        lemma_identical_prefix(es, i - 1);
        assert(es.take(i).drop_last() =~= es.take(i - 1));
        assert(es.take(i).last() == es[i - 1]);
        let st = diff_fold(es, es.take(i - 1));
        lemma_first_unused_at(es, st.used, es[i - 1].0, 0, i - 1);
        assert(st.used.update(i - 1, true) =~= Seq::new(es.len(), |j: int| j < i));
        assert(es.take(i).map_values(|e: Entry| e.0) =~= es.take(i - 1).map_values(|e: Entry| e.0).push(es[i - 1].0));
    }
}

proof fn lemma_no_leftovers(olds: Seq<Entry>, used: Seq<bool>)
    requires
        used.len() >= olds.len(),
        forall|j: int| 0 <= j < olds.len() ==> used[j],
    ensures
        leftovers(olds, used).len() == 0,
    decreases olds.len(),
{
    if olds.len() > 0 {
        lemma_no_leftovers(olds.drop_last(), used);
    }
}

/// Diffing a document against what the store recorded of that very document changes
/// nothing: every section is unchanged, none added, moved or removed.
pub proof fn law_identical_parse_is_noop(entries: Seq<Entry>)
    ensures
        diff_fold(entries, entries).added.len() == 0,
        diff_fold(entries, entries).moved.len() == 0,
        leftovers(entries, diff_fold(entries, entries).used).len() == 0,
        diff_fold(entries, entries).unchanged == entries.map_values(|e: Entry| e.0),
{
    lemma_identical_prefix(entries, entries.len() as int);
    assert(entries.take(entries.len() as int) =~= entries);
    lemma_no_leftovers(entries, diff_fold(entries, entries).used);
}

/// Against an empty index every section is added, each hash once, in document order;
/// nothing is unchanged or moved.
pub proof fn law_first_index_is_all_added(news: Seq<Entry>)
    ensures
        diff_fold(Seq::empty(), news).added == crate::eval::first_occurrences(news.map_values(|e: Entry| e.0)),
        diff_fold(Seq::empty(), news).unchanged.len() == 0,
        diff_fold(Seq::empty(), news).moved.len() == 0,
    decreases news.len(),
{
    if news.len() > 0 {
        law_first_index_is_all_added(news.drop_last());
        assert(news.map_values(|e: Entry| e.0).drop_last() =~= news.drop_last().map_values(|e: Entry| e.0));
        let st = diff_fold(Seq::<Entry>::empty(), news.drop_last());
        assert(first_unused(Seq::<Entry>::empty(), st.used, news.last().0, 0) is None);
        assert(last_known(Seq::<Entry>::empty(), news.last().0) is None);
    }
}
} // verus!

verus! {

/// The hashes of a list of entries.
pub open spec fn entry_hashes(es: Seq<Entry>) -> Seq<Seq<char>> {
    es.map_values(|e: Entry| e.0)
}

/// How many of `news` carry a hash no old entry has.
pub open spec fn count_unknown(olds: Seq<Entry>, news: Seq<Entry>) -> nat
    decreases news.len(),
{
    if news.len() == 0 {
        0
    } else {
        count_unknown(olds, news.drop_last()) + if entry_hashes(olds).contains(news.last().0) { 0nat } else { 1nat }
    }
}

proof fn lemma_first_unused_found(olds: Seq<Entry>, used: Seq<bool>, h: Seq<char>, k: int)
    ensures
        first_unused(olds, used, h, k) matches Some(j) ==> 0 <= j < olds.len() && olds[j].0 == h,
    decreases olds.len() - k,
{
    if 0 <= k < olds.len() {
        lemma_first_unused_found(olds, used, h, k + 1);
    }
}

proof fn lemma_last_known_iff(olds: Seq<Entry>, h: Seq<char>)
    ensures
        last_known(olds, h) is Some <==> entry_hashes(olds).contains(h),
    decreases olds.len(),
{
    if olds.len() > 0 {
        lemma_last_known_iff(olds.drop_last(), h);
        assert(entry_hashes(olds.drop_last()) =~= entry_hashes(olds).drop_last());
        assert(entry_hashes(olds).last() == olds.last().0);
        if entry_hashes(olds).contains(h) && olds.last().0 != h {
            let i = choose|i: int| 0 <= i < entry_hashes(olds).len() && entry_hashes(olds)[i] == h;
            assert(i != olds.len() - 1);
            assert(entry_hashes(olds.drop_last())[i] == h);
        }
        if entry_hashes(olds.drop_last()).contains(h) {
            let i = choose|i: int| 0 <= i < entry_hashes(olds.drop_last()).len() && entry_hashes(olds.drop_last())[i] == h;
            assert(entry_hashes(olds)[i] == h);
        }
    }
}

/// Every section of the new parse is accounted for once: unchanged, moved, or carrying a
/// hash the old sections never had; and every unchanged or moved hash is one the old
/// sections had.
pub proof fn law_every_section_is_accounted_for(olds: Seq<Entry>, news: Seq<Entry>)
    ensures
        diff_fold(olds, news).unchanged.len() + diff_fold(olds, news).moved.len() + count_unknown(olds, news)
            == news.len(),
        forall|i: int| 0 <= i < diff_fold(olds, news).unchanged.len() ==> entry_hashes(olds).contains(
            #[trigger] diff_fold(olds, news).unchanged[i],
        ),
        forall|i: int| 0 <= i < diff_fold(olds, news).moved.len() ==> entry_hashes(olds).contains(
            (#[trigger] diff_fold(olds, news).moved[i]).0,
        ),
    decreases news.len(),
{
    if news.len() > 0 {
        law_every_section_is_accounted_for(olds, news.drop_last());
        let st = diff_fold(olds, news.drop_last());
        let e = news.last();
        let n = diff_fold(olds, news);
        lemma_first_unused_found(olds, st.used, e.0, 0);
        lemma_last_known_iff(olds, e.0);
        match first_unused(olds, st.used, e.0, 0) {
            Some(j) => {
                assert(entry_hashes(olds)[j] == e.0);
                assert(entry_hashes(olds).contains(e.0));
            },
            None => {},
        }
        assert forall|i: int| 0 <= i < n.unchanged.len() implies entry_hashes(olds).contains(#[trigger] n.unchanged[i]) by {
            if i < st.unchanged.len() {
                assert(n.unchanged[i] == st.unchanged[i]);
            }
        }
        assert forall|i: int| 0 <= i < n.moved.len() implies entry_hashes(olds).contains((#[trigger] n.moved[i]).0) by {
            if i < st.moved.len() {
                assert(n.moved[i] == st.moved[i]);
            }
        }
    }
}

} // verus!

verus! {

/// The hashes of `news` that no old entry has, in order, repeats included.
pub open spec fn unknown_hashes(olds: Seq<Entry>, news: Seq<Entry>) -> Seq<Seq<char>>
    decreases news.len(),
{
    if news.len() == 0 {
        Seq::empty()
    } else {
        let prev = unknown_hashes(olds, news.drop_last());
        if entry_hashes(olds).contains(news.last().0) {
            prev
        } else {
            prev.push(news.last().0)
        }
    }
}

/// `added` holds each hash that the old sections never had once, in the order in which it
/// first appears in the new parse.
pub proof fn law_added_is_first_occurrences(olds: Seq<Entry>, news: Seq<Entry>)
    ensures
        diff_fold(olds, news).added == first_occurrences(unknown_hashes(olds, news)),
        diff_fold(olds, news).added.no_duplicates(),
    decreases news.len(),
{
    if news.len() > 0 {
        law_added_is_first_occurrences(olds, news.drop_last());
        let st = diff_fold(olds, news.drop_last());
        let e = news.last();
        lemma_first_unused_found(olds, st.used, e.0, 0);
        lemma_last_known_iff(olds, e.0);
        match first_unused(olds, st.used, e.0, 0) {
            Some(j) => {
                assert(entry_hashes(olds)[j] == e.0);
                assert(entry_hashes(olds).contains(e.0));
            },
            None => {},
        }
        let u = unknown_hashes(olds, news);
        if !entry_hashes(olds).contains(e.0) {
            assert(u.drop_last() =~= unknown_hashes(olds, news.drop_last()));
        }
    }
    law_pages_first_occurrence(unknown_hashes(olds, news));
}

} // verus!

verus! {

/// How many of `es` carry hash `h`.
pub open spec fn hash_count(es: Seq<Entry>, h: Seq<char>) -> nat
    decreases es.len(),
{
    if es.len() == 0 {
        0
    } else {
        hash_count(es.drop_last(), h) + if es.last().0 == h { 1nat } else { 0nat }
    }
}

/// How many of the first `k` old entries carry hash `h` and are taken (`taken`) or not.
pub open spec fn marked_count(olds: Seq<Entry>, used: Seq<bool>, h: Seq<char>, k: int, taken: bool) -> nat
    decreases k,
{
    if k <= 0 {
        0
    } else {
        marked_count(olds, used, h, k - 1, taken) + if used[k - 1] == taken && olds[k - 1].0 == h {
            1nat
        } else {
            0nat
        }
    }
}

proof fn lemma_marked_split(olds: Seq<Entry>, used: Seq<bool>, h: Seq<char>, k: int)
    requires
        0 <= k <= olds.len(),
    ensures
        marked_count(olds, used, h, k, true) + marked_count(olds, used, h, k, false) == hash_count(olds.take(k), h),
    decreases k,
{
    if k > 0 {
        lemma_marked_split(olds, used, h, k - 1);
        assert(olds.take(k).drop_last() =~= olds.take(k - 1));
        assert(olds.take(k).last() == olds[k - 1]);
    }
}

proof fn lemma_marked_update(olds: Seq<Entry>, used: Seq<bool>, g: Seq<char>, j: int, h: Seq<char>, k: int)
    requires
        0 <= j < used.len(),
        !used[j],
        olds[j].0 == g,
        0 <= k <= used.len(),
    ensures
        marked_count(olds, used.update(j, true), h, k, true) == marked_count(olds, used, h, k, true) + if j < k
            && h == g {
            1nat
        } else {
            0nat
        },
    decreases k,
{
    if k > 0 {
        lemma_marked_update(olds, used, g, j, h, k - 1);
    }
}

proof fn lemma_marked_none(olds: Seq<Entry>, used: Seq<bool>, h: Seq<char>, k: int, taken: bool)
    requires
        forall|j: int| 0 <= j < k ==> !(used[j] == taken && #[trigger] olds[j].0 == h),
    ensures
        marked_count(olds, used, h, k, taken) == 0,
    decreases k,
{
    if k > 0 {
        lemma_marked_none(olds, used, h, k - 1, taken);
    }
}

proof fn lemma_marked_some(olds: Seq<Entry>, used: Seq<bool>, h: Seq<char>, k: int, taken: bool)
    requires
        marked_count(olds, used, h, k, taken) > 0,
    ensures
        exists|j: int| 0 <= j < k && used[j] == taken && #[trigger] olds[j].0 == h,
    decreases k,
{
    if k > 0 {
        if used[k - 1] == taken && olds[k - 1].0 == h {
        } else {
            lemma_marked_some(olds, used, h, k - 1, taken);
        }
    }
}

proof fn lemma_first_unused_exact(olds: Seq<Entry>, used: Seq<bool>, h: Seq<char>, m: int)
    requires
        0 <= m,
        used.len() == olds.len(),
    ensures
        first_unused(olds, used, h, m) matches Some(j) ==> m <= j < olds.len() && !used[j] && olds[j].0 == h,
        first_unused(olds, used, h, m) is None ==> forall|j: int| m <= j < olds.len() ==> !(!used[j] && #[trigger] olds[j].0 == h),
    decreases olds.len() - m,
{
    if m < olds.len() {
        lemma_first_unused_exact(olds, used, h, m + 1);
    }
}

/// Taken old entries per hash: as many as the fewer of the old and the new copies.
proof fn lemma_fold_counts(olds: Seq<Entry>, news: Seq<Entry>, h: Seq<char>)
    ensures
        diff_fold(olds, news).used.len() == olds.len(),
        marked_count(olds, diff_fold(olds, news).used, h, olds.len() as int, true) == if hash_count(olds, h)
            <= hash_count(news, h) {
            hash_count(olds, h)
        } else {
            hash_count(news, h)
        },
    decreases news.len(),
{
    assert(olds.take(olds.len() as int) =~= olds);
    if news.len() == 0 {
        let u = diff_fold(olds, news).used;
        lemma_marked_none(olds, u, h, olds.len() as int, true);
    } else {
        lemma_fold_counts(olds, news.drop_last(), h);
        let st = diff_fold(olds, news.drop_last());
        let e = news.last();
        let g = e.0;
        lemma_fold_counts(olds, news.drop_last(), g);
        lemma_first_unused_exact(olds, st.used, g, 0);
        lemma_marked_split(olds, st.used, g, olds.len() as int);
        lemma_marked_split(olds, st.used, h, olds.len() as int);
        match first_unused(olds, st.used, g, 0) {
            Some(j) => {
                lemma_marked_update(olds, st.used, g, j, h, olds.len() as int);
                assert(marked_count(olds, st.used, g, olds.len() as int, false) > 0) by {
                    if marked_count(olds, st.used, g, olds.len() as int, false) == 0 {
                        assert(olds.take(olds.len() as int) =~= olds);
                    }
                    lemma_marked_pos(olds, st.used, g, j, olds.len() as int);
                }
            },
            None => {
                lemma_marked_none(olds, st.used, g, olds.len() as int, false);
            },
        }
    }
}

proof fn lemma_marked_pos(olds: Seq<Entry>, used: Seq<bool>, g: Seq<char>, j: int, k: int)
    requires
        0 <= j < k,
        !used[j],
        olds[j].0 == g,
    ensures
        marked_count(olds, used, g, k, false) > 0,
    decreases k,
{
    if k - 1 > j {
        lemma_marked_pos(olds, used, g, j, k - 1);
    }
}

proof fn lemma_dedup_adjacent_contains(s: Seq<Seq<char>>, h: Seq<char>)
    ensures
        dedup_adjacent(s).contains(h) <==> s.contains(h),
    decreases s.len(),
{
    if s.len() > 1 {
        let t = s.drop_last();
        lemma_dedup_adjacent_contains(t, h);
        let d = dedup_adjacent(t);
        assert(s =~= t.push(s.last()));
        assert(s.contains(h) <==> (t.contains(h) || s.last() == h)) by {
            if s.contains(h) {
                let i = choose|i: int| 0 <= i < s.len() && s[i] == h;
                if i < t.len() {
                    assert(t[i] == h);
                }
            }
            if t.contains(h) {
                let m = choose|m: int| 0 <= m < t.len() && t[m] == h;
                assert(s[m] == h);
            }
            if s.last() == h {
                assert(s[s.len() - 1] == h);
            }
        }
        if s.last() == s[s.len() - 2] {
            assert(t[t.len() - 1] == s.last());
        } else {
            assert(dedup_adjacent(s) == d.push(s.last()));
            assert(d.push(s.last()).contains(h) <==> (d.contains(h) || s.last() == h)) by {
                let e = d.push(s.last());
                if e.contains(h) {
                    let i = choose|i: int| 0 <= i < e.len() && e[i] == h;
                    if i < d.len() {
                        assert(d[i] == h);
                    }
                }
                if d.contains(h) {
                    let m = choose|m: int| 0 <= m < d.len() && d[m] == h;
                    assert(e[m] == h);
                }
                if s.last() == h {
                    assert(e[d.len() as int] == h);
                }
            }
        }
    }
}

proof fn lemma_leftovers_hash(olds: Seq<Entry>, used: Seq<bool>, h: Seq<char>, k: int)
    requires
        0 <= k <= olds.len(),
        used.len() == olds.len(),
    ensures
        (exists|i: int| 0 <= i < leftovers(olds.take(k), used).len() && #[trigger] leftovers(olds.take(k), used)[i].1
            == h) <==> marked_count(olds, used, h, k, false) > 0,
    decreases k,
{
    let l = leftovers(olds.take(k), used);
    if k > 0 {
        lemma_leftovers_hash(olds, used, h, k - 1);
        let p = leftovers(olds.take(k - 1), used);
        assert(olds.take(k).drop_last() =~= olds.take(k - 1));
        assert(olds.take(k).last() == olds[k - 1]);
        if marked_count(olds, used, h, k, false) > 0 {
            if !used[k - 1] && olds[k - 1].0 == h {
                assert(l[p.len() as int].1 == h);
            } else {
                let i = choose|i: int| 0 <= i < p.len() && #[trigger] p[i].1 == h;
                assert(l[i] == p[i]);
            }
        }
        if exists|i: int| 0 <= i < l.len() && #[trigger] l[i].1 == h {
            let i = choose|i: int| 0 <= i < l.len() && #[trigger] l[i].1 == h;
            if i < p.len() {
                assert(l[i] == p[i]);
            }
        }
    } else {
        assert(l.len() == 0);
    }
}

/// `removed` names exactly the old hashes that have more copies before than after: each new
/// copy of a hash takes one old copy, and a hash is removed when an old copy is left over.
pub proof fn law_removed_are_the_outnumbered_hashes(olds: Seq<Entry>, news: Seq<Entry>, sorted: Seq<(u32, Seq<char>)>)
    requires
        sorted.to_multiset() == leftovers(olds, diff_fold(olds, news).used).to_multiset(),
    ensures
        forall|h: Seq<char>| #[trigger] removed_from(sorted).contains(h) <==> hash_count(olds, h) > hash_count(news, h),
{
    let used = diff_fold(olds, news).used;
    let l = leftovers(olds, used);
    let hs = sorted.map_values(|p: (u32, Seq<char>)| p.1);
    assert(olds.take(olds.len() as int) =~= olds);
    assert forall|h: Seq<char>| #[trigger] removed_from(sorted).contains(h) <==> hash_count(olds, h) > hash_count(news, h) by {
        lemma_fold_counts(olds, news, h);
        lemma_marked_split(olds, used, h, olds.len() as int);
        lemma_leftovers_hash(olds, used, h, olds.len() as int);
        lemma_dedup_adjacent_contains(hs, h);
        if hs.contains(h) {
            let i = choose|i: int| 0 <= i < hs.len() && hs[i] == h;
            assert(sorted.contains(sorted[i]));
            sorted.to_multiset_ensures();
            l.to_multiset_ensures();
            assert(sorted.to_multiset().count(sorted[i]) > 0);
            assert(l.contains(sorted[i]));
            let m = choose|m: int| 0 <= m < l.len() && l[m] == sorted[i];
            assert(l[m].1 == h);
        }
        if exists|i: int| 0 <= i < l.len() && #[trigger] l[i].1 == h {
            let i = choose|i: int| 0 <= i < l.len() && #[trigger] l[i].1 == h;
            assert(l.contains(l[i]));
            sorted.to_multiset_ensures();
            l.to_multiset_ensures();
            assert(l.to_multiset().count(l[i]) > 0);
            assert(sorted.contains(l[i]));
            let m = choose|m: int| 0 <= m < sorted.len() && sorted[m] == l[i];
            assert(hs[m] == h);
        }
    }
}

} // verus!
