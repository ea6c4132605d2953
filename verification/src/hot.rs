//! Documents the user touched recently. The summarizer serves their sections first.
//!
//! Times are milliseconds on a monotonic clock that the caller reads.

use vstd::prelude::*;
use crate::text::{lemma_text_lt_order, same_text, text_less, text_lt, texts};

verus! {

/// An entry is live at `now` while less than `ttl` has passed since it was touched (a touch
/// in the future counts as no time passed).
pub open spec fn is_live(at: u64, now: u64, ttl: u64) -> bool {
    (if now >= at { now - at } else { 0 }) < ttl
}

/// `a` is listed before `b`: touched more recently, or at the same time and its path sorts
/// first.
pub open spec fn hot_before(a: (Seq<char>, u64), b: (Seq<char>, u64)) -> bool {
    a.1 > b.1 || (a.1 == b.1 && text_lt(a.0, b.0))
}

/// Recently changed documents, by relative path, with a time-to-live.
#[derive(Debug)]
pub struct HotSet {
    ttl: u64,
    touched: Vec<(String, u64)>,
}

/// No path occurs twice.
pub open spec fn distinct_paths(s: Seq<(String, u64)>) -> bool {
    forall|i: int, j: int| 0 <= i < s.len() && 0 <= j < s.len() && i != j ==> (#[trigger] s[i]).0@ != (#[trigger] s[j]).0@
}

/// The map from path to last touch that a list of distinct entries holds.
pub open spec fn entries_map(s: Seq<(String, u64)>) -> Map<Seq<char>, u64> {
    Map::new(
        |p: Seq<char>| exists|i: int| 0 <= i < s.len() && (#[trigger] s[i]).0@ == p,
        |p: Seq<char>| s[choose|i: int| 0 <= i < s.len() && (#[trigger] s[i]).0@ == p].1,
    )
}

proof fn lemma_entries_map_at(s: Seq<(String, u64)>, i: int)
    requires
        distinct_paths(s),
        0 <= i < s.len(),
    ensures
        entries_map(s).contains_key(s[i].0@),
        entries_map(s)[s[i].0@] == s[i].1,
{
    let p = s[i].0@;
    assert(exists|k: int| 0 <= k < s.len() && (#[trigger] s[k]).0@ == p);
    let k = choose|k: int| 0 <= k < s.len() && (#[trigger] s[k]).0@ == p;
    assert(k == i);
}

/// An entry as a path and a time.
pub open spec fn entry_view(e: (String, u64)) -> (Seq<char>, u64) {
    (e.0@, e.1)
}

/// `v` is ordered by [`hot_before`].
pub open spec fn recency_sorted(v: Seq<(String, u64)>) -> bool {
    forall|i: int, j: int| 0 <= i < j < v.len() ==> hot_before(entry_view(#[trigger] v[i]), entry_view(#[trigger] v[j]))
}

proof fn lemma_hot_before(a: (Seq<char>, u64), b: (Seq<char>, u64), c: (Seq<char>, u64))
    ensures
        a.0 != b.0 ==> hot_before(a, b) || hot_before(b, a),
        hot_before(a, b) && hot_before(b, c) ==> hot_before(a, c),
{
    lemma_text_lt_order(a.0, b.0, c.0);
}

fn before(a: &(String, u64), b: &(String, u64)) -> (r: bool)
    ensures
        r == hot_before(entry_view(*a), entry_view(*b)),
{
    a.1 > b.1 || (a.1 == b.1 && text_less(a.0.as_str(), b.0.as_str()))
}

proof fn lemma_insert_sorted(o: Seq<(String, u64)>, e: (String, u64), pos: int)
    requires
        recency_sorted(o),
        0 <= pos <= o.len(),
        forall|b: int| 0 <= b < pos ==> !hot_before(entry_view(e), entry_view(#[trigger] o[b])),
        pos < o.len() ==> hot_before(entry_view(e), entry_view(o[pos])),
        forall|b: int| 0 <= b < o.len() ==> (#[trigger] o[b]).0@ != e.0@,
    ensures
        recency_sorted(o.insert(pos, e)),
{
    let out = o.insert(pos, e);
    assert forall|x: int, y: int| 0 <= x < y < out.len() implies hot_before(entry_view(#[trigger] out[x]), entry_view(#[trigger] out[y])) by {
        if y < pos {
            assert(out[x] == o[x] && out[y] == o[y]);
        } else if y == pos {
            assert(out[x] == o[x]);
            lemma_hot_before(entry_view(e), entry_view(o[x]), entry_view(e));
        } else if x == pos {
            assert(out[y] == o[y - 1]);
            if y - 1 > pos {
                lemma_hot_before(entry_view(e), entry_view(o[pos]), entry_view(o[y - 1]));
            }
        } else if x < pos {
            assert(out[x] == o[x] && out[y] == o[y - 1]);
        } else {
            assert(out[x] == o[x - 1] && out[y] == o[y - 1]);
        }
    }
}

proof fn lemma_insert_contains<A>(o: Seq<A>, e: A, pos: int, x: A)
    requires
        0 <= pos <= o.len(),
    ensures
        o.insert(pos, e).contains(x) <==> (o.contains(x) || x == e),
{
    let out = o.insert(pos, e);
    if o.contains(x) {
        let a = choose|a: int| 0 <= a < o.len() && o[a] == x;
        if a < pos {
            assert(out[a] == x);
        } else {
            assert(out[a + 1] == x);
        }
    }
    if x == e {
        assert(out[pos] == x);
    }
    if out.contains(x) {
        let a = choose|a: int| 0 <= a < out.len() && out[a] == x;
        if a < pos {
            assert(o[a] == x);
        } else if a > pos {
            assert(o[a - 1] == x);
        }
    }
}

/// The entries of `v` ordered by [`hot_before`].
fn sorted_by_recency(v: &Vec<(String, u64)>) -> (out: Vec<(String, u64)>)
    requires
        distinct_paths(v@),
    ensures
        recency_sorted(out@),
        forall|x: (String, u64)| out@.contains(x) <==> v@.contains(x),
{
    let mut out: Vec<(String, u64)> = Vec::new();
    let mut i: usize = 0;
    while i < v.len()
        invariant
            0 <= i <= v.len(),
            distinct_paths(v@),
            recency_sorted(out@),
            forall|x: (String, u64)| out@.contains(x) <==> v@.take(i as int).contains(x),
        decreases v.len() - i,
    {
        let e = (v[i].0.clone(), v[i].1);
        assert(e == v@[i as int]);
        let mut pos: usize = 0;
        while pos < out.len() && !before(&e, &out[pos])
            invariant
                0 <= pos <= out.len(),
                forall|b: int| 0 <= b < pos ==> !hot_before(entry_view(e), entry_view(#[trigger] out@[b])),
            decreases out.len() - pos,
        {
            pos = pos + 1;
        }
        let ghost o0 = out@;
        proof {
            assert forall|b: int| 0 <= b < o0.len() implies (#[trigger] o0[b]).0@ != e.0@ by {
                assert(o0.contains(o0[b]));
                let k = choose|k: int| 0 <= k < i && v@.take(i as int)[k] == o0[b];
                assert(v@[k] == o0[b]);
            }
            lemma_insert_sorted(o0, e, pos as int);
        }
        out.insert(pos, e);
        proof {
            assert forall|x: (String, u64)| out@.contains(x) <==> v@.take(i + 1).contains(x) by {
                lemma_insert_contains(o0, e, pos as int, x);
                assert(v@.take(i + 1) =~= v@.take(i as int).push(e));
                lemma_insert_contains(v@.take(i as int), e, i as int, x);
                assert(v@.take(i as int).insert(i as int, e) =~= v@.take(i as int).push(e));
            }
        }
        i = i + 1;
    }
    assert(v@.take(v.len() as int) =~= v@);
    out
}

/// The live entries of `s`, in order.
fn live_entries(s: &Vec<(String, u64)>, now: u64, ttl: u64) -> (kept: Vec<(String, u64)>)
    requires
        distinct_paths(s@),
    ensures
        distinct_paths(kept@),
        forall|x: (String, u64)| kept@.contains(x) <==> (s@.contains(x) && is_live(x.1, now, ttl)),
{
    let mut kept: Vec<(String, u64)> = Vec::new();
    let mut i: usize = 0;
    while i < s.len()
        invariant
            0 <= i <= s.len(),
            distinct_paths(s@),
            distinct_paths(kept@),
            forall|x: (String, u64)| kept@.contains(x) <==> (s@.take(i as int).contains(x) && is_live(x.1, now, ttl)),
        decreases s.len() - i,
    {
        let at = s[i].1;
        let age = if now >= at { now - at } else { 0 };
        let ghost k0 = kept@;
        if age < ttl {
            let e = (s[i].0.clone(), at);
            assert(e == s@[i as int]);
            proof {
                assert forall|b: int| 0 <= b < k0.len() implies (#[trigger] k0[b]).0@ != e.0@ by {
                    assert(k0.contains(k0[b]));
                    let k = choose|k: int| 0 <= k < i && s@.take(i as int)[k] == k0[b];
                    assert(s@[k] == k0[b]);
                }
            }
            kept.push(e);
            proof {
                assert forall|a: int, b: int| 0 <= a < kept.len() && 0 <= b < kept.len() && a != b implies (#[trigger] kept@[a]).0@ != (#[trigger] kept@[b]).0@ by {
                    if a < k0.len() && b < k0.len() {
                        assert(kept@[a] == k0[a] && kept@[b] == k0[b]);
                    } else if a < k0.len() {
                        assert(kept@[a] == k0[a]);
                    } else {
                        assert(kept@[b] == k0[b]);
                    }
                }
                assert forall|x: (String, u64)| kept@.contains(x) <==> (s@.take(i + 1).contains(x) && is_live(x.1, now, ttl)) by {
                    assert(s@.take(i + 1) =~= s@.take(i as int).push(e));
                    assert(kept@ =~= k0.push(e));
                    lemma_insert_contains(k0, e, k0.len() as int, x);
                    assert(k0.insert(k0.len() as int, e) =~= k0.push(e));
                    lemma_insert_contains(s@.take(i as int), e, i as int, x);
                    assert(s@.take(i as int).insert(i as int, e) =~= s@.take(i as int).push(e));
                }
            }
        } else {
            proof {
                assert forall|x: (String, u64)| kept@.contains(x) <==> (s@.take(i + 1).contains(x) && is_live(x.1, now, ttl)) by {
                    assert(s@.take(i + 1) =~= s@.take(i as int).push(s@[i as int]));
                    lemma_insert_contains(s@.take(i as int), s@[i as int], i as int, x);
                    assert(s@.take(i as int).insert(i as int, s@[i as int]) =~= s@.take(i as int).push(s@[i as int]));
                }
            }
        }
        i = i + 1;
    }
    assert(s@.take(s.len() as int) =~= s@);
    kept
}

proof fn lemma_entries_map_restrict(s: Seq<(String, u64)>, kept: Seq<(String, u64)>, now: u64, ttl: u64)
    requires
        distinct_paths(s),
        distinct_paths(kept),
        forall|x: (String, u64)| kept.contains(x) <==> (s.contains(x) && is_live(x.1, now, ttl)),
    ensures
        entries_map(kept) == entries_map(s).restrict(Set::new(|p: Seq<char>| is_live(entries_map(s)[p], now, ttl))),
{
    let m = entries_map(s).restrict(Set::new(|p: Seq<char>| is_live(entries_map(s)[p], now, ttl)));
    assert forall|p: Seq<char>| #[trigger] entries_map(kept).contains_key(p) == m.contains_key(p) by {
        if entries_map(kept).contains_key(p) {
            let j = choose|j: int| 0 <= j < kept.len() && (#[trigger] kept[j]).0@ == p;
            assert(kept.contains(kept[j]));
            let k = choose|k: int| 0 <= k < s.len() && s[k] == kept[j];
            lemma_entries_map_at(s, k);
        }
        if m.contains_key(p) {
            let k = choose|k: int| 0 <= k < s.len() && (#[trigger] s[k]).0@ == p;
            lemma_entries_map_at(s, k);
            assert(s.contains(s[k]));
            let j = choose|j: int| 0 <= j < kept.len() && kept[j] == s[k];
            assert(kept[j].0@ == p);
        }
    }
    assert forall|p: Seq<char>| #[trigger] entries_map(kept).contains_key(p) implies entries_map(kept)[p] == m[p] by {
        let j = choose|j: int| 0 <= j < kept.len() && (#[trigger] kept[j]).0@ == p;
        assert(kept.contains(kept[j]));
        let k = choose|k: int| 0 <= k < s.len() && s[k] == kept[j];
        lemma_entries_map_at(s, k);
        lemma_entries_map_at(kept, j);
    }
    assert(entries_map(kept) =~= m);
}

fn paths_of(out: &Vec<(String, u64)>) -> (r: Vec<String>)
    ensures
        r.len() == out.len(),
        forall|a: int| 0 <= a < r.len() ==> (#[trigger] r@[a])@ == out@[a].0@,
{
    let mut r: Vec<String> = Vec::new();
    let mut j: usize = 0;
    while j < out.len()
        invariant
            0 <= j <= out.len(),
            r.len() == j,
            forall|a: int| 0 <= a < j ==> (#[trigger] r@[a])@ == out@[a].0@,
        decreases out.len() - j,
    {
        r.push(out[j].0.clone());
        j = j + 1;
    }
    r
}

impl HotSet {
    /// The map from each held path to its last touch. The other half of the abstract state,
    /// the time-to-live, is [`HotSet::ttl`]: set by `new` and kept by every method.
    pub closed spec fn view(&self) -> Map<Seq<char>, u64> {
        entries_map(self.touched@)
    }

    /// The time-to-live, in milliseconds.
    pub closed spec fn ttl(&self) -> u64 {
        self.ttl
    }

    /// Internal consistency: no path is held twice.
    pub closed spec fn wf(&self) -> bool {
        distinct_paths(self.touched@)
    }

    /// A set whose entries expire `ttl` milliseconds after their last touch.
    pub fn new(ttl: u64) -> (h: Self)
        ensures
            h.wf(),
            h.view() == Map::<Seq<char>, u64>::empty(),
            h.ttl() == ttl,
    {
        let h = HotSet { ttl, touched: Vec::new() };
        assert(h.view() =~= Map::<Seq<char>, u64>::empty());
        h
    }

    /// Mark a document as just changed.
    pub fn touch(&mut self, rel_path: &str, at: u64)
        requires
            old(self).wf(),
        ensures
            final(self).wf(),
            final(self).view() == old(self).view().insert(rel_path@, at),
            final(self).ttl() == old(self).ttl(),
    {
        let ghost s0 = self.touched@;
        let mut i: usize = 0;
        while i < self.touched.len()
            invariant
                0 <= i <= self.touched.len(),
                self.touched@ == s0,
                s0 == old(self).touched@,
                self.ttl == old(self).ttl,
                distinct_paths(s0),
                forall|j: int| 0 <= j < i ==> (#[trigger] s0[j]).0@ != rel_path@,
            decreases self.touched.len() - i,
        {
            if same_text(self.touched[i].0.as_str(), rel_path) {
                assert(s0[i as int].0@ == rel_path@);
                let entry = (self.touched[i].0.clone(), at);
                self.touched.set(i, entry);
                proof {
                    let s1 = self.touched@;
                    assert forall|j: int| 0 <= j < s1.len() implies (#[trigger] s1[j]).0@ == s0[j].0@ by {}
                    assert(distinct_paths(s1));
                    assert forall|p: Seq<char>| #![auto] entries_map(s1).contains_key(p) == entries_map(s0).insert(rel_path@, at).contains_key(p) by {
                        if exists|k: int| 0 <= k < s0.len() && (#[trigger] s0[k]).0@ == p {
                            let k = choose|k: int| 0 <= k < s0.len() && (#[trigger] s0[k]).0@ == p;
                            assert(s1[k].0@ == p);
                        }
                        if exists|k: int| 0 <= k < s1.len() && (#[trigger] s1[k]).0@ == p {
                            let k = choose|k: int| 0 <= k < s1.len() && (#[trigger] s1[k]).0@ == p;
                            assert(s0[k].0@ == p);
                        }
                    }
                    assert forall|p: Seq<char>| #[trigger] entries_map(s1).contains_key(p) implies entries_map(s1)[p] == entries_map(s0).insert(rel_path@, at)[p] by {
                        let k = choose|k: int| 0 <= k < s1.len() && (#[trigger] s1[k]).0@ == p;
                        lemma_entries_map_at(s1, k);
                        if k != i {
                            lemma_entries_map_at(s0, k);
                        }
                    }
                    assert(entries_map(s1) =~= entries_map(s0).insert(rel_path@, at));
                }
                return;
            }
            i = i + 1;
        }
        self.touched.push((rel_path.to_owned(), at));
        proof {
            let s1 = self.touched@;
            assert forall|j: int| 0 <= j < s0.len() implies (#[trigger] s1[j]).0@ == s0[j].0@ by {}
            assert(s1[s0.len() as int].0@ == rel_path@);
            assert(distinct_paths(s1));
            assert forall|p: Seq<char>| #![auto] entries_map(s1).contains_key(p) == entries_map(s0).insert(rel_path@, at).contains_key(p) by {
                if exists|k: int| 0 <= k < s0.len() && (#[trigger] s0[k]).0@ == p {
                    let k = choose|k: int| 0 <= k < s0.len() && (#[trigger] s0[k]).0@ == p;
                    assert(s1[k].0@ == p);
                }
                if p == rel_path@ {
                    assert(s1[s0.len() as int].0@ == p);
                }
                if exists|k: int| 0 <= k < s1.len() && (#[trigger] s1[k]).0@ == p {
                    let k = choose|k: int| 0 <= k < s1.len() && (#[trigger] s1[k]).0@ == p;
                    if k < s0.len() {
                        assert(s0[k].0@ == p);
                    }
                }
            }
            assert forall|p: Seq<char>| #[trigger] entries_map(s1).contains_key(p) implies entries_map(s1)[p] == entries_map(s0).insert(rel_path@, at)[p] by {
                let k = choose|k: int| 0 <= k < s1.len() && (#[trigger] s1[k]).0@ == p;
                lemma_entries_map_at(s1, k);
                if k < s0.len() {
                    lemma_entries_map_at(s0, k);
                }
            }
            assert(entries_map(s1) =~= entries_map(s0).insert(rel_path@, at));
        }
    }

    /// Live paths at `now`, most recently touched first (ties by path). Expired entries are
    /// dropped on the way.
    pub fn snapshot(&mut self, now: u64) -> (r: Vec<String>)
        requires
            old(self).wf(),
        ensures
            final(self).wf(),
            final(self).ttl() == old(self).ttl(),
            final(self).view() == old(self).view().restrict(
                Set::new(|p: Seq<char>| is_live(old(self).view()[p], now, old(self).ttl())),
            ),
            forall|p: Seq<char>| final(self).view().contains_key(p) <==> texts(r@).contains(p),
            forall|i: int, j: int|
                0 <= i < j < r.len() ==> hot_before(
                    (r@[i]@, final(self).view()[r@[i]@]),
                    (r@[j]@, final(self).view()[r@[j]@]),
                ),
    {
        let kept = live_entries(&self.touched, now, self.ttl);
        proof {
            lemma_entries_map_restrict(self.touched@, kept@, now, self.ttl);
        }
        let out = sorted_by_recency(&kept);
        let r = paths_of(&out);
        proof {
            assert forall|a: int| 0 <= a < out.len() implies #[trigger] kept@.contains(out@[a]) by {
                assert(out@.contains(out@[a]));
            }
            assert forall|a: int| 0 <= a < r.len() implies entries_map(kept@)[#[trigger] r@[a]@] == out@[a].1 by {
                assert(kept@.contains(out@[a]));
                let k = choose|k: int| 0 <= k < kept.len() && kept@[k] == out@[a];
                lemma_entries_map_at(kept@, k);
            }
            assert forall|p: Seq<char>| entries_map(kept@).contains_key(p) <==> texts(r@).contains(p) by {
                if entries_map(kept@).contains_key(p) {
                    let k = choose|k: int| 0 <= k < kept.len() && (#[trigger] kept@[k]).0@ == p;
                    assert(kept@.contains(kept@[k]));
                    let a = choose|a: int| 0 <= a < out.len() && out@[a] == kept@[k];
                    assert(texts(r@)[a] == p);
                }
                if texts(r@).contains(p) {
                    let a = choose|a: int| 0 <= a < r.len() && texts(r@)[a] == p;
                    assert(kept@.contains(out@[a]));
                    let k = choose|k: int| 0 <= k < kept.len() && kept@[k] == out@[a];
                    assert(kept@[k].0@ == p);
                }
            }
        }
        self.touched = kept;
        r
    }

    /// Number of live entries (without expiring).
    pub fn len(&self) -> (n: usize)
        requires
            self.wf(),
        ensures
            n == self.view().len(),
    {
        proof {
            self.lemma_len();
        }
        self.touched.len()
    }

    /// `true` when nothing is hot.
    pub fn is_empty(&self) -> (b: bool)
        requires
            self.wf(),
        ensures
            b == (self.view().len() == 0),
    {
        proof {
            self.lemma_len();
        }
        self.touched.len() == 0
    }

    proof fn lemma_len(&self)
        requires
            self.wf(),
        ensures
            self.view().len() == self.touched.len(),
            self.view().dom().finite(),
    {
        let s = self.touched@;
        let f = |i: int| s[i].0@;
        let idx = Set::new(|i: int| 0 <= i < s.len());
        assert(idx =~= vstd::set_lib::set_int_range(0, s.len() as int));
        vstd::set_lib::lemma_int_range(0, s.len() as int);
        assert forall|p: Seq<char>| #[trigger] self.view().dom().contains(p) == idx.map(f).contains(p) by {
            if self.view().dom().contains(p) {
                let k = choose|k: int| 0 <= k < s.len() && (#[trigger] s[k]).0@ == p;
                assert(idx.contains(k) && f(k) == p);
            }
            if idx.map(f).contains(p) {
                let k = choose|k: int| idx.contains(k) && f(k) == p;
                assert(s[k].0@ == p);
            }
        }
        assert(self.view().dom() =~= idx.map(f));
        assert forall|a: int, b: int| idx.contains(a) && idx.contains(b) && #[trigger] f(a) == #[trigger] f(b) implies a == b by {}
        assert(vstd::relations::injective_on(f, idx));
        vstd::set_lib::lemma_map_size(idx, idx.map(f), f);
    }
}

} // verus!
