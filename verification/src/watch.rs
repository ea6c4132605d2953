//! The debouncer between filesystem hints and the intake: it holds hinted paths until a
//! path has been quiet for a while and its size has stopped changing, so a file that an
//! editor writes in several steps is parsed once, complete.
//!
//! Times are milliseconds on a monotonic clock that the caller reads; sizes are what the
//! caller finds on disk.

use vstd::prelude::*;
use crate::paths::{component_texts, file_name, part_texts, path_file_name_of, path_parts_of, path_strip_prefix_of, strip_root};
use crate::text::{lemma_text_lt_order, same_text, text_less, text_lt, texts};

verus! {

/// "Something happened at this path."
#[derive(Debug, Clone, PartialEq, Eq)]
pub struct Hint {
    /// The path the OS reported, absolute.
    pub path: String,
    /// When the hint arrived.
    pub at: u64,
    /// The OS lost events and the whole tree should be rescanned.
    pub rescan: bool,
}

/// What a hinted path is to the intake.
#[derive(Debug, Clone, Copy, PartialEq, Eq, Structural)]
pub enum HintKind {
    /// A markdown file (present or not): index or tombstone it.
    Markdown,
    /// Something that changes what the walker would find (a directory, an ignore file, a
    /// lost-events signal): rescan the root.
    Rescan,
    /// Nothing the index cares about.
    Ignore,
}

/// Paths released by [`Debouncer::due_with`].
#[derive(Debug, Default, Clone, PartialEq, Eq)]
pub struct Batch {
    /// Markdown paths that went quiet, in the order they were first hinted.
    pub paths: Vec<String>,
    /// A structural hint went quiet: the whole root should be reconciled.
    pub rescan: bool,
}

impl Batch {
    /// `true` when there is nothing to do.
    pub fn is_empty(&self) -> (b: bool)
        ensures
            b == (self.paths.len() == 0 && !self.rescan),
    {
        self.paths.len() == 0 && !self.rescan
    }
}

/// A held path: the path, its first and last hint, and its size at the last look.
pub type Held = (Seq<char>, u64, u64, Option<u64>);

/// `a + b`, saturating at `u64::MAX`.
pub open spec fn sat_add(a: u64, b: u64) -> u64 {
    if a + b > u64::MAX { u64::MAX } else { (a + b) as u64 }
}

/// At least `quiet` has passed from `t` to `now` (no time passes backwards).
pub open spec fn quiet_since(t: u64, now: u64, quiet: u64) -> bool {
    (if now >= t { now - t } else { 0 }) >= quiet
}

/// The earliest `last + quiet` over the held entries.
pub open spec fn earliest_due(es: Seq<Held>, quiet: u64) -> Option<u64>
    decreases es.len(),
{
    if es.len() == 0 {
        None
    } else {
        let d = sat_add(es.last().2, quiet);
        match earliest_due(es.drop_last(), quiet) {
            Some(m) => Some(if d < m { d } else { m }),
            None => Some(d),
        }
    }
}

/// Released entries are ordered by first hint, then by path.
pub open spec fn release_before(a: (u64, Seq<char>), b: (u64, Seq<char>)) -> bool {
    a.0 < b.0 || (a.0 == b.0 && text_lt(a.1, b.1))
}

#[derive(Debug)]
struct Entry {
    path: String,
    first: u64,
    last: u64,
    size: Option<u64>,
}

/// Holds hinted paths until they have been quiet for `quiet` and their size stopped moving.
#[derive(Debug)]
pub struct Debouncer {
    quiet: u64,
    entries: Vec<Entry>,
    rescan_at: Option<u64>,
}

/// The view of a held entry.
spec fn held_view(e: Entry) -> Held {
    (e.path@, e.first, e.last, e.size)
}

impl Debouncer {
    /// The held entries, in the order their paths were first hinted since last released.
    pub closed spec fn entries(&self) -> Seq<Held> {
        self.entries@.map_values(|e: Entry| held_view(e))
    }

    /// The pending structural hint, if any.
    pub closed spec fn rescan_at(&self) -> Option<u64> {
        self.rescan_at
    }

    /// The quiet period.
    pub closed spec fn quiet(&self) -> u64 {
        self.quiet
    }

    /// No path is held twice.
    pub open spec fn wf(&self) -> bool {
        forall|i: int, j: int| 0 <= i < j < self.entries().len() ==> (#[trigger] self.entries()[i]).0 != (#[trigger] self.entries()[j]).0
    }

    /// A debouncer with the given quiet period, holding nothing.
    pub fn new(quiet: u64) -> (d: Self)
        ensures
            d.wf(),
            d.entries().len() == 0,
            d.rescan_at() is None,
            d.quiet() == quiet,
    {
        let d = Debouncer { quiet, entries: Vec::new(), rescan_at: None };
        assert(d.entries() =~= Seq::<Held>::empty());
        d
    }

    /// Record a hint for a markdown path, with the size the caller found on disk: a new
    /// path is held from `at`; a held one keeps its first hint and takes `at` and `size`.
    pub fn push(&mut self, path: String, at: u64, size: Option<u64>)
        requires
            old(self).wf(),
        ensures
            final(self).wf(),
            final(self).quiet() == old(self).quiet(),
            final(self).rescan_at() == old(self).rescan_at(),
            (exists|i: int| 0 <= i < old(self).entries().len() && #[trigger] old(self).entries()[i].0 == path@)
                ==> (exists|i: int| 0 <= i < old(self).entries().len() && #[trigger] old(self).entries()[i].0 == path@
                    && final(self).entries() == old(self).entries().update(i, (path@, old(self).entries()[i].1, at, size))),
            !(exists|i: int| 0 <= i < old(self).entries().len() && #[trigger] old(self).entries()[i].0 == path@)
                ==> final(self).entries() == old(self).entries().push((path@, at, at, size)),
    {
        let ghost e0 = self.entries();
        let mut i: usize = 0;
        while i < self.entries.len()
            invariant
                0 <= i <= self.entries.len(),
                self.entries() == e0,
                e0 == old(self).entries(),
                forall|a: int, b: int| 0 <= a < b < e0.len() ==> (#[trigger] e0[a]).0 != (#[trigger] e0[b]).0,
                self.quiet == old(self).quiet,
                self.rescan_at == old(self).rescan_at,
                forall|j: int| 0 <= j < i ==> (#[trigger] e0[j]).0 != path@,
            decreases self.entries.len() - i,
        {
            if same_text(self.entries[i].path.as_str(), path.as_str()) {
                let first = self.entries[i].first;
                let old_path = self.entries[i].path.clone();
                self.entries.set(i, Entry { path: old_path, first, last: at, size });
                proof {
                    assert(e0[i as int].0 == path@);
                    assert(self.entries() =~= e0.update(i as int, (path@, e0[i as int].1, at, size)));
                    assert forall|a: int, b: int| 0 <= a < b < self.entries().len() implies (#[trigger] self.entries()[a]).0 != (#[trigger] self.entries()[b]).0 by {
                        assert(self.entries()[a].0 == e0[a].0 && self.entries()[b].0 == e0[b].0);
                    }
                }
                return;
            }
            i = i + 1;
        }
        let p = path;
        self.entries.push(Entry { path: p, first: at, last: at, size });
        proof {
            assert(self.entries() =~= e0.push((path@, at, at, size)));
        }
    }

    /// Record a structural hint.
    pub fn push_rescan(&mut self, at: u64)
        ensures
            final(self).rescan_at() == Some(at),
            final(self).entries() == old(self).entries(),
            final(self).quiet() == old(self).quiet(),
    {
        self.rescan_at = Some(at);
    }

    /// When the earliest held hint becomes due, if anything is held (times saturate at
    /// `u64::MAX`).
    pub fn next_deadline(&self) -> (r: Option<u64>)
        ensures
            r == match (earliest_due(self.entries(), self.quiet()), self.rescan_at()) {
                (Some(a), Some(b)) => Some(if a < sat_add(b, self.quiet()) { a } else { sat_add(b, self.quiet()) }),
                (Some(a), None) => Some(a),
                (None, Some(b)) => Some(sat_add(b, self.quiet())),
                (None, None) => None,
            },
    {
        let ghost es = self.entries();
        let mut best: Option<u64> = None;
        let mut i: usize = 0;
        while i < self.entries.len()
            invariant
                0 <= i <= self.entries.len(),
                es == self.entries(),
                best == earliest_due(es.take(i as int), self.quiet),
            decreases self.entries.len() - i,
        {
            proof {
                assert(es.take(i + 1).drop_last() =~= es.take(i as int));
                assert(es.take(i + 1).last() == es[i as int]);
            }
            let last = self.entries[i].last;
            let d = if last > u64::MAX - self.quiet { u64::MAX } else { last + self.quiet };
            best = match best {
                Some(m) => Some(if d < m { d } else { m }),
                None => Some(d),
            };
            i = i + 1;
        }
        assert(es.take(self.entries.len() as int) =~= es);
        let rescan = match self.rescan_at {
            Some(t) => Some(if t > u64::MAX - self.quiet { u64::MAX } else { t + self.quiet }),
            None => None,
        };
        match (best, rescan) {
            (Some(a), Some(b)) => Some(if a < b { a } else { b }),
            (Some(a), None) => Some(a),
            (None, b) => b,
        }
    }

    /// Number of paths currently held.
    pub fn held(&self) -> (n: usize)
        ensures
            n == self.entries().len(),
    {
        self.entries.len()
    }
}


/// What a look at the held entries does, entry by entry, given the size observed for each
/// entry that has been quiet: an entry not yet quiet stays; a quiet one whose size moved
/// stays with the new size and `now` as its last hint; a quiet one whose size held is
/// released. The kept entries (in order) and the released ones as `(first, path)`.
pub open spec fn due_outcome(es: Seq<Held>, obs: Seq<Option<u64>>, now: u64, quiet: u64) -> (Seq<Held>, Seq<(u64, Seq<char>)>)
    decreases es.len(),
{
    if es.len() == 0 {
        (Seq::empty(), Seq::empty())
    } else {
        let (kept, released) = due_outcome(es.drop_last(), obs, now, quiet);
        let e = es.last();
        let v = obs[es.len() - 1];
        if !quiet_since(e.2, now, quiet) {
            (kept.push(e), released)
        } else if v != e.3 {
            (kept.push((e.0, e.1, now, v)), released)
        } else {
            (kept, released.push((e.1, e.0)))
        }
    }
}

/// `s` is ordered by [`release_before`].
pub open spec fn release_sorted(s: Seq<(u64, Seq<char>)>) -> bool {
    forall|i: int, j: int| 0 <= i < j < s.len() ==> release_before(#[trigger] s[i], #[trigger] s[j])
}

proof fn lemma_release_before(a: (u64, Seq<char>), b: (u64, Seq<char>), c: (u64, Seq<char>))
    ensures
        a.1 != b.1 ==> release_before(a, b) || release_before(b, a),
        release_before(a, b) && release_before(b, c) ==> release_before(a, c),
        release_before(a, b) ==> !release_before(b, a),
{
    lemma_text_lt_order(a.1, b.1, c.1);
}

fn release_less(a: &(u64, String), b: &(u64, String)) -> (r: bool)
    ensures
        r == release_before((a.0, a.1@), (b.0, b.1@)),
{
    a.0 < b.0 || (a.0 == b.0 && text_less(a.1.as_str(), b.1.as_str()))
}

/// The view of released pairs.
pub open spec fn release_views(s: Seq<(u64, String)>) -> Seq<(u64, Seq<char>)> {
    s.map_values(|p: (u64, String)| (p.0, p.1@))
}

proof fn lemma_insert_contains<A>(o: Seq<A>, e: A, pos: int, x: A)
    requires
        0 <= pos <= o.len(),
    ensures
        o.insert(pos, e).contains(x) <==> (o.contains(x) || x == e),
{
    let out = o.insert(pos, e);
    if o.contains(x) {
        let a = choose|a: int| 0 <= a < o.len() && o[a] == x;
        if a < pos {
            assert(out[a] == x);
        } else {
            assert(out[a + 1] == x);
        }
    }
    if x == e {
        assert(out[pos] == x);
    }
    if out.contains(x) {
        let a = choose|a: int| 0 <= a < out.len() && out[a] == x;
        if a < pos {
            assert(o[a] == x);
        } else if a > pos {
            assert(o[a - 1] == x);
        }
    }
}

/// Insert `x` into the sorted `out`, after every entry that is not after it.
fn insert_sorted(out: &mut Vec<(u64, String)>, x: (u64, String))
    requires
        release_sorted(release_views(old(out)@)),
        forall|b: int| 0 <= b < old(out)@.len() ==> (#[trigger] release_views(old(out)@)[b]).1 != x.1@,
    ensures
        release_sorted(release_views(final(out)@)),
        forall|y: (u64, Seq<char>)| release_views(final(out)@).contains(y) <==> (release_views(old(out)@).contains(y) || y == (x.0, x.1@)),
{
    let ghost xv = (x.0, x.1@);
    let mut p: usize = 0;
    while p < out.len() && !release_less(&x, &out[p])
        invariant
            0 <= p <= out.len(),
            out@ == old(out)@,
            xv == (x.0, x.1@),
            forall|b: int| 0 <= b < p ==> !release_before(xv, #[trigger] release_views(out@)[b]),
        decreases out.len() - p,
    {
        assert(release_views(out@)[p as int] == (out@[p as int].0, out@[p as int].1@));
        p = p + 1;
    }
    let ghost o0 = release_views(out@);
    out.insert(p, x);
    proof {
        assert(release_views(out@) =~= o0.insert(p as int, xv));
        let o1 = release_views(out@);
        assert forall|a: int, b: int| 0 <= a < b < o1.len() implies release_before(#[trigger] o1[a], #[trigger] o1[b]) by {
            if b < p {
                assert(o1[a] == o0[a] && o1[b] == o0[b]);
            } else if b == p {
                assert(o1[a] == o0[a]);
                lemma_release_before(o0[a], xv, xv);
            } else if a == p {
                assert(o1[b] == o0[b - 1]);
                if b - 1 > p {
                    lemma_release_before(xv, o0[p as int], o0[b - 1]);
                }
            } else if a < p {
                assert(o1[a] == o0[a] && o1[b] == o0[b - 1]);
            } else {
                assert(o1[a] == o0[a - 1] && o1[b] == o0[b - 1]);
            }
        }
        assert forall|y: (u64, Seq<char>)| o1.contains(y) <==> (o0.contains(y) || y == xv) by {
            lemma_insert_contains(o0, xv, p as int, y);
        }
    }
}

impl Debouncer {
    /// Release everything that has been quiet for the quiet period. A path whose size (as
    /// `size` reports it now) changed since its last hint is held for another period
    /// instead. Released paths come in the order of their first hint (ties by path).
    pub fn due_with<F: Fn(&str) -> Option<u64>>(&mut self, now: u64, size: F) -> (b: Batch)
        requires
            old(self).wf(),
            forall|p: &str| size.requires((p,)),
        ensures
            final(self).wf(),
            final(self).quiet() == old(self).quiet(),
            b.rescan == match old(self).rescan_at() {
                Some(t) => quiet_since(t, now, old(self).quiet()),
                None => false,
            },
            final(self).rescan_at() == if b.rescan { None } else { old(self).rescan_at() },
            exists|obs: Seq<Option<u64>>| #![trigger due_outcome(old(self).entries(), obs, now, old(self).quiet())] {
                let (kept, released) = due_outcome(old(self).entries(), obs, now, old(self).quiet());
                &&& obs.len() == old(self).entries().len()
                &&& forall|i: int| 0 <= i < obs.len() && quiet_since(old(self).entries()[i].2, now, old(self).quiet())
                    ==> exists|p: &str| p@ == old(self).entries()[i].0 && #[trigger] size.ensures((p,), obs[i])
                &&& final(self).entries() == kept
                &&& exists|order: Seq<(u64, Seq<char>)>| #![trigger release_sorted(order)] {
                    &&& release_sorted(order)
                    &&& (forall|y: (u64, Seq<char>)| order.contains(y) <==> released.contains(y))
                    &&& texts(b.paths@) == order.map_values(|y: (u64, Seq<char>)| y.1)
                }
            },
    {
        let rescan = match self.rescan_at {
            Some(t) => (if now >= t { now - t } else { 0 }) >= self.quiet,
            None => false,
        };
        if rescan {
            self.rescan_at = None;
        }
        let ghost es = self.entries();
        let quiet = self.quiet;
        let mut obs: Ghost<Seq<Option<u64>>> = Ghost(Seq::new(es.len(), |i: int| es[i].3));
        let mut kept: Vec<Entry> = Vec::new();
        let mut released: Vec<(u64, String)> = Vec::new();
        let mut old_entries: Vec<Entry> = Vec::new();
        std::mem::swap(&mut old_entries, &mut self.entries);
        assert(old_entries@.map_values(|e: Entry| held_view(e)) == es);
        assert(es == old(self).entries());
        assert forall|a: int, c: int| 0 <= a < c < es.len() implies (#[trigger] es[a]).0 != (#[trigger] es[c]).0 by {
            assert(old(self).entries()[a] == es[a] && old(self).entries()[c] == es[c]);
        }
        assert(es.take(0) =~= Seq::<Held>::empty());
        assert(release_views(released@) =~= Seq::<(u64, Seq<char>)>::empty());
        let mut i: usize = 0;
        while i < old_entries.len()
            invariant
                0 <= i <= old_entries.len(),
                es == old_entries@.map_values(|e: Entry| held_view(e)),
                forall|a: int, c: int| 0 <= a < c < es.len() ==> (#[trigger] es[a]).0 != (#[trigger] es[c]).0,
                forall|p: &str| size.requires((p,)),
                obs@.len() == es.len(),
                forall|j: int| 0 <= j < i && quiet_since(es[j].2, now, quiet)
                    ==> exists|p: &str| p@ == es[j].0 && #[trigger] size.ensures((p,), obs@[j]),
                kept@.map_values(|e: Entry| held_view(e)) == due_outcome(es.take(i as int), obs@, now, quiet).0,
                release_sorted(release_views(released@)),
                forall|y: (u64, Seq<char>)| release_views(released@).contains(y) <==> due_outcome(es.take(i as int), obs@, now, quiet).1.contains(y),
                forall|y: (u64, Seq<char>)| #[trigger] release_views(released@).contains(y) ==> exists|j: int| 0 <= j < i && y.1 == es[j].0,
            decreases old_entries.len() - i,
        {
            let e = &old_entries[i];
            proof {
                assert(es.take(i + 1).drop_last() =~= es.take(i as int));
                assert(es.take(i + 1).last() == es[i as int]);
            }
            let ghost k0 = kept@.map_values(|e: Entry| held_view(e));
            if !((if now >= e.last { now - e.last } else { 0 }) >= quiet) {
                kept.push(Entry { path: e.path.clone(), first: e.first, last: e.last, size: e.size });
                assert(kept@.map_values(|e: Entry| held_view(e)) =~= k0.push(es[i as int]));
            } else {
                let arg: &str = e.path.as_str();
                let current = size(arg);
                proof {
                    let o0 = obs@;
                    obs@ = obs@.update(i as int, current);
                    assert(arg@ == es[i as int].0);
                    assert forall|j: int| 0 <= j < i + 1 && quiet_since(es[j].2, now, quiet)
                        implies exists|p: &str| p@ == es[j].0 && #[trigger] size.ensures((p,), obs@[j]) by {
                        if j < i {
                            assert(obs@[j] == o0[j]);
                        } else {
                            assert(size.ensures((arg,), obs@[j]));
                        }
                    }
                    lemma_due_outcome_obs(es.take(i as int), o0, obs@, now, quiet);
                }
                if current != e.size {
                    kept.push(Entry { path: e.path.clone(), first: e.first, last: now, size: current });
                    assert(kept@.map_values(|e: Entry| held_view(e)) =~= k0.push((es[i as int].0, es[i as int].1, now, current)));
                } else {
                    proof {
                        assert forall|b: int| 0 <= b < released@.len() implies (#[trigger] release_views(released@)[b]).1 != e.path@ by {
                            let y = release_views(released@)[b];
                            assert(release_views(released@).contains(y));
                            let j = choose|j: int| 0 <= j < i && y.1 == es[j].0;
                            assert(es[j].0 != es[i as int].0);
                        }
                    }
                    let ghost r0 = release_views(released@);
                    insert_sorted(&mut released, (e.first, e.path.clone()));
                    proof {
                        let d1 = due_outcome(es.take(i as int), obs@, now, quiet).1;
                        assert(due_outcome(es.take(i + 1), obs@, now, quiet).1 == d1.push((es[i as int].1, es[i as int].0)));
                        assert forall|y: (u64, Seq<char>)| release_views(released@).contains(y) <==> d1.push((es[i as int].1, es[i as int].0)).contains(y) by {
                            lemma_insert_contains(d1, (es[i as int].1, es[i as int].0), d1.len() as int, y);
                            assert(d1.insert(d1.len() as int, (es[i as int].1, es[i as int].0)) =~= d1.push((es[i as int].1, es[i as int].0)));
                        }
                        assert forall|y: (u64, Seq<char>)| #[trigger] release_views(released@).contains(y) implies exists|j: int| 0 <= j < i + 1 && y.1 == es[j].0 by {
                            if !r0.contains(y) {
                                assert(y.1 == es[i as int].0);
                            }
                        }
                    }
                }
            }
            i = i + 1;
        }
        assert(es.take(old_entries.len() as int) =~= es);
        let mut paths: Vec<String> = Vec::new();
        let mut j: usize = 0;
        while j < released.len()
            invariant
                0 <= j <= released.len(),
                paths.len() == j,
                forall|a: int| 0 <= a < j ==> (#[trigger] paths@[a])@ == released@[a].1@,
            decreases released.len() - j,
        {
            paths.push(released[j].1.clone());
            j = j + 1;
        }
        assert(texts(paths@) =~= release_views(released@).map_values(|y: (u64, Seq<char>)| y.1));
        self.entries = kept;
        proof {
            let ks = self.entries();
            assert(ks == due_outcome(es, obs@, now, quiet).0);
            lemma_kept_distinct(es, obs@, now, quiet);
            let order = release_views(released@);
            let (kept_s, rel_s) = due_outcome(old(self).entries(), obs@, now, old(self).quiet());
            assert(release_sorted(order));
            assert(forall|y: (u64, Seq<char>)| order.contains(y) <==> rel_s.contains(y));
            assert(texts(paths@) == order.map_values(|y: (u64, Seq<char>)| y.1));
            assert(exists|order: Seq<(u64, Seq<char>)>| #![trigger release_sorted(order)] {
                &&& release_sorted(order)
                &&& (forall|y: (u64, Seq<char>)| order.contains(y) <==> rel_s.contains(y))
                &&& texts(paths@) == order.map_values(|y: (u64, Seq<char>)| y.1)
            });
        }
        Batch { paths, rescan }
    }
}

/// The earliest due time is the smallest `last + quiet` over the held entries (saturating),
/// and there is one exactly when something is held.
pub proof fn law_earliest_due_is_the_minimum(es: Seq<Held>, quiet: u64)
    ensures
        earliest_due(es, quiet) is None <==> es.len() == 0,
        earliest_due(es, quiet) matches Some(m) ==> {
            &&& exists|i: int| 0 <= i < es.len() && m == sat_add(#[trigger] es[i].2, quiet)
            &&& forall|i: int| 0 <= i < es.len() ==> m <= sat_add(#[trigger] es[i].2, quiet)
        },
    decreases es.len(),
{
    if es.len() > 0 {
        let t = es.drop_last();
        law_earliest_due_is_the_minimum(t, quiet);
        let d = sat_add(es.last().2, quiet);
        let n = es.len() - 1;
        assert(es[n] == es.last());
        match earliest_due(t, quiet) {
            Some(m) => {
                let i = choose|i: int| 0 <= i < t.len() && m == sat_add(#[trigger] t[i].2, quiet);
                assert(es[i] == t[i]);
                assert forall|k: int| 0 <= k < es.len() implies (if d < m { d } else { m }) <= sat_add(#[trigger] es[k].2, quiet) by {
                    if k < n {
                        assert(es[k] == t[k]);
                    }
                }
            },
            None => {},
        }
    }
}

/// What one look does to the held entries, entry by entry: an entry is released, as its
/// first hint and path, exactly when it has been quiet for the period and its size held; one
/// not yet quiet stays as it was; one quiet whose size moved stays with the new size and
/// `now` as its last hint; and nothing else is kept.
pub proof fn law_due_releases_exactly_the_settled(es: Seq<Held>, obs: Seq<Option<u64>>, now: u64, quiet: u64)
    ensures
        ({
            let (kept, released) = due_outcome(es, obs, now, quiet);
            &&& forall|y: (u64, Seq<char>)| released.contains(y) <==> exists|i: int| 0 <= i < es.len()
                && y.0 == (#[trigger] es[i]).1 && y.1 == es[i].0 && quiet_since(es[i].2, now, quiet)
                && obs[i] == es[i].3
            &&& forall|i: int| 0 <= i < es.len() && !quiet_since((#[trigger] es[i]).2, now, quiet) ==> kept.contains(es[i])
            &&& forall|i: int| 0 <= i < es.len() && quiet_since((#[trigger] es[i]).2, now, quiet) && obs[i] != es[i].3
                ==> kept.contains((es[i].0, es[i].1, now, obs[i]))
            &&& forall|k: Held| kept.contains(k) ==> exists|i: int| 0 <= i < es.len() && ((k == #[trigger] es[i]
                && !quiet_since(es[i].2, now, quiet)) || (k == (es[i].0, es[i].1, now, obs[i]) && quiet_since(es[i].2, now, quiet)
                && obs[i] != es[i].3))
        }),
    decreases es.len(),
{
    if es.len() > 0 {
        let t = es.drop_last();
        law_due_releases_exactly_the_settled(t, obs, now, quiet);
        let (k0, r0) = due_outcome(t, obs, now, quiet);
        let (kept, released) = due_outcome(es, obs, now, quiet);
        let n = es.len() - 1;
        let e = es.last();
        assert(es[n] == e);
        assert forall|i: int| 0 <= i < n implies #[trigger] es[i] == t[i] by {}
        assert forall|y: (u64, Seq<char>)| released.contains(y) <==> exists|i: int| 0 <= i < es.len()
            && y.0 == (#[trigger] es[i]).1 && y.1 == es[i].0 && quiet_since(es[i].2, now, quiet) && obs[i] == es[i].3 by {
            if released.contains(y) {
                let m = choose|m: int| 0 <= m < released.len() && released[m] == y;
                if m < r0.len() {
                    assert(r0[m] == released[m]);
                    assert(r0.contains(y));
                    let i = choose|i: int| 0 <= i < t.len() && y.0 == (#[trigger] t[i]).1 && y.1 == t[i].0
                        && quiet_since(t[i].2, now, quiet) && obs[i] == t[i].3;
                    assert(es[i] == t[i]);
                } else {
                    assert(y == (es[n].1, es[n].0));
                }
            }
            if exists|i: int| 0 <= i < es.len() && y.0 == (#[trigger] es[i]).1 && y.1 == es[i].0
                && quiet_since(es[i].2, now, quiet) && obs[i] == es[i].3 {
                let i = choose|i: int| 0 <= i < es.len() && y.0 == (#[trigger] es[i]).1 && y.1 == es[i].0
                    && quiet_since(es[i].2, now, quiet) && obs[i] == es[i].3;
                if i < n {
                    assert(es[i] == t[i]);
                    assert(r0.contains(y));
                    let m = choose|m: int| 0 <= m < r0.len() && r0[m] == y;
                    if quiet_since(e.2, now, quiet) && obs[n] == e.3 {
                        assert(released[m] == y);
                    } else {
                        assert(released == r0);
                    }
                } else {
                    assert(released[r0.len() as int] == y);
                }
            }
        }
        assert forall|i: int| 0 <= i < es.len() && !quiet_since((#[trigger] es[i]).2, now, quiet) implies kept.contains(es[i]) by {
            if i < n {
                assert(es[i] == t[i]);
                assert(k0.contains(t[i]));
                let m = choose|m: int| 0 <= m < k0.len() && k0[m] == t[i];
                if !quiet_since(e.2, now, quiet) || obs[n] != e.3 {
                    assert(kept[m] == k0[m]);
                } else {
                    assert(kept == k0);
                }
            } else {
                assert(kept[k0.len() as int] == e);
            }
        }
        assert forall|i: int| 0 <= i < es.len() && quiet_since((#[trigger] es[i]).2, now, quiet) && obs[i] != es[i].3
            implies kept.contains((es[i].0, es[i].1, now, obs[i])) by {
            if i < n {
                assert(es[i] == t[i]);
                assert(k0.contains((t[i].0, t[i].1, now, obs[i])));
                let m = choose|m: int| 0 <= m < k0.len() && k0[m] == (t[i].0, t[i].1, now, obs[i]);
                if !quiet_since(e.2, now, quiet) || obs[n] != e.3 {
                    assert(kept[m] == k0[m]);
                } else {
                    assert(kept == k0);
                }
            } else {
                assert(kept[k0.len() as int] == (e.0, e.1, now, obs[n]));
            }
        }
        assert forall|k: Held| kept.contains(k) implies exists|i: int| 0 <= i < es.len() && ((k == #[trigger] es[i]
            && !quiet_since(es[i].2, now, quiet)) || (k == (es[i].0, es[i].1, now, obs[i]) && quiet_since(es[i].2, now, quiet)
            && obs[i] != es[i].3)) by {
            let m = choose|m: int| 0 <= m < kept.len() && kept[m] == k;
            if m < k0.len() {
                assert(kept[m] == k0[m]);
                assert(k0.contains(k));
                let i = choose|i: int| 0 <= i < t.len() && ((k == #[trigger] t[i] && !quiet_since(t[i].2, now, quiet))
                    || (k == (t[i].0, t[i].1, now, obs[i]) && quiet_since(t[i].2, now, quiet) && obs[i] != t[i].3));
                assert(es[i] == t[i]);
            } else {
                assert(es[n] == e);
            }
        }
    }
}

proof fn lemma_due_outcome_obs(es: Seq<Held>, o1: Seq<Option<u64>>, o2: Seq<Option<u64>>, now: u64, quiet: u64)
    requires
        forall|j: int| 0 <= j < es.len() ==> o1[j] == o2[j],
    ensures
        due_outcome(es, o1, now, quiet) == due_outcome(es, o2, now, quiet),
    decreases es.len(),
{
    if es.len() > 0 {
        lemma_due_outcome_obs(es.drop_last(), o1, o2, now, quiet);
    }
}

proof fn lemma_kept_distinct(es: Seq<Held>, obs: Seq<Option<u64>>, now: u64, quiet: u64)
    requires
        forall|a: int, c: int| 0 <= a < c < es.len() ==> (#[trigger] es[a]).0 != (#[trigger] es[c]).0,
    ensures
        forall|a: int, c: int| 0 <= a < c < due_outcome(es, obs, now, quiet).0.len() ==> (#[trigger] due_outcome(es, obs, now, quiet).0[a]).0 != (#[trigger] due_outcome(es, obs, now, quiet).0[c]).0,
        forall|a: int| 0 <= a < due_outcome(es, obs, now, quiet).0.len() ==> exists|j: int| 0 <= j < es.len() && (#[trigger] due_outcome(es, obs, now, quiet).0[a]).0 == es[j].0,
    decreases es.len(),
{
    if es.len() > 0 {
        lemma_kept_distinct(es.drop_last(), obs, now, quiet);
        let k = due_outcome(es.drop_last(), obs, now, quiet).0;
        assert forall|a: int| 0 <= a < k.len() implies (#[trigger] k[a]).0 != es.last().0 by {
            let j = choose|j: int| 0 <= j < es.drop_last().len() && k[a].0 == es.drop_last()[j].0;
            assert(es[j].0 != es[es.len() - 1].0);
        }
        let k1 = due_outcome(es, obs, now, quiet).0;
        assert forall|a: int| 0 <= a < k1.len() implies exists|j: int| 0 <= j < es.len() && (#[trigger] k1[a]).0 == es[j].0 by {
            if a < k.len() {
                let j = choose|j: int| 0 <= j < es.drop_last().len() && k[a].0 == es.drop_last()[j].0;
                assert(k1[a] == k[a]);
                assert(es[j].0 == es.drop_last()[j].0);
            } else {
                assert(k1[a].0 == es[es.len() - 1].0);
            }
        }
    }
}
} // verus!

verus! {

/// What the filesystem says of a hinted path that is not markdown (`symlink_metadata`).
#[derive(Debug, Clone, Copy, PartialEq, Eq, Structural)]
pub enum OnDisk {
    /// A directory.
    Dir,
    /// Anything else that exists.
    Other,
    /// The metadata could not be read: most likely the path is gone.
    Missing,
}

/// The names whose change alters what the walker finds.
pub open spec fn is_ignore_file_name(n: Seq<char>) -> bool {
    n == ".gitignore"@ || n == ".ignore"@ || n == ".markdownattractorignore"@
}

/// The kind of a hinted path. A lost-events signal rescans; anything under the state
/// directory or `.git` (relative to the root when the path is under it) is ignored first,
/// because the index itself generates a stream of events there; then markdown is indexed,
/// an ignore file or a directory rescans, and a vanished path with no extension (most likely
/// a directory) rescans too.
pub open spec fn hint_kind_of(root: Seq<char>, path: Seq<char>, rescan: bool, disk: OnDisk) -> HintKind {
    let rel = match path_strip_prefix_of(path, root) {
        Some(r) => r,
        None => path,
    };
    if rescan {
        HintKind::Rescan
    } else if part_texts(path_parts_of(rel)).contains(".markdownattractor"@) || part_texts(
        path_parts_of(rel),
    ).contains(".git"@) {
        HintKind::Ignore
    } else if crate::walk::is_markdown_path(path) {
        HintKind::Markdown
    } else if (path_file_name_of(path) matches Some(n) && is_ignore_file_name(n)) {
        HintKind::Rescan
    } else {
        match disk {
            OnDisk::Dir => HintKind::Rescan,
            OnDisk::Missing => if crate::walk::path_extension_of(path) is None {
                HintKind::Rescan
            } else {
                HintKind::Ignore
            },
            OnDisk::Other => HintKind::Ignore,
        }
    }
}

/// The watcher never acts on its own state: a hint for a path under the state directory or
/// `.git` (below the root) is ignored, whatever the filesystem says of it, unless events were
/// lost and everything is rescanned.
pub proof fn law_state_dir_hints_are_ignored(root: Seq<char>, path: Seq<char>, disk: OnDisk)
    requires
        ({
            let rel = match path_strip_prefix_of(path, root) {
                Some(r) => r,
                None => path,
            };
            part_texts(path_parts_of(rel)).contains(".markdownattractor"@) || part_texts(path_parts_of(rel)).contains(".git"@)
        }),
    ensures
        hint_kind_of(root, path, false, disk) == HintKind::Ignore,
{
}

/// Classify a hinted path (see [`hint_kind_of`]); `disk` is what the filesystem says of it.
pub fn classify(root: &str, path: &str, rescan: bool, disk: OnDisk) -> (k: HintKind)
    ensures
        k == hint_kind_of(root@, path@, rescan, disk),
{
    if rescan {
        return HintKind::Rescan;
    }
    let rel = match strip_root(path, root) {
        Some(r) => r,
        None => path.to_string(),
    };
    let comps = component_texts(rel.as_str());
    let state = ".markdownattractor".to_string();
    let git = ".git".to_string();
    proof {
        reveal_strlit(".markdownattractor");
        reveal_strlit(".git");
    }
    if crate::text::contains_string(&comps, &state) || crate::text::contains_string(&comps, &git) {
        assert(comps@.map_values(|s: String| s@) =~= texts(comps@));
        return HintKind::Ignore;
    }
    assert(comps@.map_values(|s: String| s@) =~= texts(comps@));
    if crate::walk::is_markdown(path) {
        return HintKind::Markdown;
    }
    if let Some(n) = file_name(path) {
        if same_text(n.as_str(), ".gitignore") || same_text(n.as_str(), ".ignore") || same_text(
            n.as_str(),
            ".markdownattractorignore",
        ) {
            return HintKind::Rescan;
        }
    }
    match disk {
        OnDisk::Dir => HintKind::Rescan,
        OnDisk::Missing => match crate::walk::path_extension(path) {
            None => HintKind::Rescan,
            Some(_) => HintKind::Ignore,
        },
        OnDisk::Other => HintKind::Ignore,
    }
}

} // verus!
