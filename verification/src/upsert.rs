//! What upserting a parsed document into the store decides: whether the document is new or
//! changed, which section hashes need a card, which cards are reused, when each section was
//! last updated, and which event the timeline records. The store runs these decisions
//! inside its transaction.

use vstd::prelude::*;
use crate::store::{CreatedAtSource, EventKind, UpsertOutcome};
use crate::text::{same_text, texts};
use crate::search::stamp_before;
use crate::timefmt::Stamp;

verus! {

/// Filesystem facts about a document that the parser cannot know.
#[derive(Debug, Clone, Copy, PartialEq, Eq)]
pub struct DocTimes {
    /// File birth time, if the platform reports one. Used as `created_at` the first time the
    /// document is seen; ignored afterwards.
    pub created_at: Option<Stamp>,
    /// File modification time. Becomes `updated_at`.
    pub modified_at: Stamp,
    /// When this upsert happens: `first_seen_at`, `created_at` when there is no birth time,
    /// and the time of the emitted event.
    pub now: Stamp,
    /// Size of the file on disk in bytes.
    pub size_bytes: u64,
}

/// The birth time kept for a document: the one the platform reports, unless it is after the
/// modification time (a copied or restored file), in which case there is none.
pub fn birth_time(created: Option<Stamp>, modified: Stamp) -> (r: Option<Stamp>)
    ensures
        r == (match created {
            Some(c) => if stamp_before(modified, c) { None } else { Some(c) },
            None => None,
        }),
{
    match created {
        Some(c) => {
            let after = modified.second < c.second || (modified.second == c.second
                && modified.nanosecond < c.nanosecond);
            if after {
                None
            } else {
                Some(c)
            }
        },
        None => None,
    }
}

/// The `created_at` of a document's first row, and where it came from: the birth time when
/// there is one, else the time of the upsert.
pub fn first_created_at(times: &DocTimes) -> (r: (Stamp, CreatedAtSource))
    ensures
        r == (match times.created_at {
            Some(t) => (t, CreatedAtSource::Birthtime),
            None => (times.now, CreatedAtSource::FirstSeen),
        }),
{
    match times.created_at {
        Some(t) => (t, CreatedAtSource::Birthtime),
        None => (times.now, CreatedAtSource::FirstSeen),
    }
}

/// The hashes of the document's stored sections, in row order.
pub open spec fn old_hashes(old: Seq<(Seq<char>, Stamp)>) -> Seq<Seq<char>> {
    old.map_values(|p: (Seq<char>, Stamp)| p.0)
}

/// The view of the stored sections.
pub open spec fn old_view(old: Seq<(String, Stamp)>) -> Seq<(Seq<char>, Stamp)> {
    old.map_values(|p: (String, Stamp)| (p.0@, p.1))
}

/// The view of a stored document row: its content hash and whether it is tombstoned.
pub open spec fn existing_view(e: Option<(String, bool)>) -> Option<(Seq<char>, bool)> {
    match e {
        Some(p) => Some((p.0@, p.1)),
        None => None,
    }
}

/// The time the first stored section with hash `h` was updated.
pub open spec fn first_at(old: Seq<(Seq<char>, Stamp)>, h: Seq<char>) -> Stamp
    decreases old.len(),
{
    if old.len() == 0 {
        Stamp { second: 0, nanosecond: 0 }
    } else if old[0].0 == h {
        old[0].1
    } else {
        first_at(old.drop_first(), h)
    }
}

/// The document had no live row: it is seen for the first time, or a tombstone comes back.
pub open spec fn created_of(existing: Option<(Seq<char>, bool)>) -> bool {
    !(existing matches Some(e) && !e.1)
}

/// The document is created, or its content hash differs from the stored one.
pub open spec fn changed_of(existing: Option<(Seq<char>, bool)>, doc_hash: Seq<char>) -> bool {
    created_of(existing) || (existing matches Some(e) && e.0 != doc_hash)
}

/// Sections counted in order: a hash the document had before is unchanged; one that already
/// has a summary row, or that an earlier section of this upsert introduced, is reused; any
/// other is new. The result is (new hashes in order, reused count, unchanged count).
pub open spec fn tally(old_h: Seq<Seq<char>>, known: Seq<Seq<char>>, hashes: Seq<Seq<char>>) -> (
    Seq<Seq<char>>,
    nat,
    nat,
)
    decreases hashes.len(),
{
    if hashes.len() == 0 {
        (Seq::empty(), 0, 0)
    } else {
        let prev = tally(old_h, known, hashes.drop_last());
        let h = hashes.last();
        if old_h.contains(h) {
            (prev.0, prev.1, prev.2 + 1)
        } else if prev.0.contains(h) || known.contains(h) {
            (prev.0, prev.1 + 1, prev.2)
        } else {
            (prev.0.push(h), prev.1, prev.2)
        }
    }
}

/// The number of distinct stored hashes that no section of the new document carries.
pub open spec fn removed_of(old_h: Seq<Seq<char>>, hashes: Seq<Seq<char>>) -> nat
    decreases old_h.len(),
{
    if old_h.len() == 0 {
        0
    } else {
        let rest = removed_of(old_h.drop_last(), hashes);
        let h = old_h.last();
        if old_h.drop_last().contains(h) || hashes.contains(h) {
            rest
        } else {
            rest + 1
        }
    }
}

/// When section `i` was last updated: its stored time when the document had its hash before,
/// else the file's modification time.
pub open spec fn section_updated_at(
    old: Seq<(Seq<char>, Stamp)>,
    h: Seq<char>,
    modified_at: Stamp,
) -> Stamp {
    if old_hashes(old).contains(h) {
        first_at(old, h)
    } else {
        modified_at
    }
}

/// The event an upsert records: a creation (a restoration when a tombstone comes back), a
/// change, or none.
pub open spec fn event_of(existing: Option<(Seq<char>, bool)>, doc_hash: Seq<char>) -> Option<EventKind> {
    if created_of(existing) {
        Some(EventKind::DocCreated)
    } else if changed_of(existing, doc_hash) {
        Some(EventKind::DocChanged)
    } else {
        None
    }
}

/// What an upsert writes besides the rows it copies from the parse.
#[derive(Debug, Clone, PartialEq, Eq)]
pub struct UpsertPlan {
    /// The outcome reported to the caller.
    pub outcome: UpsertOutcome,
    /// Per section, in document order, its `updated_at`.
    pub updated_at: Vec<Stamp>,
    /// The event to record.
    pub event: Option<EventKind>,
    /// A created document that had a tombstoned row: the event says `restored`.
    pub restored: bool,
}

/// The time the first stored section with hash `h` was updated, if any has it.
fn stored_at(old: &Vec<(String, Stamp)>, h: &String) -> (r: Option<Stamp>)
    ensures
        r == (if old_hashes(old_view(old@)).contains(h@) {
            Some(first_at(old_view(old@), h@))
        } else {
            None
        }),
{
    let ghost ov = old_view(old@);
    let mut i: usize = 0;
    assert(ov.skip(0) =~= ov);
    while i < old.len()
        invariant
            i <= old.len(),
            ov == old_view(old@),
            forall|k: int| 0 <= k < i ==> old@[k].0@ != h@,
            first_at(ov, h@) == first_at(ov.skip(i as int), h@),
        decreases old.len() - i,
    {
        if same_text(old[i].0.as_str(), h.as_str()) {
            proof {
                assert(old_hashes(ov)[i as int] == h@);
            }
            return Some(old[i].1);
        }
        assert(ov.skip(i as int).drop_first() =~= ov.skip(i + 1));
        i = i + 1;
    }
    proof {
        if old_hashes(ov).contains(h@) {
            let k = choose|k: int| 0 <= k < old_hashes(ov).len() && old_hashes(ov)[k] == h@;
            assert(old@[k].0@ == h@);
        }
    }
    None
}

/// Whether any of `v` is `s`.
fn has_text(v: &Vec<String>, s: &String) -> (b: bool)
    ensures
        b == texts(v@).contains(s@),
{
    let mut i: usize = 0;
    while i < v.len()
        invariant
            i <= v.len(),
            forall|k: int| 0 <= k < i ==> v@[k]@ != s@,
        decreases v.len() - i,
    {
        if same_text(v[i].as_str(), s.as_str()) {
            assert(texts(v@)[i as int] == s@);
            return true;
        }
        i = i + 1;
    }
    proof {
        if texts(v@).contains(s@) {
            let k = choose|k: int| 0 <= k < texts(v@).len() && texts(v@)[k] == s@;
            assert(v@[k]@ == s@);
        }
    }
    false
}

/// The decisions of an upsert. `existing` is the stored row of the document (its content
/// hash and whether it is tombstoned), `old` the stored sections (hash and `updated_at`, in
/// row order), `hashes` the section hashes of the new parse in document order, and `known`
/// the hashes that already had a summary row before this upsert.
pub fn plan_upsert(
    doc_id: String,
    existing: &Option<(String, bool)>,
    doc_hash: &String,
    old: &Vec<(String, Stamp)>,
    hashes: &Vec<String>,
    known: &Vec<String>,
    modified_at: Stamp,
) -> (p: UpsertPlan)
    ensures
        p.outcome.doc_id == doc_id,
        p.outcome.created == created_of(existing_view(*existing)),
        p.outcome.changed == changed_of(existing_view(*existing), doc_hash@),
        texts(p.outcome.new_hashes@) == tally(old_hashes(old_view(old@)), texts(known@), texts(hashes@)).0,
        p.outcome.reused == tally(old_hashes(old_view(old@)), texts(known@), texts(hashes@)).1,
        p.outcome.unchanged == tally(old_hashes(old_view(old@)), texts(known@), texts(hashes@)).2,
        p.outcome.removed == removed_of(old_hashes(old_view(old@)), texts(hashes@)),
        p.updated_at@.len() == hashes@.len(),
        forall|i: int|
            0 <= i < hashes@.len() ==> #[trigger] p.updated_at@[i] == section_updated_at(
                old_view(old@),
                hashes@[i]@,
                modified_at,
            ),
        p.event == event_of(existing_view(*existing), doc_hash@),
        p.restored == (created_of(existing_view(*existing)) && existing.is_some()),
{
    let created = match existing {
        Some(e) => e.1,
        None => true,
    };
    let changed = created || match existing {
        Some(e) => !same_text(e.0.as_str(), doc_hash.as_str()),
        None => false,
    };
    let ghost oh = old_hashes(old_view(old@));
    let ghost kn = texts(known@);
    let ghost hs = texts(hashes@);
    let mut new_hashes: Vec<String> = Vec::new();
    let mut reused: usize = 0;
    let mut unchanged: usize = 0;
    let mut updated_at: Vec<Stamp> = Vec::new();
    let mut i: usize = 0;
    while i < hashes.len()
        invariant
            i <= hashes.len(),
            oh == old_hashes(old_view(old@)),
            kn == texts(known@),
            hs == texts(hashes@),
            texts(new_hashes@) == tally(oh, kn, hs.take(i as int)).0,
            reused == tally(oh, kn, hs.take(i as int)).1,
            unchanged == tally(oh, kn, hs.take(i as int)).2,
            reused + unchanged <= i,
            updated_at@.len() == i,
            forall|k: int|
                0 <= k < i ==> #[trigger] updated_at@[k] == section_updated_at(
                    old_view(old@),
                    hashes@[k]@,
                    modified_at,
                ),
        decreases hashes.len() - i,
    {
        let h = &hashes[i];
        assert(hs.take(i + 1).drop_last() =~= hs.take(i as int));
        assert(hs.take(i + 1).last() == h@);
        proof {
            lemma_tally_bounds(oh, kn, hs.take(i as int));
        }
        match stored_at(old, h) {
            Some(at) => {
                unchanged = unchanged + 1;
                updated_at.push(at);
            },
            None => {
                if has_text(&new_hashes, h) || has_text(known, h) {
                    reused = reused + 1;
                } else {
                    new_hashes.push(h.clone());
                    assert(texts(new_hashes@) =~= tally(oh, kn, hs.take(i as int)).0.push(h@));
                }
                updated_at.push(modified_at);
            },
        }
        i = i + 1;
    }
    assert(hs.take(hashes.len() as int) =~= hs);
    let mut removed: usize = 0;
    let mut j: usize = 0;
    while j < old.len()
        invariant
            j <= old.len(),
            oh == old_hashes(old_view(old@)),
            hs == texts(hashes@),
            removed == removed_of(oh.take(j as int), hs),
            removed <= j,
        decreases old.len() - j,
    {
        let h = &old[j].0;
        let ghost pre = oh.take(j as int);
        assert(oh.take(j + 1).drop_last() =~= pre);
        assert(oh.take(j + 1).last() == h@);
        let mut seen = false;
        let mut k: usize = 0;
        while k < j
            invariant
                k <= j < old.len(),
                oh == old_hashes(old_view(old@)),
                pre == oh.take(j as int),
                h@ == oh[j as int],
                seen == exists|q: int| 0 <= q < k && #[trigger] pre[q] == h@,
            decreases j - k,
        {
            if same_text(old[k].0.as_str(), h.as_str()) {
                seen = true;
            }
            assert(pre[k as int] == old@[k as int].0@);
            k = k + 1;
        }
        proof {
            if pre.contains(h@) {
                let q = choose|q: int| 0 <= q < pre.len() && pre[q] == h@;
                assert(pre[q] == h@);
            }
            if seen {
                let q = choose|q: int| 0 <= q < k && #[trigger] pre[q] == h@;
                assert(pre.contains(h@));
            }
        }
        if !seen && !has_text(hashes, h) {
            removed = removed + 1;
        }
        j = j + 1;
    }
    assert(oh.take(old.len() as int) =~= oh);
    let event = if created {
        Some(EventKind::DocCreated)
    } else if changed {
        Some(EventKind::DocChanged)
    } else {
        None
    };
    let restored = created && existing.is_some();
    UpsertPlan {
        outcome: UpsertOutcome { doc_id, created, changed, new_hashes, reused, unchanged, removed },
        updated_at,
        event,
        restored,
    }
}

/// The counts of a tally never exceed the sections counted.
proof fn lemma_tally_bounds(old_h: Seq<Seq<char>>, known: Seq<Seq<char>>, hashes: Seq<Seq<char>>)
    ensures
        tally(old_h, known, hashes).0.len() + tally(old_h, known, hashes).1 + tally(
            old_h,
            known,
            hashes,
        ).2 == hashes.len(),
    decreases hashes.len(),
{
    if hashes.len() > 0 {
        lemma_tally_bounds(old_h, known, hashes.drop_last());
    }
}

/// Every section of an upsert is counted exactly once: as unchanged, as reused, or as the
/// section that introduces a new hash.
pub proof fn law_sections_counted_once(
    old: Seq<(Seq<char>, Stamp)>,
    known: Seq<Seq<char>>,
    hashes: Seq<Seq<char>>,
)
    ensures
        tally(old_hashes(old), known, hashes).0.len() + tally(old_hashes(old), known, hashes).1
            + tally(old_hashes(old), known, hashes).2 == hashes.len(),
{
    lemma_tally_bounds(old_hashes(old), known, hashes);
}

/// The new hashes of an upsert are distinct, carried by the document, and neither stored in
/// it before nor already summarized anywhere.
pub proof fn law_new_hashes_are_fresh(
    old: Seq<(Seq<char>, Stamp)>,
    known: Seq<Seq<char>>,
    hashes: Seq<Seq<char>>,
)
    ensures
        tally(old_hashes(old), known, hashes).0.no_duplicates(),
        forall|h: Seq<char>|
            #[trigger] tally(old_hashes(old), known, hashes).0.contains(h) ==> hashes.contains(h)
                && !old_hashes(old).contains(h) && !known.contains(h),
    decreases hashes.len(),
{
    if hashes.len() > 0 {
        law_new_hashes_are_fresh(old, known, hashes.drop_last());
        let prev = tally(old_hashes(old), known, hashes.drop_last());
        let t = tally(old_hashes(old), known, hashes);
        assert forall|h: Seq<char>| #[trigger] t.0.contains(h) implies hashes.contains(h)
            && !old_hashes(old).contains(h) && !known.contains(h) by {
            if prev.0.contains(h) {
                let k = choose|k: int| 0 <= k < hashes.drop_last().len() && hashes.drop_last()[k] == h;
                assert(hashes[k] == h);
            } else {
                assert(h == hashes.last());
                assert(hashes[hashes.len() - 1] == h);
            }
        }
    }
}

/// A tally over sections whose hashes were all stored before counts every section as
/// unchanged.
proof fn lemma_tally_all_known(old_h: Seq<Seq<char>>, known: Seq<Seq<char>>, hashes: Seq<Seq<char>>)
    requires
        forall|i: int| 0 <= i < hashes.len() ==> old_h.contains(#[trigger] hashes[i]),
    ensures
        tally(old_h, known, hashes) == (Seq::<Seq<char>>::empty(), 0nat, hashes.len()),
    decreases hashes.len(),
{
    if hashes.len() > 0 {
        lemma_tally_all_known(old_h, known, hashes.drop_last());
        assert(old_h.contains(hashes[hashes.len() - 1]));
    }
}

/// Stored hashes that the document still carries are never counted as removed.
proof fn lemma_removed_none(old_h: Seq<Seq<char>>, hashes: Seq<Seq<char>>)
    requires
        forall|i: int| 0 <= i < old_h.len() ==> hashes.contains(#[trigger] old_h[i]),
    ensures
        removed_of(old_h, hashes) == 0,
    decreases old_h.len(),
{
    if old_h.len() > 0 {
        lemma_removed_none(old_h.drop_last(), hashes);
        assert(hashes.contains(old_h[old_h.len() - 1]));
    }
}

/// Upserting a live document again with the same content and the same sections changes
/// nothing: not created, not changed, every section unchanged, no new or reused hash, none
/// removed, no event.
pub proof fn law_reupsert_is_unchanged(
    doc_hash: Seq<char>,
    old: Seq<(Seq<char>, Stamp)>,
    known: Seq<Seq<char>>,
    hashes: Seq<Seq<char>>,
)
    requires
        old_hashes(old) == hashes,
    ensures
        !created_of(Some((doc_hash, false))),
        !changed_of(Some((doc_hash, false)), doc_hash),
        tally(old_hashes(old), known, hashes) == (Seq::<Seq<char>>::empty(), 0nat, hashes.len()),
        removed_of(old_hashes(old), hashes) == 0,
        event_of(Some((doc_hash, false)), doc_hash) is None,
{
    assert forall|i: int| 0 <= i < hashes.len() implies old_hashes(old).contains(#[trigger] hashes[i]) by {
        assert(old_hashes(old)[i] == hashes[i]);
    }
    lemma_tally_all_known(old_hashes(old), known, hashes);
    assert forall|i: int| 0 <= i < old_hashes(old).len() implies hashes.contains(#[trigger] old_hashes(old)[i]) by {
        assert(hashes[i] == old_hashes(old)[i]);
    }
    lemma_removed_none(old_hashes(old), hashes);
}

} // verus!
