//! Which documents' index is not final: the ones with sections still waiting for (or
//! failed at) a card, and the ones whose file changed or vanished after indexing, merged
//! into one list ordered by path.

use vstd::prelude::*;
use crate::pipeline::StaleDoc;
use crate::text::{lemma_text_lt_order, same_text, text_less, text_lt};

verus! {

/// A stale entry's counts and flags: pending, failed, changed on disk, missing.
pub type StaleFacts = (u64, u64, bool, bool);

/// The documents with open sections, by path; a later entry for a path replaces an earlier.
pub open spec fn stale_open(open: Seq<(Seq<char>, u64, u64)>) -> Map<Seq<char>, StaleFacts>
    decreases open.len(),
{
    if open.len() == 0 {
        Map::empty()
    } else {
        let o = open.last();
        stale_open(open.drop_last()).insert(o.0, (o.1, o.2, false, false))
    }
}

/// `m` with the disk checks applied: a document that changed or is missing gets those flags,
/// keeping its counts (zero for a document with no open sections).
pub open spec fn stale_disk(
    m: Map<Seq<char>, StaleFacts>,
    disk: Seq<(Seq<char>, bool, bool)>,
) -> Map<Seq<char>, StaleFacts>
    decreases disk.len(),
{
    if disk.len() == 0 {
        m
    } else {
        let m1 = stale_disk(m, disk.drop_last());
        let d = disk.last();
        if d.1 || d.2 {
            let counts: (u64, u64) = if m1.contains_key(d.0) {
                (m1[d.0].0, m1[d.0].1)
            } else {
                (0, 0)
            };
            m1.insert(d.0, (counts.0, counts.1, d.1, d.2))
        } else {
            m1
        }
    }
}

/// The path of a stale entry.
pub open spec fn stale_key(s: StaleDoc) -> Seq<char> {
    s.rel_path@
}

/// The counts and flags of a stale entry.
pub open spec fn stale_facts(s: StaleDoc) -> StaleFacts {
    (s.pending, s.failed, s.changed_on_disk, s.missing)
}

/// Entries in strictly increasing path order.
pub open spec fn strictly_by_path(v: Seq<StaleDoc>) -> bool {
    forall|i: int, j: int| 0 <= i < j < v.len() ==> text_lt(stale_key(#[trigger] v[i]), stale_key(#[trigger] v[j]))
}

/// `v` lists `m`: every entry is `m`'s value at its path, and every path of `m` has an entry.
pub open spec fn lists(v: Seq<StaleDoc>, m: Map<Seq<char>, StaleFacts>) -> bool {
    &&& forall|i: int|
        0 <= i < v.len() ==> m.contains_key(stale_key(#[trigger] v[i])) && m[stale_key(v[i])]
            == stale_facts(v[i])
    &&& forall|k: Seq<char>| #[trigger] m.contains_key(k) ==> exists|i: int| 0 <= i < v.len() && stale_key(#[trigger] v[i]) == k
}

/// Where `key` belongs in `v`: the first entry whose path is not before it, and whether
/// that entry has `key` itself.
fn place(v: &Vec<StaleDoc>, key: &String) -> (r: (usize, bool))
    requires
        strictly_by_path(v@),
    ensures
        r.0 <= v.len(),
        forall|i: int| 0 <= i < r.0 ==> text_lt(stale_key(#[trigger] v@[i]), key@),
        r.1 == (r.0 < v.len() && stale_key(v@[r.0 as int]) == key@),
        !r.1 && r.0 < v.len() ==> text_lt(key@, stale_key(v@[r.0 as int])),
{
    let mut p: usize = 0;
    while p < v.len() && text_less(v[p].rel_path.as_str(), key.as_str())
        invariant
            p <= v.len(),
            forall|i: int| 0 <= i < p ==> text_lt(stale_key(#[trigger] v@[i]), key@),
        decreases v.len() - p,
    {
        p = p + 1;
    }
    if p < v.len() {
        let same = same_text(v[p].rel_path.as_str(), key.as_str());
        proof {
            lemma_text_lt_order(stale_key(v@[p as int]), key@, key@);
        }
        (p, same)
    } else {
        (p, false)
    }
}

/// Set the entry of `key` to `facts`, in place or at its sorted position.
fn put(v: &mut Vec<StaleDoc>, key: &String, facts: StaleFacts, Ghost(m): Ghost<Map<Seq<char>, StaleFacts>>)
    requires
        strictly_by_path(old(v)@),
        lists(old(v)@, m),
    ensures
        strictly_by_path(final(v)@),
        lists(final(v)@, m.insert(key@, facts)),
{
    let (p, found) = place(v, key);
    let entry = StaleDoc {
        rel_path: key.clone(),
        pending: facts.0,
        failed: facts.1,
        changed_on_disk: facts.2,
        missing: facts.3,
    };
    let ghost before = v@;
    let ghost m2 = m.insert(key@, facts);
    if found {
        v.set(p, entry);
        proof {
            assert forall|i: int, j: int| 0 <= i < j < v@.len() implies text_lt(
                stale_key(#[trigger] v@[i]),
                stale_key(#[trigger] v@[j]),
            ) by {
                assert(text_lt(stale_key(before[i]), stale_key(before[j])));
            }
            assert forall|i: int| 0 <= i < v@.len() implies m2.contains_key(stale_key(#[trigger] v@[i]))
                && m2[stale_key(v@[i])] == stale_facts(v@[i]) by {
                if i != p {
                    if i < p {
                        lemma_text_lt_order(stale_key(before[i]), key@, key@);
                    } else {
                        lemma_text_lt_order(key@, stale_key(before[i]), key@);
                        assert(text_lt(stale_key(before[p as int]), stale_key(before[i])));
                    }
                    assert(stale_key(v@[i]) != key@);
                }
            }
            assert forall|k: Seq<char>| #[trigger] m2.contains_key(k) implies exists|i: int|
                0 <= i < v@.len() && stale_key(#[trigger] v@[i]) == k by {
                if k == key@ {
                    assert(stale_key(v@[p as int]) == k);
                } else {
                    let i = choose|i: int| 0 <= i < before.len() && stale_key(#[trigger] before[i]) == k;
                    assert(stale_key(v@[i]) == k);
                }
            }
        }
    } else {
        v.insert(p, entry);
        proof {
            assert forall|i: int| 0 <= i < v@.len() implies (#[trigger] v@[i]) == (if i < p {
                before[i]
            } else if i == p {
                entry
            } else {
                before[i - 1]
            }) by {}
            assert forall|i: int, j: int| 0 <= i < j < v@.len() implies text_lt(
                stale_key(#[trigger] v@[i]),
                stale_key(#[trigger] v@[j]),
            ) by {
                if j < p {
                    assert(text_lt(stale_key(before[i]), stale_key(before[j])));
                } else if j == p {
                } else if i < p {
                    lemma_text_lt_order(stale_key(before[i]), key@, stale_key(before[p as int]));
                    if j - 1 > p {
                        assert(text_lt(stale_key(before[p as int]), stale_key(before[j - 1])));
                        lemma_text_lt_order(stale_key(before[i]), stale_key(before[p as int]), stale_key(before[j - 1]));
                    }
                } else if i == p {
                    if j - 1 > p {
                        assert(text_lt(stale_key(before[p as int]), stale_key(before[j - 1])));
                        lemma_text_lt_order(key@, stale_key(before[p as int]), stale_key(before[j - 1]));
                    }
                } else {
                    assert(text_lt(stale_key(before[i - 1]), stale_key(before[j - 1])));
                }
            }
            assert forall|i: int| 0 <= i < v@.len() implies m2.contains_key(stale_key(#[trigger] v@[i]))
                && m2[stale_key(v@[i])] == stale_facts(v@[i]) by {
                if i < p {
                    lemma_text_lt_order(stale_key(before[i]), key@, key@);
                    assert(stale_key(v@[i]) != key@);
                } else if i > p {
                    lemma_text_lt_order(key@, stale_key(before[p as int]), stale_key(before[i - 1]));
                    if i - 1 > p {
                        assert(text_lt(stale_key(before[p as int]), stale_key(before[i - 1])));
                    }
                    lemma_text_lt_order(key@, stale_key(before[i - 1]), key@);
                    assert(stale_key(v@[i]) != key@);
                }
            }
            assert forall|k: Seq<char>| #[trigger] m2.contains_key(k) implies exists|i: int|
                0 <= i < v@.len() && stale_key(#[trigger] v@[i]) == k by {
                if k == key@ {
                    assert(stale_key(v@[p as int]) == k);
                } else {
                    let i = choose|i: int| 0 <= i < before.len() && stale_key(#[trigger] before[i]) == k;
                    if i < p {
                        assert(stale_key(v@[i]) == k);
                    } else {
                        assert(stale_key(v@[i + 1]) == k);
                    }
                }
            }
        }
    }
}

/// The entry of `key` in `v`, if it has one.
fn get_facts(v: &Vec<StaleDoc>, key: &String, Ghost(m): Ghost<Map<Seq<char>, StaleFacts>>) -> (r: Option<StaleFacts>)
    requires
        lists(v@, m),
    ensures
        r == (if m.contains_key(key@) {
            Some(m[key@])
        } else {
            None
        }),
{
    let mut i: usize = 0;
    while i < v.len()
        invariant
            i <= v.len(),
            lists(v@, m),
            forall|q: int| 0 <= q < i ==> stale_key(#[trigger] v@[q]) != key@,
        decreases v.len() - i,
    {
        if same_text(v[i].rel_path.as_str(), key.as_str()) {
            return Some((v[i].pending, v[i].failed, v[i].changed_on_disk, v[i].missing));
        }
        i = i + 1;
    }
    proof {
        if m.contains_key(key@) {
            let q = choose|q: int| 0 <= q < v@.len() && stale_key(#[trigger] v@[q]) == key@;
        }
    }
    None
}

/// Merge the documents with open sections (`open`: path, pending, failed) with the disk
/// checks of every live document (`disk`: path, changed on disk, missing): each document
/// appears once, in path order, with its counts and flags (see [`stale_open`] and
/// [`stale_disk`]).
pub fn merge_stale(open: &Vec<(String, u64, u64)>, disk: &Vec<(String, bool, bool)>) -> (r: Vec<StaleDoc>)
    ensures
        strictly_by_path(r@),
        lists(
            r@,
            stale_disk(
                stale_open(open@.map_values(|o: (String, u64, u64)| (o.0@, o.1, o.2))),
                disk@.map_values(|d: (String, bool, bool)| (d.0@, d.1, d.2)),
            ),
        ),
{
    let ghost ov = open@.map_values(|o: (String, u64, u64)| (o.0@, o.1, o.2));
    let ghost dv = disk@.map_values(|d: (String, bool, bool)| (d.0@, d.1, d.2));
    let mut v: Vec<StaleDoc> = Vec::new();
    let mut i: usize = 0;
    while i < open.len()
        invariant
            i <= open.len(),
            ov == open@.map_values(|o: (String, u64, u64)| (o.0@, o.1, o.2)),
            strictly_by_path(v@),
            lists(v@, stale_open(ov.take(i as int))),
        decreases open.len() - i,
    {
        assert(ov.take(i + 1).drop_last() =~= ov.take(i as int));
        put(&mut v, &open[i].0, (open[i].1, open[i].2, false, false), Ghost(stale_open(ov.take(i as int))));
        i = i + 1;
    }
    assert(ov.take(open.len() as int) =~= ov);
    let ghost m0 = stale_open(ov);
    let mut j: usize = 0;
    while j < disk.len()
        invariant
            j <= disk.len(),
            dv == disk@.map_values(|d: (String, bool, bool)| (d.0@, d.1, d.2)),
            strictly_by_path(v@),
            lists(v@, stale_disk(m0, dv.take(j as int))),
        decreases disk.len() - j,
    {
        assert(dv.take(j + 1).drop_last() =~= dv.take(j as int));
        let changed = disk[j].1;
        let missing = disk[j].2;
        if changed || missing {
            let ghost m1 = stale_disk(m0, dv.take(j as int));
            let counts = match get_facts(&v, &disk[j].0, Ghost(m1)) {
                Some(f) => (f.0, f.1),
                None => (0u64, 0u64),
            };
            put(&mut v, &disk[j].0, (counts.0, counts.1, changed, missing), Ghost(m1));
        }
        j = j + 1;
    }
    assert(dv.take(disk.len() as int) =~= dv);
    v
}

} // verus!
