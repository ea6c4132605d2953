//! The seeded, order-independent assignment of dataset questions to splits.

use vstd::prelude::*;
use crate::eval::Split;
use crate::text::{lemma_text_lt_order, text_less, text_lt, texts};

verus! {

broadcast use vstd::seq_lib::group_to_multiset_ensures;

/// The blake3 digest, as lowercase hexadecimal, of the seed's eight little-endian bytes
/// followed by the UTF-8 bytes of `id`.
pub uninterp spec fn seeded_key_of(seed: u64, id: Seq<char>) -> Seq<char>;

/// Feeds `seed.to_le_bytes()` and then the bytes of `id` to a `blake3::Hasher` and renders
/// the digest with `to_hex`. The contract only names the result: it depends on the seed and
/// the id alone.
#[verifier::external_body]
fn seeded_key(seed: u64, id: &str) -> (k: String)
    ensures
        k@ == seeded_key_of(seed, id@),
{
    let mut h = blake3::Hasher::new();
    h.update(&seed.to_le_bytes());
    h.update(id.as_bytes());
    h.finalize().to_hex().to_string()
}

/// `a` is ordered before `b`: by seeded key, and by the id itself where the keys agree.
pub open spec fn id_before(seed: u64, a: Seq<char>, b: Seq<char>) -> bool {
    let ka = seeded_key_of(seed, a);
    let kb = seeded_key_of(seed, b);
    text_lt(ka, kb) || (ka == kb && text_lt(a, b))
}

/// No id is followed by one ordered before it.
pub open spec fn sorted_by_key(seed: u64, s: Seq<Seq<char>>) -> bool {
    forall|i: int, j: int|
        0 <= i < j < s.len() ==> !id_before(seed, #[trigger] s[j], #[trigger] s[i])
}

/// The split of position `i` out of `n`: the first `n * 30 / 100` positions are `Dev`, the
/// next `n * 55 / 100` are `Test`, the rest `Holdout`.
pub open spec fn split_at(i: int, n: int) -> Split {
    if i < n * 30 / 100 {
        Split::Dev
    } else if i < n * 30 / 100 + n * 55 / 100 {
        Split::Test
    } else {
        Split::Holdout
    }
}

/// The ids of a split result, in its order.
pub open spec fn split_ids_of(r: Seq<(Seq<char>, Split)>) -> Seq<Seq<char>> {
    r.map_values(|p: (Seq<char>, Split)| p.0)
}

/// `r` splits `ids` under `seed`: the same ids, counted with repetition, in key order, each
/// with the split of its position.
pub open spec fn is_split_of(seed: u64, ids: Seq<Seq<char>>, r: Seq<(Seq<char>, Split)>) -> bool {
    &&& r.len() == ids.len()
    &&& split_ids_of(r).to_multiset() == ids.to_multiset()
    &&& sorted_by_key(seed, split_ids_of(r))
    &&& forall|i: int| 0 <= i < r.len() ==> (#[trigger] r[i]).1 == split_at(i, r.len() as int)
}

/// The view of a split result.
pub open spec fn split_view(r: Seq<(String, Split)>) -> Seq<(Seq<char>, Split)> {
    r.map_values(|p: (String, Split)| (p.0@, p.1))
}

/// [`id_before`] is a strict order, total on distinct ids.
pub proof fn lemma_id_before_order(seed: u64, a: Seq<char>, b: Seq<char>, c: Seq<char>)
    ensures
        !id_before(seed, a, a),
        a != b ==> id_before(seed, a, b) || id_before(seed, b, a),
        id_before(seed, a, b) ==> !id_before(seed, b, a),
        id_before(seed, a, b) && id_before(seed, b, c) ==> id_before(seed, a, c),
{
    let ka = seeded_key_of(seed, a);
    let kb = seeded_key_of(seed, b);
    let kc = seeded_key_of(seed, c);
    lemma_text_lt_order(ka, kb, kc);
    lemma_text_lt_order(a, b, c);
    lemma_text_lt_order(kb, ka, kc);
    lemma_text_lt_order(b, a, c);
}

/// Inserting `x` where the ids before it are ordered before it, and the id at the place is
/// not, keeps a sorted sequence sorted.
proof fn lemma_insert_sorted(seed: u64, s: Seq<Seq<char>>, p: int, x: Seq<char>)
    requires
        sorted_by_key(seed, s),
        0 <= p <= s.len(),
        forall|q: int| 0 <= q < p ==> id_before(seed, #[trigger] s[q], x),
        p < s.len() ==> !id_before(seed, s[p], x),
    ensures
        sorted_by_key(seed, s.insert(p, x)),
{
    let t = s.insert(p, x);
    assert forall|q: int| p <= q < s.len() implies !id_before(seed, #[trigger] s[q], x) by {
        if q > p {
            lemma_id_before_order(seed, s[p], s[q], x);
            lemma_id_before_order(seed, s[q], s[p], x);
            assert(!id_before(seed, s[q], s[p]));
        }
    }
    assert forall|i: int, j: int| 0 <= i < j < t.len() implies !id_before(
        seed,
        #[trigger] t[j],
        #[trigger] t[i],
    ) by {
        if i < p && j == p {
            lemma_id_before_order(seed, s[i], x, x);
        } else if i < p && j > p {
            assert(t[j] == s[j - 1]);
            if j - 1 > i {
                assert(!id_before(seed, s[j - 1], s[i]));
            }
        } else if i < p && j < p {
            assert(t[i] == s[i] && t[j] == s[j]);
        } else if i == p {
            assert(t[j] == s[j - 1]);
            assert(!id_before(seed, s[j - 1], x));
        } else {
            assert(t[i] == s[i - 1] && t[j] == s[j - 1]);
        }
    }
}

/// Two sorted sequences with the same ids, counted with repetition, are the same sequence.
pub proof fn lemma_sorted_unique(seed: u64, s1: Seq<Seq<char>>, s2: Seq<Seq<char>>)
    requires
        sorted_by_key(seed, s1),
        sorted_by_key(seed, s2),
        s1.to_multiset() == s2.to_multiset(),
    ensures
        s1 == s2,
    decreases s1.len(),
{
    vstd::seq_lib::to_multiset_len(s1);
    vstd::seq_lib::to_multiset_len(s2);
    if s1.len() == 0 {
        assert(s2.len() == 0);
        assert(s1 =~= s2);
    } else {
        assert(s2.len() == s1.len());
        let x = s1[0];
        let y = s2[0];
        assert(s2.to_multiset().count(x) > 0);
        assert(s2.contains(x));
        let k = choose|k: int| 0 <= k < s2.len() && s2[k] == x;
        assert(s1.to_multiset().count(y) > 0);
        assert(s1.contains(y));
        let i = choose|i: int| 0 <= i < s1.len() && s1[i] == y;
        if k > 0 {
            assert(!id_before(seed, s2[k], s2[0]));
        }
        if i > 0 {
            assert(!id_before(seed, s1[i], s1[0]));
        }
        lemma_id_before_order(seed, x, y, x);
        assert(x == y);
        let r1 = s1.remove(0);
        let r2 = s2.remove(0);
        assert(r1.to_multiset() == r2.to_multiset());
        assert forall|a: int, b: int| 0 <= a < b < r1.len() implies !id_before(
            seed,
            #[trigger] r1[b],
            #[trigger] r1[a],
        ) by {
            assert(r1[a] == s1[a + 1] && r1[b] == s1[b + 1]);
        }
        assert forall|a: int, b: int| 0 <= a < b < r2.len() implies !id_before(
            seed,
            #[trigger] r2[b],
            #[trigger] r2[a],
        ) by {
            assert(r2[a] == s2[a + 1] && r2[b] == s2[b + 1]);
        }
        lemma_sorted_unique(seed, r1, r2);
        assert(s1 =~= seq![x] + r1);
        assert(s2 =~= seq![y] + r2);
    }
}

/// Splitting depends on which ids are given, never on their order: two inputs with the same
/// ids, counted with repetition, are split identically.
pub proof fn law_split_ignores_input_order(
    seed: u64,
    a: Seq<Seq<char>>,
    b: Seq<Seq<char>>,
    ra: Seq<(Seq<char>, Split)>,
    rb: Seq<(Seq<char>, Split)>,
)
    requires
        a.to_multiset() == b.to_multiset(),
        is_split_of(seed, a, ra),
        is_split_of(seed, b, rb),
    ensures
        ra == rb,
{
    lemma_sorted_unique(seed, split_ids_of(ra), split_ids_of(rb));
    vstd::seq_lib::to_multiset_len(a);
    vstd::seq_lib::to_multiset_len(b);
    assert(a.len() == b.len());
    assert forall|i: int| 0 <= i < ra.len() implies ra[i] == rb[i] by {
        assert(split_ids_of(ra)[i] == split_ids_of(rb)[i]);
    }
    assert(ra =~= rb);
}

/// Whether `(ka, a)` is ordered before `(kb, b)`, keys first.
fn key_pair_less(ka: &String, a: &String, kb: &String, b: &String) -> (r: bool)
    ensures
        r == (text_lt(ka@, kb@) || (ka@ == kb@ && text_lt(a@, b@))),
{
    if text_less(ka.as_str(), kb.as_str()) {
        true
    } else if text_less(kb.as_str(), ka.as_str()) {
        proof {
            lemma_text_lt_order(kb@, ka@, ka@);
        }
        false
    } else {
        proof {
            lemma_text_lt_order(ka@, kb@, kb@);
        }
        text_less(a.as_str(), b.as_str())
    }
}

/// The ids of a keyed list, in order.
pub open spec fn keyed_ids(v: Seq<(String, String)>) -> Seq<Seq<char>> {
    v.map_values(|p: (String, String)| p.1@)
}

/// Assign each id to a split, stratified within the group it is called for (one call per
/// project): ids are ordered by `blake3(seed ‖ id)`, the first 30% are `Dev`, the next 55%
/// `Test`, the rest `Holdout`. Deterministic for a given seed whatever the input order
/// (see [`law_split_ignores_input_order`]). Each id comes back with its split, in key order.
pub fn split_ids(seed: u64, ids: &Vec<String>) -> (r: Vec<(String, Split)>)
    ensures
        is_split_of(seed, texts(ids@), split_view(r@)),
{
    let mut order: Vec<(String, String)> = Vec::new();
    let mut j: usize = 0;
    while j < ids.len()
        invariant
            j <= ids.len(),
            order.len() == j,
            forall|q: int|
                0 <= q < order.len() ==> (#[trigger] order@[q]).0@ == seeded_key_of(
                    seed,
                    order@[q].1@,
                ),
            keyed_ids(order@).to_multiset() == texts(ids@).take(j as int).to_multiset(),
            sorted_by_key(seed, keyed_ids(order@)),
        decreases ids.len() - j,
    {
        let id = ids[j].clone();
        let key = seeded_key(seed, id.as_str());
        let ghost s = keyed_ids(order@);
        let mut p: usize = 0;
        let mut done = false;
        while !done && p < order.len()
            invariant
                p <= order.len(),
                s == keyed_ids(order@),
                key@ == seeded_key_of(seed, id@),
                forall|q: int|
                    0 <= q < order.len() ==> (#[trigger] order@[q]).0@ == seeded_key_of(
                        seed,
                        order@[q].1@,
                    ),
                forall|q: int| 0 <= q < p ==> id_before(seed, #[trigger] s[q], id@),
                done ==> p < order.len() && !id_before(seed, s[p as int], id@),
            decreases order.len() - p, (if done { 0int } else { 1int }),
        {
            if key_pair_less(&order[p].0, &order[p].1, &key, &id) {
                p = p + 1;
            } else {
                done = true;
            }
        }
        proof {
            lemma_insert_sorted(seed, s, p as int, id@);
        }
        let ghost before = order@;
        order.insert(p, (key, id));
        proof {
            assert(keyed_ids(order@) =~= s.insert(p as int, ids@[j as int]@));
            assert(texts(ids@).take(j + 1) =~= texts(ids@).take(j as int).push(ids@[j as int]@));
            assert forall|q: int| 0 <= q < order.len() implies (#[trigger] order@[q]).0@
                == seeded_key_of(seed, order@[q].1@) by {
                if q > p {
                    assert(order@[q] == before[q - 1]);
                } else if q < p {
                    assert(order@[q] == before[q]);
                }
            }
        }
        j = j + 1;
    }
    proof {
        assert(texts(ids@).take(ids.len() as int) =~= texts(ids@));
    }
    let n = order.len();
    assert((n as int) * 30 / 100 <= n && (n as int) * 55 / 100 <= n) by (nonlinear_arith);
    let dev_end: usize = ((n as u128) * 30 / 100) as usize;
    let test_part: usize = ((n as u128) * 55 / 100) as usize;
    assert((n as int) * 30 / 100 + (n as int) * 55 / 100 <= n) by (nonlinear_arith);
    let test_end: usize = dev_end + test_part;
    let mut r: Vec<(String, Split)> = Vec::new();
    let mut i: usize = 0;
    while i < n
        invariant
            i <= n,
            n == order.len(),
            dev_end == (n as int) * 30 / 100,
            test_end == (n as int) * 30 / 100 + (n as int) * 55 / 100,
            r.len() == i,
            forall|q: int|
                0 <= q < i ==> (#[trigger] split_view(r@)[q]) == (
                    order@[q].1@,
                    split_at(q, n as int),
                ),
        decreases n - i,
    {
        let split = if i < dev_end {
            Split::Dev
        } else if i < test_end {
            Split::Test
        } else {
            Split::Holdout
        };
        let id = order[i].1.clone();
        assert(id@ == order@[i as int].1@);
        assert(split == split_at(i as int, n as int));
        let ghost r_old = r@;
        r.push((id, split));
        proof {
            assert(split_view(r@)[i as int] == (order@[i as int].1@, split_at(i as int, n as int)));
            assert forall|q: int| 0 <= q < i + 1 implies (#[trigger] split_view(r@)[q]) == (
                order@[q].1@,
                split_at(q, n as int),
            ) by {
                if q < i {
                    assert(r@[q] == r_old[q]);
                    assert(split_view(r_old)[q] == (order@[q].1@, split_at(q, n as int)));
                }
            }
        }
        i = i + 1;
    }
    proof {
        let v = split_view(r@);
        assert(split_ids_of(v) =~= keyed_ids(order@));
        assert forall|q: int| 0 <= q < v.len() implies (#[trigger] v[q]).1 == split_at(
            q,
            v.len() as int,
        ) by {}
    }
    r
}

} // verus!

verus! {

/// How many entries of a split result have split `s`.
pub open spec fn count_split(r: Seq<(Seq<char>, Split)>, s: Split) -> nat
    decreases r.len(),
{
    if r.len() == 0 {
        0
    } else {
        count_split(r.drop_last(), s) + if r.last().1 == s { 1nat } else { 0nat }
    }
}

proof fn lemma_split_counts_prefix(r: Seq<(Seq<char>, Split)>, n: int, m: int)
    requires
        0 <= m <= r.len(),
        n == r.len(),
        n * 30 / 100 + n * 55 / 100 <= n,
        forall|i: int| 0 <= i < r.len() ==> (#[trigger] r[i]).1 == split_at(i, n),
    ensures
        ({
            let d = n * 30 / 100;
            let t = n * 55 / 100;
            &&& count_split(r.take(m), Split::Dev) == if m < d { m } else { d }
            &&& count_split(r.take(m), Split::Test) == if m < d { 0 } else if m < d + t { m - d } else { t }
            &&& count_split(r.take(m), Split::Holdout) == if m < d + t { 0 } else { m - d - t }
        }),
    decreases m,
{
    if m > 0 {
        lemma_split_counts_prefix(r, n, m - 1);
        assert(r.take(m).drop_last() =~= r.take(m - 1));
        assert(r.take(m).last() == r[m - 1]);
    }
}

/// A split's sizes follow from the number of ids alone: of `n` ids, `n * 30 / 100` are
/// `Dev`, `n * 55 / 100` are `Test` and the rest are `Holdout` (100 ids give 30, 55 and 15;
/// a single id is `Holdout`).
pub proof fn law_split_sizes(seed: u64, ids: Seq<Seq<char>>, r: Seq<(Seq<char>, Split)>)
    requires
        is_split_of(seed, ids, r),
    ensures
        count_split(r, Split::Dev) == ids.len() * 30 / 100,
        count_split(r, Split::Test) == ids.len() * 55 / 100,
        count_split(r, Split::Holdout) == ids.len() - ids.len() * 30 / 100 - ids.len() * 55 / 100,
{
    let n = r.len() as int;
    assert(n * 30 / 100 + n * 55 / 100 <= n) by (nonlinear_arith)
        requires
            n >= 0,
    ;
    lemma_split_counts_prefix(r, n, n);
    assert(r.take(n) =~= r);
}

} // verus!
