//! Ordered sets of texts: the distinct texts of a list, in increasing order, as a
//! `BTreeSet<String>` iterates them.
//!
//! The crate keeps its text-keyed sets and maps as sorted `Vec`s (here) and as association
//! lists of distinct keys (where a map is needed) rather than as `BTreeSet<String>`,
//! `BTreeMap<String, _>` or `HashMap<String, _>`: vstd specifies those std collections well
//! for integer keys, but with `String` keys Verus accepts the calls and proves next to nothing
//! of what they return, so the contracts below could not be stated over them. The order and
//! uniqueness those collections give are stated here as invariants instead.

use vstd::prelude::*;
use crate::text::{lemma_text_lt_order, same_text, text_less, text_lt, texts};

verus! {

/// Texts in strictly increasing order (so each once).
pub open spec fn strictly_sorted(s: Seq<Seq<char>>) -> bool {
    forall|i: int, j: int| 0 <= i < j < s.len() ==> text_lt(#[trigger] s[i], #[trigger] s[j])
}

/// `r` holds exactly the texts of `v`.
pub open spec fn same_members(r: Seq<Seq<char>>, v: Seq<Seq<char>>) -> bool {
    forall|x: Seq<char>| #![trigger r.contains(x)] #![trigger v.contains(x)] r.contains(x) <==> v.contains(x)
}

/// Insert `x` into a strictly sorted list, unless it is there.
pub fn insert_sorted(r: &mut Vec<String>, x: &String)
    requires
        strictly_sorted(texts(old(r)@)),
    ensures
        strictly_sorted(texts(final(r)@)),
        forall|y: Seq<char>| #[trigger] texts(final(r)@).contains(y) <==> (texts(old(r)@).contains(y) || y == x@),
{
    let ghost before = texts(r@);
    let mut p: usize = 0;
    while p < r.len() && text_less(r[p].as_str(), x.as_str())
        invariant
            p <= r.len(),
            before == texts(r@),
            forall|i: int| 0 <= i < p ==> text_lt(#[trigger] before[i], x@),
        decreases r.len() - p,
    {
        p = p + 1;
    }
    if p < r.len() && same_text(r[p].as_str(), x.as_str()) {
        assert(before[p as int] == x@);
        return;
    }
    if p < r.len() {
        proof {
            lemma_text_lt_order(before[p as int], x@, x@);
        }
    }
    r.insert(p, x.clone());
    proof {
        let after = texts(r@);
        assert(after =~= before.insert(p as int, x@));
        assert forall|i: int, j: int| 0 <= i < j < after.len() implies text_lt(
            #[trigger] after[i],
            #[trigger] after[j],
        ) by {
            if j < p {
                assert(text_lt(before[i], before[j]));
            } else if j == p {
            } else if i < p {
                if j - 1 > p {
                    assert(text_lt(before[p as int], before[j - 1]));
                    lemma_text_lt_order(x@, before[p as int], before[j - 1]);
                }
                lemma_text_lt_order(before[i], x@, before[j - 1]);
            } else if i == p {
                if j - 1 > p {
                    assert(text_lt(before[p as int], before[j - 1]));
                    lemma_text_lt_order(x@, before[p as int], before[j - 1]);
                }
            } else {
                assert(text_lt(before[i - 1], before[j - 1]));
            }
        }
        assert forall|y: Seq<char>| #[trigger] after.contains(y) <==> (before.contains(y) || y == x@) by {
            if after.contains(y) {
                let k = choose|k: int| 0 <= k < after.len() && after[k] == y;
                if k < p {
                    assert(before[k] == y);
                } else if k > p {
                    assert(before[k - 1] == y);
                }
            }
            if before.contains(y) {
                let k = choose|k: int| 0 <= k < before.len() && before[k] == y;
                if k < p {
                    assert(after[k] == y);
                } else {
                    assert(after[k + 1] == y);
                }
            }
            if y == x@ {
                assert(after[p as int] == y);
            }
        }
    }
}

/// The distinct texts of `v`, in increasing order.
pub fn sorted_set(v: &Vec<String>) -> (r: Vec<String>)
    ensures
        strictly_sorted(texts(r@)),
        same_members(texts(r@), texts(v@)),
{
    let mut r: Vec<String> = Vec::new();
    let mut i: usize = 0;
    while i < v.len()
        invariant
            i <= v.len(),
            strictly_sorted(texts(r@)),
            forall|y: Seq<char>| #[trigger] texts(r@).contains(y) <==> texts(v@).take(i as int).contains(y),
        decreases v.len() - i,
    {
        let ghost before = texts(r@);
        insert_sorted(&mut r, &v[i]);
        proof {
            let pre = texts(v@).take(i as int);
            let post = texts(v@).take(i + 1);
            assert(post =~= pre.push(v@[i as int]@));
            assert forall|y: Seq<char>| #[trigger] texts(r@).contains(y) <==> post.contains(y) by {
                assert(texts(r@).contains(y) <==> (before.contains(y) || y == v@[i as int]@));
                assert(before.contains(y) <==> pre.contains(y));
                if y == v@[i as int]@ {
                    assert(post[i as int] == y);
                }
                if post.contains(y) {
                    let k = choose|k: int| 0 <= k < post.len() && post[k] == y;
                    if k < i {
                        assert(pre[k] == y);
                    }
                }
                if pre.contains(y) {
                    let k = choose|k: int| 0 <= k < pre.len() && pre[k] == y;
                    assert(post[k] == y);
                }
            }
        }
        i = i + 1;
    }
    assert(texts(v@).take(v.len() as int) =~= texts(v@));
    r
}

/// Two strictly sorted lists with the same members are the same list.
pub proof fn lemma_sorted_set_unique(a: Seq<Seq<char>>, b: Seq<Seq<char>>)
    requires
        strictly_sorted(a),
        strictly_sorted(b),
        same_members(a, b),
    ensures
        a == b,
    decreases a.len() + b.len(),
{
    if a.len() == 0 || b.len() == 0 {
        if a.len() > 0 {
            assert(a.contains(a[0]));
        }
        if b.len() > 0 {
            assert(b.contains(b[0]));
        }
        assert(a =~= b);
    } else {
        assert(a.contains(a[0]));
        assert(b.contains(b[0]));
        let i = choose|i: int| 0 <= i < a.len() && a[i] == b[0];
        let j = choose|j: int| 0 <= j < b.len() && b[j] == a[0];
        lemma_text_lt_order(a[0], b[0], a[0]);
        if i > 0 {
            assert(text_lt(a[0], a[i]));
        }
        if j > 0 {
            assert(text_lt(b[0], b[j]));
        }
        assert(a[0] == b[0]);
        let a1 = a.drop_first();
        let b1 = b.drop_first();
        assert forall|x: Seq<char>| #[trigger] a1.contains(x) <==> b1.contains(x) by {
            if a1.contains(x) {
                let k = choose|k: int| 0 <= k < a1.len() && a1[k] == x;
                assert(a[k + 1] == x);
                assert(text_lt(a[0], a[k + 1]));
                lemma_text_lt_order(a[0], x, x);
                assert(b.contains(x));
                let m = choose|m: int| 0 <= m < b.len() && b[m] == x;
                assert(m != 0);
                assert(b1[m - 1] == x);
            }
            if b1.contains(x) {
                let k = choose|k: int| 0 <= k < b1.len() && b1[k] == x;
                assert(b[k + 1] == x);
                assert(text_lt(b[0], b[k + 1]));
                lemma_text_lt_order(b[0], x, x);
                assert(a.contains(x));
                let m = choose|m: int| 0 <= m < a.len() && a[m] == x;
                assert(m != 0);
                assert(a1[m - 1] == x);
            }
        }
        assert forall|p: int, q: int| 0 <= p < q < a1.len() implies text_lt(#[trigger] a1[p], #[trigger] a1[q]) by {
            assert(text_lt(a[p + 1], a[q + 1]));
        }
        assert forall|p: int, q: int| 0 <= p < q < b1.len() implies text_lt(#[trigger] b1[p], #[trigger] b1[q]) by {
            assert(text_lt(b[p + 1], b[q + 1]));
        }
        lemma_sorted_set_unique(a1, b1);
        assert(a =~= seq![a[0]] + a1);
        assert(b =~= seq![b[0]] + b1);
    }
}

} // verus!
