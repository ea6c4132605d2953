//! JSON values as the library holds them (objects keep their members in key order, as
//! `serde_json::Map` does by default), and the rewrite that turns a schema's `oneOf` encoding
//! of a unit enum into a plain `{"type": "string", "enum": [...]}`.

use vstd::prelude::*;
use crate::text::{join, join_of, lemma_text_lt_order, push_str, same_text, text_less, text_lt, texts};

verus! {

/// A JSON value.
#[derive(Debug, PartialEq, Eq)]
pub enum Json {
    /// `null`.
    Null,
    /// `true` or `false`.
    Bool(bool),
    /// A number, as its text.
    Number(String),
    /// A string.
    Str(String),
    /// An array.
    Array(Vec<Json>),
    /// An object: its members in key order.
    Object(Vec<(String, Json)>),
}

/// The mathematical form of a JSON value.
pub enum JsonV {
    /// `null`.
    Null,
    /// `true` or `false`.
    Bool(bool),
    /// A number, as its text.
    Number(Seq<char>),
    /// A string.
    Str(Seq<char>),
    /// An array.
    Array(Seq<JsonV>),
    /// An object.
    Object(Seq<(Seq<char>, JsonV)>),
}

/// The view of a list of values.
pub open spec fn view_items(items: Seq<Json>) -> Seq<JsonV>
    decreases items, 0int,
{
    if items.len() == 0 {
        Seq::empty()
    } else {
        view_items(items.drop_last()).push(json_view(items.last()))
    }
}

/// The view of a list of members.
pub open spec fn view_members(m: Seq<(String, Json)>) -> Seq<(Seq<char>, JsonV)>
    decreases m, 0int,
{
    if m.len() == 0 {
        Seq::empty()
    } else {
        view_members(m.drop_last()).push((m.last().0@, json_view(m.last().1)))
    }
}

/// The view of a value.
pub open spec fn json_view(j: Json) -> JsonV
    decreases j, 1int,
{
    match j {
        Json::Null => JsonV::Null,
        Json::Bool(b) => JsonV::Bool(b),
        Json::Number(n) => JsonV::Number(n@),
        Json::Str(s) => JsonV::Str(s@),
        Json::Array(v) => JsonV::Array(view_items(v@)),
        Json::Object(m) => JsonV::Object(view_members(m@)),
    }
}

/// Views of lists grow element by element.
proof fn lemma_view_items_len(items: Seq<Json>)
    ensures
        view_items(items).len() == items.len(),
        forall|i: int| 0 <= i < items.len() ==> view_items(items)[i] == json_view(#[trigger] items[i]),
    decreases items.len(),
{
    if items.len() > 0 {
        lemma_view_items_len(items.drop_last());
        assert forall|i: int| 0 <= i < items.len() implies view_items(items)[i] == json_view(#[trigger] items[i]) by {
            if i < items.len() - 1 {
                assert(items.drop_last()[i] == items[i]);
            }
        }
    }
}

proof fn lemma_view_members_len(m: Seq<(String, Json)>)
    ensures
        view_members(m).len() == m.len(),
        forall|i: int|
            0 <= i < m.len() ==> view_members(m)[i] == ((#[trigger] m[i]).0@, json_view(m[i].1)),
    decreases m.len(),
{
    if m.len() > 0 {
        lemma_view_members_len(m.drop_last());
        assert forall|i: int| 0 <= i < m.len() implies view_members(m)[i] == ((#[trigger] m[i]).0@, json_view(m[i].1)) by {
            if i < m.len() - 1 {
                assert(m.drop_last()[i] == m[i]);
            }
        }
    }
}

/// The number of nodes of a value.
pub open spec fn json_size(j: JsonV) -> nat
    decreases j, 1int,
{
    match j {
        JsonV::Array(v) => 1 + items_size(v),
        JsonV::Object(m) => 1 + members_size(m),
        _ => 1,
    }
}

/// The number of nodes of a list of values.
pub open spec fn items_size(v: Seq<JsonV>) -> nat
    decreases v, 0int,
{
    if v.len() == 0 {
        0
    } else {
        items_size(v.drop_last()) + json_size(v.last())
    }
}

/// The number of nodes of a list of members' values.
pub open spec fn members_size(m: Seq<(Seq<char>, JsonV)>) -> nat
    decreases m, 0int,
{
    if m.len() == 0 {
        0
    } else {
        members_size(m.drop_last()) + json_size(m.last().1)
    }
}

proof fn lemma_member_size_below(m: Seq<(Seq<char>, JsonV)>)
    ensures
        forall|i: int| 0 <= i < m.len() ==> json_size((#[trigger] m[i]).1) <= members_size(m),
    decreases m.len(),
{
    if m.len() > 0 {
        lemma_member_size_below(m.drop_last());
        assert forall|i: int| 0 <= i < m.len() implies json_size((#[trigger] m[i]).1) <= members_size(m) by {
            if i < m.len() - 1 {
                assert(m[i] == m.drop_last()[i]);
            }
        }
    }
}

proof fn lemma_item_size_below(v: Seq<JsonV>)
    ensures
        forall|i: int| 0 <= i < v.len() ==> json_size(#[trigger] v[i]) <= items_size(v),
    decreases v.len(),
{
    if v.len() > 0 {
        lemma_item_size_below(v.drop_last());
        assert forall|i: int| 0 <= i < v.len() implies json_size(#[trigger] v[i]) <= items_size(v) by {
            if i < v.len() - 1 {
                assert(v[i] == v.drop_last()[i]);
            }
        }
    }
}

// ----- members as an ordered map -----

/// The value of the first member with key `k`.
pub open spec fn m_get(m: Seq<(Seq<char>, JsonV)>, k: Seq<char>) -> Option<JsonV>
    decreases m.len(),
{
    if m.len() == 0 {
        None
    } else if m[0].0 == k {
        Some(m[0].1)
    } else {
        m_get(m.drop_first(), k)
    }
}

/// The members without key `k`, the others in order.
pub open spec fn m_remove(m: Seq<(Seq<char>, JsonV)>, k: Seq<char>) -> Seq<(Seq<char>, JsonV)>
    decreases m.len(),
{
    if m.len() == 0 {
        m
    } else if m.last().0 == k {
        m_remove(m.drop_last(), k)
    } else {
        m_remove(m.drop_last(), k).push(m.last())
    }
}

/// Where key `k` goes: the first member whose key is not before `k`.
pub open spec fn put_pos(m: Seq<(Seq<char>, JsonV)>, k: Seq<char>) -> int
    decreases m.len(),
{
    if m.len() == 0 {
        0
    } else if !text_lt(m[0].0, k) {
        0
    } else {
        1 + put_pos(m.drop_first(), k)
    }
}

/// The members with `k` set to `v`: the member at [`put_pos`] is replaced when it has key
/// `k`, else the new member goes in before it (ordered-map insertion).
pub open spec fn m_put(m: Seq<(Seq<char>, JsonV)>, k: Seq<char>, v: JsonV) -> Seq<(Seq<char>, JsonV)> {
    let p = put_pos(m, k);
    if p < m.len() && m[p].0 == k {
        m.update(p, (k, v))
    } else {
        m.insert(p, (k, v))
    }
}

proof fn lemma_put_pos(m: Seq<(Seq<char>, JsonV)>, k: Seq<char>, p: int)
    requires
        0 <= p <= m.len(),
        forall|q: int| 0 <= q < p ==> text_lt((#[trigger] m[q]).0, k),
        p < m.len() ==> !text_lt(m[p].0, k),
    ensures
        put_pos(m, k) == p,
    decreases p,
{
    if p > 0 {
        assert forall|q: int| 0 <= q < p - 1 implies text_lt((#[trigger] m.drop_first()[q]).0, k) by {
            assert(m.drop_first()[q] == m[q + 1]);
        }
        lemma_put_pos(m.drop_first(), k, p - 1);
    }
}

proof fn lemma_put_pos_bound(m: Seq<(Seq<char>, JsonV)>, k: Seq<char>)
    ensures
        0 <= put_pos(m, k) <= m.len(),
    decreases m.len(),
{
    if m.len() > 0 {
        lemma_put_pos_bound(m.drop_first(), k);
    }
}

// ----- the enum rewrite -----

/// The `const` string of a `oneOf` item and its `description` string, if the item is an
/// object with a string `const`.
pub open spec fn item_const(item: JsonV) -> Option<(Seq<char>, Option<Seq<char>>)> {
    match item {
        JsonV::Object(m) => match m_get(m, "const"@) {
            Some(JsonV::Str(c)) => Some(
                (
                    c,
                    match m_get(m, "description"@) {
                        Some(JsonV::Str(d)) => Some(d),
                        _ => None,
                    },
                ),
            ),
            _ => None,
        },
        _ => None,
    }
}

/// The note of a variant: `` `c`: d ``.
pub open spec fn note_of(c: Seq<char>, d: Seq<char>) -> Seq<char> {
    "`"@ + c + "`: "@ + d
}

/// The values and notes of a `oneOf` list, if every item has a string `const`.
pub open spec fn one_of_enum(items: Seq<JsonV>) -> Option<(Seq<JsonV>, Seq<Seq<char>>)>
    decreases items.len(),
{
    if items.len() == 0 {
        Some((Seq::empty(), Seq::empty()))
    } else {
        match one_of_enum(items.drop_last()) {
            None => None,
            Some(prev) => match item_const(items.last()) {
                None => None,
                Some(cd) => Some(
                    (
                        prev.0.push(JsonV::Str(cd.0)),
                        match cd.1 {
                            Some(d) => prev.1.push(note_of(cd.0, d)),
                            None => prev.1,
                        },
                    ),
                ),
            },
        }
    }
}

/// An object's members with a unit-enum `oneOf` rewritten: `oneOf` removed, `type` set to
/// `"string"`, `enum` set to the variants' `const` strings, and (when any variant has a
/// description) the notes appended to the object's own description string. Members whose
/// `oneOf` is not such a list are left alone.
pub open spec fn rewrite_of(m: Seq<(Seq<char>, JsonV)>) -> Seq<(Seq<char>, JsonV)> {
    match m_get(m, "oneOf"@) {
        Some(JsonV::Array(items)) => match one_of_enum(items) {
            Some(ve) => {
                let m1 = m_put(m_put(m_remove(m, "oneOf"@), "type"@, JsonV::Str("string"@)), "enum"@, JsonV::Array(ve.0));
                if ve.1.len() == 0 {
                    m1
                } else {
                    let d0 = match m_get(m1, "description"@) {
                        Some(JsonV::Str(d)) => d,
                        _ => Seq::empty(),
                    };
                    let d1 = if d0.len() > 0 { d0 + " "@ } else { d0 };
                    m_put(m1, "description"@, JsonV::Str(d1 + join_of(ve.1, " "@)))
                }
            },
            None => m,
        },
        _ => m,
    }
}

/// A value with every object rewritten (see [`rewrite_of`]), the parent before its
/// children, down the whole tree.
pub open spec fn simplify_of(j: JsonV) -> JsonV
    decreases json_size(j), 1int, 0nat,
{
    match j {
        JsonV::Array(v) => JsonV::Array(simplify_items(v, json_size(j))),
        JsonV::Object(m) => JsonV::Object(simplify_members(rewrite_of(m), json_size(j))),
        _ => j,
    }
}

/// The items, each simplified (every item is smaller than `bound`).
pub open spec fn simplify_items(v: Seq<JsonV>, bound: nat) -> Seq<JsonV>
    decreases bound, 0int, v.len(),
{
    if v.len() == 0 {
        Seq::empty()
    } else {
        simplify_items(v.drop_last(), bound).push(
            if json_size(v.last()) < bound {
                simplify_of(v.last())
            } else {
                v.last()
            },
        )
    }
}

/// The members, each value simplified (every value is smaller than `bound`).
pub open spec fn simplify_members(m: Seq<(Seq<char>, JsonV)>, bound: nat) -> Seq<(Seq<char>, JsonV)>
    decreases bound, 0int, m.len(),
{
    if m.len() == 0 {
        Seq::empty()
    } else {
        simplify_members(m.drop_last(), bound).push(
            (
                m.last().0,
                if json_size(m.last().1) < bound {
                    simplify_of(m.last().1)
                } else {
                    m.last().1
                },
            ),
        )
    }
}

} // verus!

verus! {

// ----- size facts behind the termination of the rewrite -----

/// Every member's value is smaller than `b`.
pub open spec fn values_below(m: Seq<(Seq<char>, JsonV)>, b: nat) -> bool {
    forall|i: int| 0 <= i < m.len() ==> json_size((#[trigger] m[i]).1) < b
}

proof fn lemma_get_size(m: Seq<(Seq<char>, JsonV)>, k: Seq<char>)
    ensures
        m_get(m, k) matches Some(v) ==> json_size(v) <= members_size(m),
    decreases m.len(),
{
    if m.len() > 0 {
        lemma_member_size_below(m);
        assert(m[0] == m[0]);
        lemma_get_size(m.drop_first(), k);
        lemma_members_size_drop_first(m);
    }
}

proof fn lemma_members_size_drop_first(m: Seq<(Seq<char>, JsonV)>)
    requires
        m.len() > 0,
    ensures
        members_size(m) == json_size(m[0].1) + members_size(m.drop_first()),
    decreases m.len(),
{
    assert(members_size(m) == members_size(m.drop_last()) + json_size(m.last().1));
    if m.len() > 1 {
        lemma_members_size_drop_first(m.drop_last());
        assert(m.drop_last().drop_first() =~= m.drop_first().drop_last());
        assert(m.drop_first().last() == m.last());
        assert(m.drop_last()[0] == m[0]);
        assert(members_size(m.drop_first()) == members_size(m.drop_first().drop_last()) + json_size(
            m.drop_first().last().1,
        ));
    } else {
        assert(m.drop_first().len() == 0);
        assert(m.drop_last().len() == 0);
        assert(members_size(m.drop_last()) == 0);
        assert(members_size(m.drop_first()) == 0);
        assert(m.last() == m[0]);
    }
}

proof fn lemma_remove_below(m: Seq<(Seq<char>, JsonV)>, k: Seq<char>, b: nat)
    requires
        values_below(m, b),
    ensures
        values_below(m_remove(m, k), b),
    decreases m.len(),
{
    if m.len() > 0 {
        assert(values_below(m.drop_last(), b)) by {
            assert forall|i: int| 0 <= i < m.drop_last().len() implies json_size((#[trigger] m.drop_last()[i]).1) < b by {
                assert(m.drop_last()[i] == m[i]);
            }
        }
        lemma_remove_below(m.drop_last(), k, b);
        assert(json_size(m[m.len() - 1].1) < b);
    }
}

proof fn lemma_put_below(m: Seq<(Seq<char>, JsonV)>, k: Seq<char>, v: JsonV, b: nat)
    requires
        values_below(m, b),
        json_size(v) < b,
    ensures
        values_below(m_put(m, k, v), b),
{
    lemma_put_pos_bound(m, k);
    let p = put_pos(m, k);
    let r = m_put(m, k, v);
    assert forall|i: int| 0 <= i < r.len() implies json_size((#[trigger] r[i]).1) < b by {
        if p < m.len() && m[p].0 == k {
            if i != p {
                assert(r[i] == m[i]);
            }
        } else {
            if i < p {
                assert(r[i] == m[i]);
            } else if i > p {
                assert(r[i] == m[i - 1]);
            }
        }
    }
}

proof fn lemma_one_of_sizes(items: Seq<JsonV>)
    ensures
        one_of_enum(items) matches Some(ve) ==> ve.0.len() == items.len() && items_size(ve.0) == items.len()
            && items_size(items) >= 2 * items.len(),
    decreases items.len(),
{
    if items.len() > 0 {
        lemma_one_of_sizes(items.drop_last());
        if let Some(ve) = one_of_enum(items) {
            let prev = one_of_enum(items.drop_last()).unwrap();
            let item = items.last();
            let cd = item_const(item).unwrap();
            if let JsonV::Object(om) = item {
                lemma_get_size(om, "const"@);
                assert(json_size(JsonV::Str(cd.0)) == 1);
                assert(json_size(item) >= 2);
            }
            assert(ve.0 == prev.0.push(JsonV::Str(cd.0)));
            assert(ve.0.drop_last() =~= prev.0);
            assert(items_size(ve.0) == items_size(prev.0) + 1);
        }
    }
}

/// Every value of a rewritten object is smaller than the object.
proof fn lemma_rewrite_below(m: Seq<(Seq<char>, JsonV)>)
    ensures
        values_below(rewrite_of(m), 1 + members_size(m)),
{
    let b = 1 + members_size(m);
    lemma_member_size_below(m);
    assert(values_below(m, b));
    match m_get(m, "oneOf"@) {
        Some(JsonV::Array(items)) => match one_of_enum(items) {
            Some(ve) => {
                lemma_get_size(m, "oneOf"@);
                lemma_one_of_sizes(items);
                lemma_remove_below(m, "oneOf"@, b);
                let m0 = m_remove(m, "oneOf"@);
                lemma_put_below(m0, "type"@, JsonV::Str("string"@), b);
                let mt = m_put(m0, "type"@, JsonV::Str("string"@));
                assert(json_size(JsonV::Array(ve.0)) == 1 + items_size(ve.0));
                lemma_put_below(mt, "enum"@, JsonV::Array(ve.0), b);
                let m1 = m_put(mt, "enum"@, JsonV::Array(ve.0));
                if ve.1.len() > 0 {
                    let d0 = match m_get(m1, "description"@) {
                        Some(JsonV::Str(d)) => d,
                        _ => Seq::empty(),
                    };
                    let d1 = if d0.len() > 0 { d0 + " "@ } else { d0 };
                    lemma_put_below(m1, "description"@, JsonV::Str(d1 + join_of(ve.1, " "@)), b);
                }
            },
            None => {},
        },
        _ => {},
    }
}

// ----- executable operations on members -----

/// The index of the first member with key `k`.
fn member_index(m: &Vec<(String, Json)>, k: &str) -> (r: Option<usize>)
    ensures
        match m_get(view_members(m@), k@) {
            Some(v) => r matches Some(i) && i < m@.len() && m@[i as int].0@ == k@ && json_view(m@[i as int].1) == v,
            None => r is None,
        },
{
    proof {
        lemma_view_members_len(m@);
    }
    let ghost mv = view_members(m@);
    let mut i: usize = 0;
    assert(mv.skip(0) =~= mv);
    while i < m.len()
        invariant
            i <= m.len(),
            mv == view_members(m@),
            mv.len() == m@.len(),
            forall|q: int| 0 <= q < m@.len() ==> mv[q] == ((#[trigger] m@[q]).0@, json_view(m@[q].1)),
            m_get(mv, k@) == m_get(mv.skip(i as int), k@),
        decreases m.len() - i,
    {
        assert(mv.skip(i as int)[0] == mv[i as int]);
        if same_text(m[i].0.as_str(), k) {
            return Some(i);
        }
        assert(mv.skip(i as int).drop_first() =~= mv.skip(i + 1));
        i = i + 1;
    }
    None
}

/// The members without key `k`.
fn remove_key(m: Vec<(String, Json)>, k: &str) -> (r: Vec<(String, Json)>)
    ensures
        view_members(r@) == m_remove(view_members(m@), k@),
{
    let ghost orig = m@;
    let total = m.len();
    assert(orig.len() == total);
    let mut m = m;
    let mut out: Vec<(String, Json)> = Vec::new();
    let mut done: usize = 0;
    assert(orig.skip(0) =~= orig);
    assert(orig.take(0) =~= Seq::<(String, Json)>::empty());
    while m.len() > 0
        invariant
            orig.len() == done + m.len(),
            done <= orig.len(),
            orig.len() <= usize::MAX,
            m@ == orig.skip(done as int),
            view_members(out@) == m_remove(view_members(orig.take(done as int)), k@),
        decreases m.len(),
    {
        let ghost d = done as int;
        let e = m.remove(0);
        assert(e == orig[d]);
        assert(orig.skip(d).drop_first() =~= orig.skip(d + 1));
        assert(orig.take(d + 1).drop_last() =~= orig.take(d));
        assert(view_members(orig.take(d + 1)).drop_last() =~= view_members(orig.take(d)));
        if !same_text(e.0.as_str(), k) {
            let ghost before = out@;
            out.push(e);
            assert(out@.drop_last() =~= before);
        }
        done = done + 1;
    }
    assert(orig.take(orig.len() as int) =~= orig);
    out
}

proof fn lemma_view_update(m: Seq<(String, Json)>, p: int, e: (String, Json))
    requires
        0 <= p < m.len(),
    ensures
        view_members(m.update(p, e)) == view_members(m).update(p, (e.0@, json_view(e.1))),
{
    lemma_view_members_len(m);
    lemma_view_members_len(m.update(p, e));
    assert forall|i: int| 0 <= i < m.len() implies view_members(m.update(p, e))[i] == view_members(m).update(
        p,
        (e.0@, json_view(e.1)),
    )[i] by {
        if i != p {
            assert(m.update(p, e)[i] == m[i]);
        } else {
            assert(m.update(p, e)[i] == e);
        }
    }
    assert(view_members(m.update(p, e)) =~= view_members(m).update(p, (e.0@, json_view(e.1))));
}

proof fn lemma_view_insert(m: Seq<(String, Json)>, p: int, e: (String, Json))
    requires
        0 <= p <= m.len(),
    ensures
        view_members(m.insert(p, e)) == view_members(m).insert(p, (e.0@, json_view(e.1))),
{
    lemma_view_members_len(m);
    lemma_view_members_len(m.insert(p, e));
    assert forall|i: int| 0 <= i < m.len() + 1 implies view_members(m.insert(p, e))[i] == view_members(m).insert(
        p,
        (e.0@, json_view(e.1)),
    )[i] by {
        if i < p {
            assert(m.insert(p, e)[i] == m[i]);
        } else if i > p {
            assert(m.insert(p, e)[i] == m[i - 1]);
        }
    }
    assert(view_members(m.insert(p, e)) =~= view_members(m).insert(p, (e.0@, json_view(e.1))));
}

/// Set member `k` to `v` (see [`m_put`]).
fn put_member(m: &mut Vec<(String, Json)>, k: String, v: Json)
    ensures
        view_members(final(m)@) == m_put(view_members(old(m)@), k@, json_view(v)),
{
    proof {
        lemma_view_members_len(m@);
    }
    let ghost mv = view_members(m@);
    let mut p: usize = 0;
    while p < m.len() && text_less(m[p].0.as_str(), k.as_str())
        invariant
            p <= m.len(),
            mv == view_members(m@),
            mv.len() == m@.len(),
            forall|q: int| 0 <= q < m@.len() ==> mv[q] == ((#[trigger] m@[q]).0@, json_view(m@[q].1)),
            forall|q: int| 0 <= q < p ==> text_lt((#[trigger] mv[q]).0, k@),
        decreases m.len() - p,
    {
        p = p + 1;
    }
    proof {
        if p < m.len() {
            assert(mv[p as int].0 == m@[p as int].0@);
        }
        lemma_put_pos(mv, k@, p as int);
    }
    let ghost old_m = m@;
    if p < m.len() && same_text(m[p].0.as_str(), k.as_str()) {
        m.set(p, (k, v));
        proof {
            lemma_view_update(old_m, p as int, m@[p as int]);
        }
    } else {
        m.insert(p, (k, v));
        proof {
            lemma_view_insert(old_m, p as int, m@[p as int]);
        }
    }
}

} // verus!

verus! {

proof fn lemma_one_of_none_extends(items: Seq<JsonV>, j: int)
    requires
        0 <= j <= items.len(),
        one_of_enum(items.take(j)) is None,
    ensures
        one_of_enum(items) is None,
    decreases items.len() - j,
{
    if j == items.len() {
        assert(items.take(j) =~= items);
    } else {
        assert(items.take(j + 1).drop_last() =~= items.take(j));
        lemma_one_of_none_extends(items, j + 1);
    }
}

/// `` `c`: d ``.
fn note(c: &String, d: &String) -> (r: String)
    ensures
        r@ == note_of(c@, d@),
{
    let mut r = String::new();
    push_str(&mut r, "`");
    push_str(&mut r, c.as_str());
    push_str(&mut r, "`: ");
    push_str(&mut r, d.as_str());
    r
}

/// The string value of the first member with key `k`, if it is a string.
fn string_member(m: &Vec<(String, Json)>, k: &str) -> (r: Option<String>)
    ensures
        match m_get(view_members(m@), k@) {
            Some(JsonV::Str(s)) => r matches Some(t) && t@ == s,
            _ => r is None,
        },
{
    match member_index(m, k) {
        Some(i) => match &m[i].1 {
            Json::Str(s) => Some(s.clone()),
            _ => None,
        },
        None => None,
    }
}

/// The values and notes of a `oneOf` list (see [`one_of_enum`]).
fn enum_parts(items: &Vec<Json>) -> (r: Option<(Vec<Json>, Vec<String>)>)
    ensures
        match one_of_enum(view_items(items@)) {
            Some(ve) => r matches Some(p) && view_items(p.0@) == ve.0 && texts(p.1@) == ve.1,
            None => r is None,
        },
{
    proof {
        lemma_view_items_len(items@);
    }
    let ghost iv = view_items(items@);
    let mut vals: Vec<Json> = Vec::new();
    let mut notes: Vec<String> = Vec::new();
    let mut i: usize = 0;
    assert(iv.take(0) =~= Seq::<JsonV>::empty());
    while i < items.len()
        invariant
            i <= items.len(),
            iv == view_items(items@),
            iv.len() == items@.len(),
            forall|q: int| 0 <= q < items@.len() ==> iv[q] == json_view(#[trigger] items@[q]),
            one_of_enum(iv.take(i as int)) == Some((view_items(vals@), texts(notes@))),
        decreases items.len() - i,
    {
        let ghost t = iv.take(i + 1);
        assert(t.drop_last() =~= iv.take(i as int));
        assert(t.last() == json_view(items@[i as int]));
        let (c, desc) = match &items[i] {
            Json::Object(om) => match string_member(om, "const") {
                Some(c) => {
                    let desc = string_member(om, "description");
                    proof {
                        assert(json_view(items@[i as int]) == JsonV::Object(view_members(om@)));
                        assert(item_const(t.last()) == Some(
                            (
                                c@,
                                match desc {
                                    Some(d) => Some(d@),
                                    None => None::<Seq<char>>,
                                },
                            ),
                        ));
                    }
                    (c, desc)
                },
                None => {
                    proof {
                        assert(one_of_enum(t) is None);
                        lemma_one_of_none_extends(iv, i + 1);
                    }
                    return None;
                },
            },
            _ => {
                proof {
                    assert(one_of_enum(t) is None);
                    lemma_one_of_none_extends(iv, i + 1);
                }
                return None;
            },
        };
        let ghost before_v = vals@;
        let ghost before_n = texts(notes@);
        vals.push(Json::Str(c.clone()));
        assert(vals@.drop_last() =~= before_v);
        assert(json_view(vals@.last()) == JsonV::Str(c@));
        assert(view_items(vals@) == view_items(before_v).push(JsonV::Str(c@)));
        match desc {
            Some(d) => {
                notes.push(note(&c, &d));
                assert(texts(notes@) =~= before_n.push(note_of(c@, d@)));
            },
            None => {},
        }
        assert(one_of_enum(t) == Some((view_items(vals@), texts(notes@))));
        i = i + 1;
    }
    assert(iv.take(items.len() as int) =~= iv);
    Some((vals, notes))
}

/// An object's members with a unit-enum `oneOf` rewritten (see [`rewrite_of`]).
fn rewrite(m: Vec<(String, Json)>) -> (r: Vec<(String, Json)>)
    ensures
        view_members(r@) == rewrite_of(view_members(m@)),
{
    proof {
        reveal_strlit("oneOf");
        reveal_strlit("type");
        reveal_strlit("string");
        reveal_strlit("enum");
        reveal_strlit("description");
        reveal_strlit(" ");
    }
    let parts = match member_index(&m, "oneOf") {
        Some(i) => match &m[i].1 {
            Json::Array(items) => enum_parts(items),
            _ => {
                return m;
            },
        },
        None => {
            return m;
        },
    };
    let (vals, notes) = match parts {
        Some(p) => p,
        None => {
            return m;
        },
    };
    let mut m1 = remove_key(m, "oneOf");
    put_member(&mut m1, "type".to_string(), Json::Str("string".to_string()));
    put_member(&mut m1, "enum".to_string(), Json::Array(vals));
    if notes.len() > 0 {
        let mut desc = match string_member(&m1, "description") {
            Some(d) => d,
            None => String::new(),
        };
        let ghost d0 = desc@;
        if !crate::text::is_empty_text(desc.as_str()) {
            push_str(&mut desc, " ");
        }
        let joined = join(&notes, " ");
        push_str(&mut desc, joined.as_str());
        put_member(&mut m1, "description".to_string(), Json::Str(desc));
    }
    m1
}

/// Rewrite every `oneOf` encoding of a unit enum in a schema into the plain
/// `{"type": "string", "enum": [...]}` that every structured-output engine accepts, folding
/// the variants' descriptions into the parent description (see [`simplify_of`]).
pub fn simplify_enums(j: Json) -> (r: Json)
    ensures
        json_view(r) == simplify_of(json_view(j)),
    decreases json_size(json_view(j)),
{
    let ghost j0 = json_view(j);
    match j {
        Json::Array(items) => {
            let ghost orig = items@;
            proof {
                lemma_view_items_len(orig);
                lemma_item_size_below(view_items(orig));
            }
            let total = items.len();
            let mut items = items;
            let mut out: Vec<Json> = Vec::new();
            let mut done: usize = 0;
            assert(orig.skip(0) =~= orig);
            assert(orig.take(0) =~= Seq::<Json>::empty());
            while items.len() > 0
                invariant
                    orig.len() == total,
                    j0 == json_view(j),
                    total == done + items.len(),
                    items@ == orig.skip(done as int),
                    j0 == JsonV::Array(view_items(orig)),
                    forall|q: int| 0 <= q < orig.len() ==> json_size(json_view(#[trigger] orig[q])) < json_size(j0),
                    view_items(out@) == simplify_items(view_items(orig.take(done as int)), json_size(j0)),
                decreases items.len(),
            {
                let ghost d = done as int;
                let x = items.remove(0);
                assert(x == orig[d]);
                assert(orig.skip(d).drop_first() =~= orig.skip(d + 1));
                let y = simplify_enums(x);
                let ghost before = out@;
                out.push(y);
                assert(out@.drop_last() =~= before);
                assert(orig.take(d + 1).drop_last() =~= orig.take(d));
                assert(view_items(orig.take(d + 1)).drop_last() =~= view_items(orig.take(d)));
                done = done + 1;
            }
            assert(orig.take(orig.len() as int) =~= orig);
            Json::Array(out)
        },
        Json::Object(m) => {
            let ghost mv = view_members(m@);
            let m2 = rewrite(m);
            let ghost orig = m2@;
            proof {
                lemma_rewrite_below(mv);
                lemma_view_members_len(orig);
            }
            let total = m2.len();
            let mut m2 = m2;
            let mut out: Vec<(String, Json)> = Vec::new();
            let mut done: usize = 0;
            assert(orig.skip(0) =~= orig);
            assert(orig.take(0) =~= Seq::<(String, Json)>::empty());
            while m2.len() > 0
                invariant
                    orig.len() == total,
                    j0 == json_view(j),
                    total == done + m2.len(),
                    m2@ == orig.skip(done as int),
                    j0 == JsonV::Object(mv),
                    view_members(orig) == rewrite_of(mv),
                    forall|q: int| 0 <= q < orig.len() ==> json_size(json_view((#[trigger] orig[q]).1)) < json_size(j0),
                    view_members(out@) == simplify_members(view_members(orig.take(done as int)), json_size(j0)),
                decreases m2.len(),
            {
                let ghost d = done as int;
                let (k, v) = m2.remove(0);
                assert((k, v) == orig[d]);
                assert(orig.skip(d).drop_first() =~= orig.skip(d + 1));
                let w = simplify_enums(v);
                let ghost before = out@;
                out.push((k, w));
                assert(out@.drop_last() =~= before);
                assert(orig.take(d + 1).drop_last() =~= orig.take(d));
                assert(view_members(orig.take(d + 1)).drop_last() =~= view_members(orig.take(d)));
                done = done + 1;
            }
            assert(orig.take(orig.len() as int) =~= orig);
            Json::Object(out)
        },
        other => other,
    }
}

} // verus!
