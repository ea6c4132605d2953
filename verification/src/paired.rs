//! Paired comparison of two archived runs: for each project the questions are the same, so
//! a candidate is compared with its baseline question by question. This module checks that
//! the two sides pair up (same question ids, none repeated, not empty), lines them up in id
//! order, and counts wins, losses and ties; the means and the bootstrap intervals over those
//! pairs are computed around it.

use vstd::prelude::*;
use crate::sets::{same_members, sorted_set, strictly_sorted};
use crate::text::{lemma_text_lt_order, same_text, text_lt, texts};

verus! {

/// One project's two sides: `(question_id, success@5)` rows in any order.
#[derive(Debug, Clone, PartialEq, Eq)]
pub struct PairedInput {
    /// The project (or any label the report repeats).
    pub label: String,
    /// The reference run.
    pub baseline: Vec<(String, bool)>,
    /// The candidate run.
    pub candidate: Vec<(String, bool)>,
}

/// Everything that can go wrong in a paired comparison.
#[derive(Debug, Clone, PartialEq, Eq)]
pub enum PairedError {
    /// A results file could not be read.
    Io {
        /// The file.
        path: String,
        /// The operating system's message.
        message: String,
    },
    /// A results file is not the adapter's results file.
    Json {
        /// The file.
        path: String,
        /// The parser's message.
        message: String,
    },
    /// The named run is not in the file.
    RunNotFound {
        /// The file.
        path: String,
        /// The run looked for.
        run: String,
    },
    /// The two sides do not score the same questions.
    IdMismatch {
        /// The project.
        label: String,
        /// Ids only the baseline has.
        only_baseline: usize,
        /// Ids only the candidate has.
        only_candidate: usize,
        /// The first of them in id order, for the message.
        first: String,
    },
    /// A side lists the same question twice.
    Duplicate {
        /// The project.
        label: String,
        /// `baseline` or `candidate`.
        side: String,
        /// The id.
        id: String,
    },
    /// No questions at all.
    Empty {
        /// The project.
        label: String,
    },
    /// Fewer than two draws or no project.
    Invalid(String),
}

/// The ids of a side, in row order.
pub open spec fn side_ids(rows: Seq<(String, bool)>) -> Seq<Seq<char>> {
    rows.map_values(|r: (String, bool)| r.0@)
}

/// The first id that repeats an earlier one, at its second occurrence.
pub open spec fn first_repeat(ids: Seq<Seq<char>>) -> Option<Seq<char>>
    decreases ids.len(),
{
    if ids.len() == 0 {
        None
    } else {
        match first_repeat(ids.drop_last()) {
            Some(x) => Some(x),
            None => if ids.drop_last().contains(ids.last()) {
                Some(ids.last())
            } else {
                None
            },
        }
    }
}

/// How many of `s` are not members of `t`.
pub open spec fn count_outside(s: Seq<Seq<char>>, t: Seq<Seq<char>>) -> nat
    decreases s.len(),
{
    if s.len() == 0 {
        0
    } else {
        count_outside(s.drop_last(), t) + if t.contains(s.last()) { 0nat } else { 1nat }
    }
}

/// The outcome of the first row with id `id`.
pub open spec fn outcome_of(rows: Seq<(String, bool)>, id: Seq<char>) -> bool
    decreases rows.len(),
{
    if rows.len() == 0 {
        false
    } else if rows[0].0@ == id {
        rows[0].1
    } else {
        outcome_of(rows.drop_first(), id)
    }
}

/// `x` is a member of exactly one of `a` and `b`.
pub open spec fn in_one_side(x: Seq<char>, a: Seq<Seq<char>>, b: Seq<Seq<char>>) -> bool {
    a.contains(x) != b.contains(x)
}

/// The first repeated id of a side, if any (see [`first_repeat`]).
fn repeated(rows: &Vec<(String, bool)>) -> (r: Option<String>)
    ensures
        match first_repeat(side_ids(rows@)) {
            Some(x) => r matches Some(s) && s@ == x,
            None => r is None,
        },
{
    let ghost ids = side_ids(rows@);
    let mut i: usize = 0;
    while i < rows.len()
        invariant
            i <= rows.len(),
            ids == side_ids(rows@),
            first_repeat(ids.take(i as int)) is None,
        decreases rows.len() - i,
    {
        assert(ids.take(i + 1).drop_last() =~= ids.take(i as int));
        assert(ids.take(i + 1).last() == rows@[i as int].0@);
        let mut j: usize = 0;
        let mut seen = false;
        while j < i
            invariant
                j <= i < rows.len(),
                ids == side_ids(rows@),
                seen == exists|k: int| 0 <= k < j && #[trigger] ids[k] == ids[i as int],
            decreases i - j,
        {
            if same_text(rows[j].0.as_str(), rows[i].0.as_str()) {
                seen = true;
            }
            assert(ids[j as int] == rows@[j as int].0@);
            j = j + 1;
        }
        proof {
            let pre = ids.take(i as int);
            if seen {
                let k = choose|k: int| 0 <= k < i && #[trigger] ids[k] == ids[i as int];
                assert(pre[k] == ids[i as int]);
            }
            if pre.contains(ids[i as int]) {
                let k = choose|k: int| 0 <= k < pre.len() && pre[k] == ids[i as int];
                assert(ids[k] == ids[i as int]);
            }
        }
        if seen {
            proof {
                assert(first_repeat(ids.take(i + 1)) == Some(ids[i as int]));
                lemma_first_repeat_extends(ids, i + 1);
            }
            return Some(rows[i].0.clone());
        }
        i = i + 1;
    }
    assert(ids.take(rows.len() as int) =~= ids);
    None
}

/// A repeat found in a prefix is the first repeat of the whole.
proof fn lemma_first_repeat_extends(ids: Seq<Seq<char>>, j: int)
    requires
        0 <= j <= ids.len(),
        first_repeat(ids.take(j)) is Some,
    ensures
        first_repeat(ids) == first_repeat(ids.take(j)),
    decreases ids.len() - j,
{
    if j == ids.len() {
        assert(ids.take(j) =~= ids);
    } else {
        assert(ids.take(j + 1).drop_last() =~= ids.take(j));
        lemma_first_repeat_extends(ids, j + 1);
    }
}

/// How many ids of `rows` are not ids of `other`.
fn count_missing(rows: &Vec<(String, bool)>, other: &Vec<(String, bool)>) -> (n: usize)
    ensures
        n == count_outside(side_ids(rows@), side_ids(other@)),
        n <= rows.len(),
{
    let ghost ids = side_ids(rows@);
    let mut n: usize = 0;
    let mut i: usize = 0;
    while i < rows.len()
        invariant
            i <= rows.len(),
            ids == side_ids(rows@),
            n == count_outside(ids.take(i as int), side_ids(other@)),
            n <= i,
        decreases rows.len() - i,
    {
        assert(ids.take(i + 1).drop_last() =~= ids.take(i as int));
        assert(ids.take(i + 1).last() == rows@[i as int].0@);
        if !has_id(other, &rows[i].0) {
            n = n + 1;
        }
        i = i + 1;
    }
    assert(ids.take(rows.len() as int) =~= ids);
    n
}

fn has_id(rows: &Vec<(String, bool)>, id: &String) -> (b: bool)
    ensures
        b == side_ids(rows@).contains(id@),
{
    let mut i: usize = 0;
    while i < rows.len()
        invariant
            i <= rows.len(),
            forall|k: int| 0 <= k < i ==> rows@[k].0@ != id@,
        decreases rows.len() - i,
    {
        if same_text(rows[i].0.as_str(), id.as_str()) {
            assert(side_ids(rows@)[i as int] == id@);
            return true;
        }
        i = i + 1;
    }
    proof {
        if side_ids(rows@).contains(id@) {
            let k = choose|k: int| 0 <= k < side_ids(rows@).len() && side_ids(rows@)[k] == id@;
            assert(rows@[k].0@ == id@);
        }
    }
    false
}

fn outcome(rows: &Vec<(String, bool)>, id: &String) -> (b: bool)
    ensures
        b == outcome_of(rows@, id@),
{
    let mut i: usize = 0;
    assert(rows@.skip(0) =~= rows@);
    while i < rows.len()
        invariant
            i <= rows.len(),
            outcome_of(rows@, id@) == outcome_of(rows@.skip(i as int), id@),
        decreases rows.len() - i,
    {
        assert(rows@.skip(i as int)[0] == rows@[i as int]);
        if same_text(rows[i].0.as_str(), id.as_str()) {
            return rows[i].1;
        }
        assert(rows@.skip(i as int).drop_first() =~= rows@.skip(i + 1));
        i = i + 1;
    }
    false
}

fn dup_error(label: &String, side: &str, id: String) -> (e: PairedError)
    ensures
        e matches PairedError::Duplicate { label: l, side: s, id: i } && l == *label && s@ == side@ && i == id,
{
    PairedError::Duplicate { label: label.clone(), side: side.to_string(), id }
}

/// Line up the two sides of a project: each question id once, in increasing order, with the
/// baseline's and the candidate's outcome. Refused, in this order: an id a side repeats
/// (baseline first), different id sets (with how many ids each side alone has and the first
/// of those in id order), and an empty project.
pub fn align(input: &PairedInput) -> (r: Result<Vec<(String, bool, bool)>, PairedError>)
    ensures
        ({
            let b = side_ids(input.baseline@);
            let c = side_ids(input.candidate@);
            if first_repeat(b) is Some {
                r matches Err(PairedError::Duplicate { label, side, id }) && label == input.label && side@
                    == "baseline"@ && Some(id@) == first_repeat(b)
            } else if first_repeat(c) is Some {
                r matches Err(PairedError::Duplicate { label, side, id }) && label == input.label && side@
                    == "candidate"@ && Some(id@) == first_repeat(c)
            } else if !same_members(b, c) {
                r matches Err(PairedError::IdMismatch { label, only_baseline, only_candidate, first }) && label
                    == input.label && only_baseline == count_outside(b, c) && only_candidate
                    == count_outside(c, b) && in_one_side(first@, b, c) && forall|x: Seq<char>|
                    #[trigger] in_one_side(x, b, c) ==> !text_lt(x, first@)
            } else if b.len() == 0 {
                r matches Err(PairedError::Empty { label }) && label == input.label
            } else {
                r matches Ok(pairs) && strictly_sorted(pairs@.map_values(|p: (String, bool, bool)| p.0@))
                    && same_members(pairs@.map_values(|p: (String, bool, bool)| p.0@), b) && forall|k: int|
                    0 <= k < pairs@.len() ==> (#[trigger] pairs@[k]).1 == outcome_of(input.baseline@, pairs@[k].0@)
                        && pairs@[k].2 == outcome_of(input.candidate@, pairs@[k].0@)
            }
        }),
{
    let ghost b = side_ids(input.baseline@);
    let ghost c = side_ids(input.candidate@);
    proof {
        reveal_strlit("baseline");
        reveal_strlit("candidate");
    }
    if let Some(id) = repeated(&input.baseline) {
        return Err(dup_error(&input.label, "baseline", id));
    }
    if let Some(id) = repeated(&input.candidate) {
        return Err(dup_error(&input.label, "candidate", id));
    }
    let only_baseline = count_missing(&input.baseline, &input.candidate);
    let only_candidate = count_missing(&input.candidate, &input.baseline);
    proof {
        lemma_count_outside_zero(b, c);
        lemma_count_outside_zero(c, b);
    }
    if only_baseline > 0 || only_candidate > 0 {
        // the ids in exactly one side, in id order
        let mut odd: Vec<String> = Vec::new();
        let mut i: usize = 0;
        while i < input.baseline.len()
            invariant
                i <= input.baseline.len(),
                b == side_ids(input.baseline@),
                c == side_ids(input.candidate@),
                forall|x: Seq<char>| #[trigger] texts(odd@).contains(x) <==> (b.take(i as int).contains(x) && !c.contains(x)),
            decreases input.baseline.len() - i,
        {
            let ghost before = texts(odd@);
            assert(b.take(i + 1) =~= b.take(i as int).push(b[i as int]));
            if !has_id(&input.candidate, &input.baseline[i].0) {
                odd.push(input.baseline[i].0.clone());
                assert(texts(odd@) =~= before.push(b[i as int]));
            }
            proof {
                lemma_push_contains(b.take(i as int), b[i as int]);
                lemma_push_contains(before, b[i as int]);
            }
            i = i + 1;
        }
        assert(b.take(input.baseline.len() as int) =~= b);
        let mut j: usize = 0;
        while j < input.candidate.len()
            invariant
                j <= input.candidate.len(),
                b == side_ids(input.baseline@),
                c == side_ids(input.candidate@),
                forall|x: Seq<char>| #[trigger] texts(odd@).contains(x) <==> ((b.contains(x) && !c.contains(x)) || (
                    c.take(j as int).contains(x) && !b.contains(x))),
            decreases input.candidate.len() - j,
        {
            let ghost before = texts(odd@);
            assert(c.take(j + 1) =~= c.take(j as int).push(c[j as int]));
            if !has_id(&input.baseline, &input.candidate[j].0) {
                odd.push(input.candidate[j].0.clone());
                assert(texts(odd@) =~= before.push(c[j as int]));
            }
            proof {
                lemma_push_contains(c.take(j as int), c[j as int]);
                lemma_push_contains(before, c[j as int]);
            }
            j = j + 1;
        }
        assert(c.take(input.candidate.len() as int) =~= c);
        let sorted = sorted_set(&odd);
        proof {
            let sv = texts(sorted@);
            assert forall|x: Seq<char>| #[trigger] in_one_side(x, b, c) implies sv.contains(x) by {
                assert(texts(odd@).contains(x));
            }
            if only_baseline > 0 {
                lemma_count_outside_witness(b, c);
                let x = choose|x: Seq<char>| b.contains(x) && !c.contains(x);
                assert(in_one_side(x, b, c));
                assert(sv.contains(x));
            } else {
                lemma_count_outside_witness(c, b);
                let x = choose|x: Seq<char>| c.contains(x) && !b.contains(x);
                assert(in_one_side(x, b, c));
                assert(sv.contains(x));
            }
            assert(sv.len() > 0);
            assert(sv.contains(sv[0]));
            assert forall|x: Seq<char>| #[trigger] in_one_side(x, b, c) implies !text_lt(x, sv[0]) by {
                assert(sv.contains(x));
                let k = choose|k: int| 0 <= k < sv.len() && sv[k] == x;
                if k > 0 {
                    assert(text_lt(sv[0], sv[k]));
                    lemma_text_lt_order(sv[0], x, x);
                } else {
                    lemma_text_lt_order(x, x, x);
                }
            }
            assert(texts(odd@).contains(sv[0]));
        }
        let first = sorted[0].clone();
        return Err(PairedError::IdMismatch { label: input.label.clone(), only_baseline, only_candidate, first });
    }
    if input.baseline.len() == 0 {
        return Err(PairedError::Empty { label: input.label.clone() });
    }
    let mut ids: Vec<String> = Vec::new();
    let mut i: usize = 0;
    while i < input.baseline.len()
        invariant
            i <= input.baseline.len(),
            b == side_ids(input.baseline@),
            texts(ids@) == b.take(i as int),
        decreases input.baseline.len() - i,
    {
        let ghost before = texts(ids@);
        ids.push(input.baseline[i].0.clone());
        assert(texts(ids@) =~= before.push(b[i as int]));
        assert(b.take(i + 1) =~= b.take(i as int).push(b[i as int]));
        i = i + 1;
    }
    assert(b.take(input.baseline.len() as int) =~= b);
    let order = sorted_set(&ids);
    let mut pairs: Vec<(String, bool, bool)> = Vec::new();
    let mut k: usize = 0;
    while k < order.len()
        invariant
            k <= order.len(),
            pairs@.map_values(|p: (String, bool, bool)| p.0@) == texts(order@).take(k as int),
            forall|q: int|
                0 <= q < pairs@.len() ==> (#[trigger] pairs@[q]).1 == outcome_of(input.baseline@, pairs@[q].0@)
                    && pairs@[q].2 == outcome_of(input.candidate@, pairs@[q].0@),
        decreases order.len() - k,
    {
        let id = order[k].clone();
        let bo = outcome(&input.baseline, &id);
        let co = outcome(&input.candidate, &id);
        let ghost before = pairs@;
        pairs.push((id, bo, co));
        assert(pairs@.map_values(|p: (String, bool, bool)| p.0@) =~= before.map_values(
            |p: (String, bool, bool)| p.0@,
        ).push(order@[k as int]@));
        assert(texts(order@).take(k + 1) =~= texts(order@).take(k as int).push(order@[k as int]@));
        assert forall|q: int| 0 <= q < pairs@.len() implies (#[trigger] pairs@[q]).1 == outcome_of(
            input.baseline@,
            pairs@[q].0@,
        ) && pairs@[q].2 == outcome_of(input.candidate@, pairs@[q].0@) by {
            if q < k {
                assert(pairs@[q] == before[q]);
            }
        }
        k = k + 1;
    }
    assert(texts(order@).take(order.len() as int) =~= texts(order@));
    Ok(pairs)
}

proof fn lemma_push_contains(s: Seq<Seq<char>>, x: Seq<char>)
    ensures
        forall|y: Seq<char>| #[trigger] s.push(x).contains(y) <==> (s.contains(y) || y == x),
{
    assert forall|y: Seq<char>| #[trigger] s.push(x).contains(y) <==> (s.contains(y) || y == x) by {
        if s.push(x).contains(y) {
            let k = choose|k: int| 0 <= k < s.push(x).len() && s.push(x)[k] == y;
            if k < s.len() {
                assert(s[k] == y);
            }
        }
        if s.contains(y) {
            let k = choose|k: int| 0 <= k < s.len() && s[k] == y;
            assert(s.push(x)[k] == y);
        }
        if y == x {
            assert(s.push(x)[s.len() as int] == y);
        }
    }
}

/// No member of `s` is outside `t` exactly when the count is zero.
proof fn lemma_count_outside_zero(s: Seq<Seq<char>>, t: Seq<Seq<char>>)
    ensures
        (count_outside(s, t) == 0) <==> (forall|x: Seq<char>| #[trigger] s.contains(x) ==> t.contains(x)),
    decreases s.len(),
{
    if s.len() > 0 {
        let s1 = s.drop_last();
        lemma_count_outside_zero(s1, t);
        lemma_push_contains(s1, s.last());
        assert(s =~= s1.push(s.last()));
        if count_outside(s, t) == 0 {
            assert forall|x: Seq<char>| #[trigger] s.contains(x) implies t.contains(x) by {
                assert(s1.push(s.last()).contains(x));
                if x != s.last() {
                    assert(s1.contains(x));
                }
            }
        }
        if forall|x: Seq<char>| #[trigger] s.contains(x) ==> t.contains(x) {
            assert(s.contains(s.last())) by {
                assert(s[s.len() - 1] == s.last());
            }
            assert forall|x: Seq<char>| #[trigger] s1.contains(x) implies t.contains(x) by {
                assert(s1.push(s.last()).contains(x));
                assert(s.contains(x));
            }
        }
    } else {
        assert forall|x: Seq<char>| #[trigger] s.contains(x) implies t.contains(x) by {}
    }
}

/// A positive count has a witness.
proof fn lemma_count_outside_witness(s: Seq<Seq<char>>, t: Seq<Seq<char>>)
    requires
        count_outside(s, t) > 0,
    ensures
        exists|x: Seq<char>| s.contains(x) && !t.contains(x),
{
    lemma_count_outside_zero(s, t);
}

/// Wins (the candidate gets a question the baseline misses), losses (the other way round)
/// and ties (the same outcome) over aligned pairs.
pub open spec fn tally_of(pairs: Seq<(bool, bool)>) -> (nat, nat, nat)
    decreases pairs.len(),
{
    if pairs.len() == 0 {
        (0, 0, 0)
    } else {
        let prev = tally_of(pairs.drop_last());
        let (b, c) = pairs.last();
        if c && !b {
            (prev.0 + 1, prev.1, prev.2)
        } else if b && !c {
            (prev.0, prev.1 + 1, prev.2)
        } else {
            (prev.0, prev.1, prev.2 + 1)
        }
    }
}

proof fn lemma_tally_sum(pairs: Seq<(bool, bool)>)
    ensures
        tally_of(pairs).0 + tally_of(pairs).1 + tally_of(pairs).2 == pairs.len(),
    decreases pairs.len(),
{
    if pairs.len() > 0 {
        lemma_tally_sum(pairs.drop_last());
    }
}

/// Count wins, losses and ties (see [`tally_of`]); they add up to the number of pairs.
pub fn tally(pairs: &Vec<(bool, bool)>) -> (r: (usize, usize, usize))
    ensures
        r.0 == tally_of(pairs@).0,
        r.1 == tally_of(pairs@).1,
        r.2 == tally_of(pairs@).2,
        r.0 + r.1 + r.2 == pairs@.len(),
{
    let mut wins: usize = 0;
    let mut losses: usize = 0;
    let mut ties: usize = 0;
    let mut i: usize = 0;
    while i < pairs.len()
        invariant
            i <= pairs.len(),
            (wins as nat, losses as nat, ties as nat) == tally_of(pairs@.take(i as int)),
            wins + losses + ties == i,
        decreases pairs.len() - i,
    {
        assert(pairs@.take(i + 1).drop_last() =~= pairs@.take(i as int));
        let (b, c) = pairs[i];
        if c && !b {
            wins = wins + 1;
        } else if b && !c {
            losses = losses + 1;
        } else {
            ties = ties + 1;
        }
        i = i + 1;
    }
    assert(pairs@.take(pairs.len() as int) =~= pairs@);
    proof {
        lemma_tally_sum(pairs@);
    }
    (wins, losses, ties)
}

/// The arguments of a comparison: at least one project and at least two draws.
pub fn check_compare(projects: usize, draws: usize) -> (r: Option<PairedError>)
    ensures
        projects == 0 ==> r matches Some(PairedError::Invalid(_)),
        projects > 0 && draws < 2 ==> r matches Some(PairedError::Invalid(_)),
        projects > 0 && draws >= 2 ==> r is None,
{
    if projects == 0 {
        return Some(PairedError::Invalid("no project to compare".to_string()));
    }
    if draws < 2 {
        return Some(PairedError::Invalid("at least two bootstrap draws are needed".to_string()));
    }
    None
}

} // verus!

verus! {

/// Whether a project's two sides pair up: no side repeats an id, both have the same ids,
/// and there is at least one.
pub open spec fn pairs_up(input: PairedInput) -> bool {
    let b = side_ids(input.baseline@);
    let c = side_ids(input.candidate@);
    first_repeat(b) is None && first_repeat(c) is None && same_members(b, c) && b.len() > 0
}

/// `e` is the refusal [`align`] gives for `input`.
pub open spec fn align_refusal(input: PairedInput, e: PairedError) -> bool {
    let b = side_ids(input.baseline@);
    let c = side_ids(input.candidate@);
    if first_repeat(b) is Some {
        e matches PairedError::Duplicate { label, side, id } && label == input.label && side@ == "baseline"@
            && Some(id@) == first_repeat(b)
    } else if first_repeat(c) is Some {
        e matches PairedError::Duplicate { label, side, id } && label == input.label && side@ == "candidate"@
            && Some(id@) == first_repeat(c)
    } else if !same_members(b, c) {
        e matches PairedError::IdMismatch { label, only_baseline, only_candidate, first } && label == input.label
            && only_baseline == count_outside(b, c) && only_candidate == count_outside(c, b) && in_one_side(
            first@,
            b,
            c,
        ) && forall|x: Seq<char>| #[trigger] in_one_side(x, b, c) ==> !text_lt(x, first@)
    } else {
        e matches PairedError::Empty { label } && label == input.label
    }
}

/// The refusal of a comparison, checked in this order: no project; fewer than two draws;
/// then each project in order, refused as [`align`] refuses it. `None` when every project
/// pairs up and the comparison can run.
pub fn compare_refusal(inputs: &Vec<PairedInput>, draws: usize) -> (r: Option<PairedError>)
    ensures
        inputs@.len() == 0 ==> r matches Some(PairedError::Invalid(_)),
        inputs@.len() > 0 && draws < 2 ==> r matches Some(PairedError::Invalid(_)),
        inputs@.len() > 0 && draws >= 2 ==> match r {
            None => forall|k: int| 0 <= k < inputs@.len() ==> pairs_up(#[trigger] inputs@[k]),
            Some(e) => exists|k: int|
                0 <= k < inputs@.len() && (forall|j: int| 0 <= j < k ==> pairs_up(#[trigger] inputs@[j]))
                    && !pairs_up(inputs@[k]) && #[trigger] align_refusal(inputs@[k], e),
        },
{
    if let Some(e) = check_compare(inputs.len(), draws) {
        return Some(e);
    }
    let mut k: usize = 0;
    while k < inputs.len()
        invariant
            k <= inputs.len(),
            inputs.len() > 0,
            draws >= 2,
            forall|j: int| 0 <= j < k ==> pairs_up(#[trigger] inputs@[j]),
        decreases inputs.len() - k,
    {
        match align(&inputs[k]) {
            Err(e) => {
                assert(!pairs_up(inputs@[k as int]));
                assert(align_refusal(inputs@[k as int], e));
                return Some(e);
            },
            Ok(_) => {},
        }
        k = k + 1;
    }
    None
}

} // verus!
