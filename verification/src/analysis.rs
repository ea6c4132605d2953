//! The bookkeeping of the answer-quality analysis: which graded runs there are, which are
//! duplicates, which questions, arms and runs make up the sample, and how many runs of
//! each question and arm completed, failed or were grounded. A failed run (errored, not
//! graded, or expected by the manifest and missing) counts as a failure. The scores,
//! medians, means and bootstrap intervals over these counts are floating point and are not
//! part of this library; a caller computes them from what these functions return.

use vstd::prelude::*;
use crate::sets::{same_members, sorted_set, strictly_sorted};
use crate::text::{same_text, texts};

verus! {

/// What a complete run set looks like: every expected (question, arm, run) that has no row
/// is a failed run.
#[derive(Debug, Clone, Default, PartialEq, Eq)]
pub struct Manifest {
    /// The questions.
    pub question_ids: Vec<String>,
    /// The arms.
    pub arms: Vec<String>,
    /// Runs per question and arm.
    pub runs: usize,
}

/// The gates a savings claim needs, for one pair of arms.
#[derive(Debug, Clone, Copy, PartialEq, Eq, Structural)]
pub struct Gates {
    /// The interval's lower bound is at least the required one.
    pub lower_bound_ok: bool,
    /// The mean score is at least the required one.
    pub mean_ok: bool,
    /// The grounding rate is at least the required one.
    pub grounding_ok: bool,
    /// All three.
    pub pass: bool,
}

impl Gates {
    /// The gates from the three verdicts: they pass only together.
    pub fn new(lower_bound_ok: bool, mean_ok: bool, grounding_ok: bool) -> (g: Gates)
        ensures
            g.lower_bound_ok == lower_bound_ok,
            g.mean_ok == mean_ok,
            g.grounding_ok == grounding_ok,
            g.pass == (lower_bound_ok && mean_ok && grounding_ok),
    {
        Gates { lower_bound_ok, mean_ok, grounding_ok, pass: lower_bound_ok && mean_ok && grounding_ok }
    }
}

/// What the bookkeeping reads of one graded run.
#[derive(Debug, Clone, PartialEq, Eq)]
pub struct RunRecord {
    /// `question_id`.
    pub id: String,
    /// The arm.
    pub arm: String,
    /// Run number, 1-based.
    pub run: usize,
    /// The runner's failure flag.
    pub error: bool,
    /// The grader gave a score.
    pub graded: bool,
    /// The grounding verdict, when checked.
    pub grounded: Option<bool>,
}

/// Two records are the same observation: same question, arm and run.
pub open spec fn same_observation(a: RunRecord, b: RunRecord) -> bool {
    a.id@ == b.id@ && a.arm@ == b.arm@ && a.run == b.run
}

/// The position of the first record that repeats an earlier observation.
pub open spec fn first_duplicate_of(rows: Seq<RunRecord>) -> Option<int>
    decreases rows.len(),
{
    if rows.len() == 0 {
        None
    } else {
        match first_duplicate_of(rows.drop_last()) {
            Some(i) => Some(i),
            None => if exists|k: int| 0 <= k < rows.len() - 1 && #[trigger] same_observation(rows[k], rows.last()) {
                Some(rows.len() - 1)
            } else {
                None
            },
        }
    }
}

/// A duplicate found in a prefix is the first duplicate of the whole.
proof fn lemma_first_duplicate_extends(rows: Seq<RunRecord>, j: int)
    requires
        0 <= j <= rows.len(),
        first_duplicate_of(rows.take(j)) is Some,
    ensures
        first_duplicate_of(rows) == first_duplicate_of(rows.take(j)),
    decreases rows.len() - j,
{
    if j == rows.len() {
        assert(rows.take(j) =~= rows);
    } else {
        assert(rows.take(j + 1).drop_last() =~= rows.take(j));
        lemma_first_duplicate_extends(rows, j + 1);
    }
}

/// The first record that repeats an earlier observation (the runner double-counted).
pub fn first_duplicate(rows: &Vec<RunRecord>) -> (r: Option<usize>)
    ensures
        match first_duplicate_of(rows@) {
            Some(i) => r == Some(i as usize),
            None => r is None,
        },
{
    let mut i: usize = 0;
    assert(rows@.take(0) =~= Seq::<RunRecord>::empty());
    while i < rows.len()
        invariant
            i <= rows.len(),
            first_duplicate_of(rows@.take(i as int)) is None,
        decreases rows.len() - i,
    {
        let ghost t = rows@.take(i + 1);
        assert(t.drop_last() =~= rows@.take(i as int));
        assert(t.last() == rows@[i as int]);
        let mut j: usize = 0;
        while j < i
            invariant
                j <= i < rows.len(),
                t == rows@.take(i + 1),
                t.drop_last() == rows@.take(i as int),
                t.last() == rows@[i as int],
                first_duplicate_of(rows@.take(i as int)) is None,
                forall|k: int| 0 <= k < j ==> !same_observation(#[trigger] t[k], t.last()),
            decreases i - j,
        {
            if same_text(rows[j].id.as_str(), rows[i].id.as_str()) && same_text(
                rows[j].arm.as_str(),
                rows[i].arm.as_str(),
            ) && rows[j].run == rows[i].run {
                proof {
                    assert(same_observation(t[j as int], t.last()));
                    assert(first_duplicate_of(t) == Some(i as int));
                    lemma_first_duplicate_extends(rows@, i + 1);
                }
                return Some(i);
            }
            assert(t[j as int] == rows@[j as int]);
            j = j + 1;
        }
        assert(first_duplicate_of(t) is None);
        i = i + 1;
    }
    assert(rows@.take(rows.len() as int) =~= rows@);
    None
}

/// The records of one question and arm, in file order.
pub open spec fn records_for(rows: Seq<RunRecord>, id: Seq<char>, arm: Seq<char>) -> Seq<RunRecord> {
    rows.filter(|r: RunRecord| r.id@ == id && r.arm@ == arm)
}

/// The records of one question and arm (see [`records_for`]).
pub fn rows_for(rows: &Vec<RunRecord>, id: &String, arm: &String) -> (r: Vec<RunRecord>)
    ensures
        r@ == records_for(rows@, id@, arm@),
{
    let mut r: Vec<RunRecord> = Vec::new();
    let mut i: usize = 0;
    while i < rows.len()
        invariant
            i <= rows.len(),
            r@ == records_for(rows@.take(i as int), id@, arm@),
        decreases rows.len() - i,
    {
        let ghost pre = rows@.take(i as int);
        assert(rows@.take(i + 1) =~= pre.push(rows@[i as int]));
        proof {
            pre.lemma_filter_push(rows@[i as int], |x: RunRecord| x.id@ == id@ && x.arm@ == arm@);
        }
        if same_text(rows[i].id.as_str(), id.as_str()) && same_text(rows[i].arm.as_str(), arm.as_str()) {
            r.push(rows[i].clone_record());
        }
        i = i + 1;
    }
    assert(rows@.take(rows.len() as int) =~= rows@);
    r
}

impl RunRecord {
    /// A copy of the record.
    pub fn clone_record(&self) -> (r: RunRecord)
        ensures
            r == *self,
    {
        RunRecord {
            id: self.id.clone(),
            arm: self.arm.clone(),
            run: self.run,
            error: self.error,
            graded: self.graded,
            grounded: self.grounded,
        }
    }
}

/// A run completed: it did not error and it was graded.
pub open spec fn completed_run(r: RunRecord) -> bool {
    !r.error && r.graded
}

/// A completed run whose claims were all supported.
pub open spec fn grounded_run(r: RunRecord) -> bool {
    completed_run(r) && r.grounded == Some(true)
}

/// One question and arm's run counts.
#[derive(Debug, Clone, Copy, PartialEq, Eq, Structural)]
pub struct RunCounts {
    /// Runs expected: the manifest's, or more when the file has more rows.
    pub runs: usize,
    /// Runs that completed with a grade.
    pub completed: usize,
    /// Runs counted as failures (errored, ungraded, or missing).
    pub failed: usize,
    /// Grounding passes (a failed run is a fail).
    pub grounded: usize,
}

/// The run counts of one question and arm from its records and the runs the manifest
/// expects: runs are the larger of the two, every run that did not complete is a failure.
pub fn run_counts(rows: &Vec<RunRecord>, expected_runs: usize) -> (c: RunCounts)
    ensures
        c.runs == (if expected_runs > rows@.len() { expected_runs as int } else { rows@.len() as int }),
        c.completed == rows@.filter(|r: RunRecord| completed_run(r)).len(),
        c.grounded == rows@.filter(|r: RunRecord| grounded_run(r)).len(),
        c.failed == c.runs - c.completed,
{
    let mut completed: usize = 0;
    let mut grounded: usize = 0;
    let mut i: usize = 0;
    while i < rows.len()
        invariant
            i <= rows.len(),
            completed == rows@.take(i as int).filter(|r: RunRecord| completed_run(r)).len(),
            grounded == rows@.take(i as int).filter(|r: RunRecord| grounded_run(r)).len(),
            grounded <= completed <= i,
        decreases rows.len() - i,
    {
        let ghost pre = rows@.take(i as int);
        assert(rows@.take(i + 1) =~= pre.push(rows@[i as int]));
        proof {
            pre.lemma_filter_push(rows@[i as int], |r: RunRecord| completed_run(r));
            pre.lemma_filter_push(rows@[i as int], |r: RunRecord| grounded_run(r));
        }
        if !rows[i].error && rows[i].graded {
            completed = completed + 1;
            if rows[i].grounded == Some(true) {
                grounded = grounded + 1;
            }
        }
        i = i + 1;
    }
    assert(rows@.take(rows.len() as int) =~= rows@);
    let runs = if expected_runs > rows.len() { expected_runs } else { rows.len() };
    RunCounts { runs, completed, failed: runs - completed, grounded }
}

/// The questions, arms and runs per (question, arm) of the sample: the manifest's when
/// given; else the distinct questions and arms of the rows, in increasing order, and the
/// largest number of rows any question and arm has.
pub fn universe(rows: &Vec<RunRecord>, manifest: &Option<Manifest>) -> (u: (Vec<String>, Vec<String>, usize))
    ensures
        match manifest {
            Some(m) => u.0@ == m.question_ids@ && u.1@ == m.arms@ && u.2 == m.runs,
            None => {
                &&& strictly_sorted(texts(u.0@))
                &&& same_members(texts(u.0@), rows@.map_values(|r: RunRecord| r.id@))
                &&& strictly_sorted(texts(u.1@))
                &&& same_members(texts(u.1@), rows@.map_values(|r: RunRecord| r.arm@))
                &&& forall|k: int| 0 <= k < rows@.len() ==> records_for(rows@, #[trigger] rows@[k].id@, rows@[k].arm@).len() <= u.2
                &&& (rows@.len() > 0 ==> exists|k: int| 0 <= k < rows@.len() && records_for(rows@, #[trigger] rows@[k].id@, rows@[k].arm@).len() == u.2)
                &&& (rows@.len() == 0 ==> u.2 == 0)
            },
        },
{
    match manifest {
        Some(m) => (clone_texts(&m.question_ids), clone_texts(&m.arms), m.runs),
        None => {
            let mut ids: Vec<String> = Vec::new();
            let mut arms: Vec<String> = Vec::new();
            let mut i: usize = 0;
            while i < rows.len()
                invariant
                    i <= rows.len(),
                    texts(ids@) == rows@.take(i as int).map_values(|r: RunRecord| r.id@),
                    texts(arms@) == rows@.take(i as int).map_values(|r: RunRecord| r.arm@),
                decreases rows.len() - i,
            {
                let ghost (bi, ba) = (texts(ids@), texts(arms@));
                ids.push(rows[i].id.clone());
                arms.push(rows[i].arm.clone());
                assert(texts(ids@) =~= bi.push(rows@[i as int].id@));
                assert(texts(arms@) =~= ba.push(rows@[i as int].arm@));
                assert(rows@.take(i + 1).map_values(|r: RunRecord| r.id@) =~= rows@.take(i as int).map_values(
                    |r: RunRecord| r.id@,
                ).push(rows@[i as int].id@));
                assert(rows@.take(i + 1).map_values(|r: RunRecord| r.arm@) =~= rows@.take(i as int).map_values(
                    |r: RunRecord| r.arm@,
                ).push(rows@[i as int].arm@));
                i = i + 1;
            }
            assert(rows@.take(rows.len() as int) =~= rows@);
            let mut most: usize = 0;
            let mut k: usize = 0;
            while k < rows.len()
                invariant
                    k <= rows.len(),
                    forall|q: int| 0 <= q < k ==> records_for(rows@, #[trigger] rows@[q].id@, rows@[q].arm@).len() <= most,
                    k > 0 ==> exists|q: int| 0 <= q < k && records_for(rows@, #[trigger] rows@[q].id@, rows@[q].arm@).len() == most,
                    k == 0 ==> most == 0,
                decreases rows.len() - k,
            {
                let group = rows_for(rows, &rows[k].id, &rows[k].arm);
                if k == 0 || group.len() > most {
                    most = group.len();
                }
                k = k + 1;
            }
            (sorted_set(&ids), sorted_set(&arms), most)
        },
    }
}

fn clone_texts(v: &Vec<String>) -> (r: Vec<String>)
    ensures
        r@ == v@,
{
    let mut r: Vec<String> = Vec::new();
    let mut i: usize = 0;
    while i < v.len()
        invariant
            i <= v.len(),
            r@ == v@.take(i as int),
        decreases v.len() - i,
    {
        r.push(v[i].clone());
        assert(r@ =~= v@.take(i + 1));
        i = i + 1;
    }
    assert(v@.take(v.len() as int) =~= v@);
    r
}

/// The arms of the sample that the analysis compares (mda and the comparators), and the
/// others, each in the sample's order.
pub fn split_arms(arms: &Vec<String>, mda_arm: &String, comparators: &Vec<String>) -> (r: (Vec<String>, Vec<String>))
    ensures
        texts(r.0@) == texts(arms@).filter(|a: Seq<char>| a == mda_arm@ || texts(comparators@).contains(a)),
        texts(r.1@) == texts(arms@).filter(|a: Seq<char>| !(a == mda_arm@ || texts(comparators@).contains(a))),
{
    let ghost av = texts(arms@);
    let ghost cv = texts(comparators@);
    let ghost keep = |a: Seq<char>| a == mda_arm@ || cv.contains(a);
    let ghost drop = |a: Seq<char>| !(a == mda_arm@ || cv.contains(a));
    let mut analysed: Vec<String> = Vec::new();
    let mut others: Vec<String> = Vec::new();
    let mut i: usize = 0;
    while i < arms.len()
        invariant
            i <= arms.len(),
            av == texts(arms@),
            cv == texts(comparators@),
            keep == (|a: Seq<char>| a == mda_arm@ || cv.contains(a)),
            drop == (|a: Seq<char>| !(a == mda_arm@ || cv.contains(a))),
            texts(analysed@) == av.take(i as int).filter(keep),
            texts(others@) == av.take(i as int).filter(drop),
        decreases arms.len() - i,
    {
        let ghost pre = av.take(i as int);
        assert(av.take(i + 1) =~= pre.push(av[i as int]));
        proof {
            pre.lemma_filter_push(av[i as int], keep);
            pre.lemma_filter_push(av[i as int], drop);
        }
        assert(comparators@.map_values(|s: String| s@) =~= cv);
        let ghost (b0, b1) = (texts(analysed@), texts(others@));
        if same_text(arms[i].as_str(), mda_arm.as_str()) || crate::text::contains_string(comparators, &arms[i]) {
            analysed.push(arms[i].clone());
            assert(texts(analysed@) =~= b0.push(av[i as int]));
        } else {
            others.push(arms[i].clone());
            assert(texts(others@) =~= b1.push(av[i as int]));
        }
        i = i + 1;
    }
    assert(av.take(arms.len() as int) =~= av);
    (analysed, others)
}

} // verus!

verus! {

/// Everything that can go wrong in the analysis.
#[derive(Debug, Clone, PartialEq, Eq)]
pub enum AnalysisError {
    /// A file could not be read.
    Io {
        /// The file.
        path: String,
        /// The operating system's message.
        message: String,
    },
    /// A line is not a grade row.
    Json {
        /// The file.
        path: String,
        /// 1-based line.
        line: usize,
        /// The parser's message.
        message: String,
    },
    /// The same (question, arm, run) appears twice: the runner double-counted.
    Duplicate {
        /// The question.
        id: String,
        /// The arm.
        arm: String,
        /// The run number.
        run: usize,
    },
    /// The mda arm has no rows.
    NoMdaRows(String),
    /// Nothing to analyse or a bad parameter.
    Invalid(String),
}

proof fn lemma_first_duplicate_in_range(rows: Seq<RunRecord>)
    ensures
        first_duplicate_of(rows) matches Some(i) ==> 0 <= i < rows.len(),
    decreases rows.len(),
{
    if rows.len() > 0 {
        lemma_first_duplicate_in_range(rows.drop_last());
    }
}

/// Whether the sample (the manifest's, else the rows') has `arm` among its arms.
pub open spec fn sample_has_arm(rows: Seq<RunRecord>, manifest: Option<Manifest>, arm: Seq<char>) -> bool {
    match manifest {
        Some(m) => texts(m.arms@).contains(arm),
        None => rows.map_values(|r: RunRecord| r.arm@).contains(arm),
    }
}

/// The checks an analysis makes before any number, in this order: at least two bootstrap
/// draws; no observation twice (the first repeated row is named); the arm the claims are
/// about is in the sample. When all pass, the sample's questions, arms and runs per
/// question and arm (see [`universe`]).
pub fn check_rows(rows: &Vec<RunRecord>, manifest: &Option<Manifest>, mda_arm: &String, draws: usize) -> (r: Result<
    (Vec<String>, Vec<String>, usize),
    AnalysisError,
>)
    ensures
        draws < 2 ==> (r matches Err(AnalysisError::Invalid(m)) && m@ == "at least two bootstrap draws are needed"@),
        draws >= 2 ==> match first_duplicate_of(rows@) {
            Some(i) => r matches Err(AnalysisError::Duplicate { id, arm, run }) && id@ == rows@[i].id@ && arm@
                == rows@[i].arm@ && run == rows@[i].run,
            None => if sample_has_arm(rows@, *manifest, mda_arm@) {
                r matches Ok(u) && match manifest {
                    Some(m) => u.0@ == m.question_ids@ && u.1@ == m.arms@ && u.2 == m.runs,
                    None => {
                        &&& strictly_sorted(texts(u.0@))
                        &&& same_members(texts(u.0@), rows@.map_values(|r: RunRecord| r.id@))
                        &&& strictly_sorted(texts(u.1@))
                        &&& same_members(texts(u.1@), rows@.map_values(|r: RunRecord| r.arm@))
                    },
                }
            } else {
                r matches Err(AnalysisError::NoMdaRows(a)) && a@ == mda_arm@
            },
        },
{
    if draws < 2 {
        return Err(AnalysisError::Invalid("at least two bootstrap draws are needed".to_string()));
    }
    proof {
        lemma_first_duplicate_in_range(rows@);
    }
    match first_duplicate(rows) {
        Some(i) => {
            let id = rows[i].id.clone();
            let arm = rows[i].arm.clone();
            assert(id@ == rows@[i as int].id@ && arm@ == rows@[i as int].arm@);
            proof {
                match first_duplicate_of(rows@) {
                    Some(j) => {
                        assert(0 <= j < rows@.len());
                        assert(rows@.len() == rows.len());
                        assert(i == j as usize);
                        assert(j == i as int);
                    },
                    None => {},
                }
            }
            assert(first_duplicate_of(rows@) == Some(i as int));
            let e = AnalysisError::Duplicate { id, arm, run: rows[i].run };
            assert(e matches AnalysisError::Duplicate { id, arm, run } && id@ == rows@[i as int].id@ && arm@ == rows@[i as int].arm@ && run == rows@[i as int].run);
            return Err(e);
        },
        None => {},
    }
    let u = universe(rows, manifest);
    if crate::text::contains_string(&u.1, mda_arm) {
        proof {
            match manifest {
                Some(m) => {
                    assert(texts(u.1@) == texts(m.arms@));
                },
                None => {
                    assert(texts(u.1@).contains(mda_arm@));
                },
            }
        }
        Ok(u)
    } else {
        proof {
            match manifest {
                Some(m) => {
                    assert(texts(u.1@) == texts(m.arms@));
                },
                None => {
                    assert(!texts(u.1@).contains(mda_arm@));
                },
            }
        }
        Err(AnalysisError::NoMdaRows(mda_arm.clone()))
    }
}

} // verus!
