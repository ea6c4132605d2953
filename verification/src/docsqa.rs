//! The DocsQA-Repo adapter's logic: questions with page-level relevance labels, the
//! mapping of a label to a page of the corpus, the seeded split of a project's questions,
//! and the coverage of a dataset against what the store has indexed. Reading the dataset's
//! files and querying the store happen around these.

use vstd::prelude::*;
use crate::eval::{first_occurrences, law_pages_first_occurrence, normalize_heading, normalize_heading_of, Split};
use crate::split::{is_split_of, split_ids, split_view};
use crate::text::{contains_seq, contains_str, contains_string, texts, trim, trimmed};

verus! {

/// One question with its labels.
#[derive(Debug, Clone, PartialEq, Eq)]
pub struct Question {
    /// Stable id (`question_id`).
    pub id: String,
    /// The agent input, image transcriptions included.
    pub query: String,
    /// Relevant pages as repository-relative paths (mapped from `qrel_ids`, deduplicated).
    pub relevant: Vec<String>,
    /// The dataset's resolved evidence anchors: `(page path, canonical heading)`; a heading
    /// of `None` means the whole page.
    pub anchors: Vec<(String, Option<String>)>,
    /// Labels that could not be mapped to a page of the corpus file.
    pub unmapped_qrels: Vec<String>,
    /// The reference answer needed evidence from image-derived text (excluded).
    pub image_evidence: bool,
    /// The reference answer needs multimodal judgment to grade.
    pub multimodal_judgment: bool,
}

/// The questions of one project, plus the page map.
#[derive(Debug, Clone, PartialEq, Eq)]
pub struct Dataset {
    /// Project id as the dataset names it.
    pub project: String,
    /// Every question of the project, in file order.
    pub questions: Vec<Question>,
    /// `doc_id` and repository-relative source path of every page of the project corpus,
    /// ordered by `doc_id`, each `doc_id` once.
    pub pages: Vec<(String, String)>,
}

/// The view of a list of text pairs.
pub open spec fn pairs_view(v: Seq<(String, String)>) -> Seq<(Seq<char>, Seq<char>)> {
    v.map_values(|p: (String, String)| (p.0@, p.1@))
}

/// The value paired with the first occurrence of `k`.
pub open spec fn lookup_of(pairs: Seq<(Seq<char>, Seq<char>)>, k: Seq<char>) -> Option<Seq<char>>
    decreases pairs.len(),
{
    if pairs.len() == 0 {
        None
    } else if pairs[0].0 == k {
        Some(pairs[0].1)
    } else {
        lookup_of(pairs.drop_first(), k)
    }
}

/// The value paired with `k` (see [`lookup_of`]).
pub fn lookup(pairs: &Vec<(String, String)>, k: &str) -> (r: Option<String>)
    ensures
        match lookup_of(pairs_view(pairs@), k@) {
            Some(v) => r matches Some(s) && s@ == v,
            None => r is None,
        },
{
    let ghost pv = pairs_view(pairs@);
    let mut i: usize = 0;
    assert(pv.skip(0) =~= pv);
    while i < pairs.len()
        invariant
            i <= pairs.len(),
            pv == pairs_view(pairs@),
            lookup_of(pv, k@) == lookup_of(pv.skip(i as int), k@),
        decreases pairs.len() - i,
    {
        assert(pv.skip(i as int)[0] == pv[i as int]);
        if crate::text::same_text(pairs[i].0.as_str(), k) {
            return Some(pairs[i].1.clone());
        }
        assert(pv.skip(i as int).drop_first() =~= pv.skip(i + 1));
        i = i + 1;
    }
    None
}

/// A question's labels mapped to pages: the pages in label order without repeats, and the
/// labels no page of the corpus carries.
pub open spec fn labels_of(ids: Seq<Seq<char>>, pages: Seq<(Seq<char>, Seq<char>)>) -> (
    Seq<Seq<char>>,
    Seq<Seq<char>>,
)
    decreases ids.len(),
{
    if ids.len() == 0 {
        (Seq::empty(), Seq::empty())
    } else {
        let prev = labels_of(ids.drop_last(), pages);
        match lookup_of(pages, ids.last()) {
            Some(p) => if prev.0.contains(p) {
                prev
            } else {
                (prev.0.push(p), prev.1)
            },
            None => (prev.0, prev.1.push(ids.last())),
        }
    }
}

/// The page of each label that has one, in label order, repeats included.
pub open spec fn mapped_pages(ids: Seq<Seq<char>>, pages: Seq<(Seq<char>, Seq<char>)>) -> Seq<Seq<char>>
    decreases ids.len(),
{
    if ids.len() == 0 {
        Seq::empty()
    } else {
        match lookup_of(pages, ids.last()) {
            Some(p) => mapped_pages(ids.drop_last(), pages).push(p),
            None => mapped_pages(ids.drop_last(), pages),
        }
    }
}

/// The labels no page carries, in label order.
pub open spec fn unmapped_labels(ids: Seq<Seq<char>>, pages: Seq<(Seq<char>, Seq<char>)>) -> Seq<Seq<char>> {
    ids.filter(|id: Seq<char>| lookup_of(pages, id) is None)
}

/// A question's relevant pages are the pages of its labels once each, in the order each
/// first comes up; its unmapped labels are those with no page, in order.
pub proof fn law_labels_map_in_first_occurrence_order(ids: Seq<Seq<char>>, pages: Seq<(Seq<char>, Seq<char>)>)
    ensures
        labels_of(ids, pages).0 == first_occurrences(mapped_pages(ids, pages)),
        labels_of(ids, pages).0.no_duplicates(),
        labels_of(ids, pages).1 == unmapped_labels(ids, pages),
    decreases ids.len(),
{
    reveal(Seq::filter);
    let keep = |id: Seq<char>| lookup_of(pages, id) is None;
    assert(unmapped_labels(ids, pages) == ids.filter(keep));
    if ids.len() > 0 {
        law_labels_map_in_first_occurrence_order(ids.drop_last(), pages);
        assert(unmapped_labels(ids.drop_last(), pages) == ids.drop_last().filter(keep));
        if let Some(p) = lookup_of(pages, ids.last()) {
            assert(!keep(ids.last()));
            assert(ids.filter(keep) == ids.drop_last().filter(keep));
            let m = mapped_pages(ids, pages);
            assert(m.drop_last() =~= mapped_pages(ids.drop_last(), pages));
            assert(m.last() == p);
        } else {
            assert(keep(ids.last()));
            assert(ids.filter(keep) == ids.drop_last().filter(keep).push(ids.last()));
            assert(mapped_pages(ids, pages) == mapped_pages(ids.drop_last(), pages));
        }
    } else {
        assert(ids.filter(keep) == ids);
        assert(ids =~= Seq::<Seq<char>>::empty());
    }
    law_pages_first_occurrence(mapped_pages(ids, pages));
}

/// Map a question's `qrel_ids` to pages (see [`labels_of`]): the relevant pages and the
/// unmapped labels.
pub fn map_labels(qrel_ids: &Vec<String>, pages: &Vec<(String, String)>) -> (r: (Vec<String>, Vec<String>))
    ensures
        texts(r.0@) == labels_of(texts(qrel_ids@), pairs_view(pages@)).0,
        texts(r.1@) == labels_of(texts(qrel_ids@), pairs_view(pages@)).1,
{
    let ghost ids = texts(qrel_ids@);
    let mut relevant: Vec<String> = Vec::new();
    let mut unmapped: Vec<String> = Vec::new();
    let mut i: usize = 0;
    while i < qrel_ids.len()
        invariant
            i <= qrel_ids.len(),
            ids == texts(qrel_ids@),
            texts(relevant@) == labels_of(ids.take(i as int), pairs_view(pages@)).0,
            texts(unmapped@) == labels_of(ids.take(i as int), pairs_view(pages@)).1,
        decreases qrel_ids.len() - i,
    {
        assert(ids.take(i + 1).drop_last() =~= ids.take(i as int));
        assert(ids.take(i + 1).last() == qrel_ids@[i as int]@);
        match lookup(pages, qrel_ids[i].as_str()) {
            Some(p) => {
                assert(relevant@.map_values(|s: String| s@) =~= texts(relevant@));
                if !contains_string(&relevant, &p) {
                    let ghost before = texts(relevant@);
                    relevant.push(p);
                    assert(texts(relevant@) =~= before.push(relevant@.last()@));
                }
            },
            None => {
                let ghost before = texts(unmapped@);
                unmapped.push(qrel_ids[i].clone());
                assert(texts(unmapped@) =~= before.push(unmapped@.last()@));
            },
        }
        i = i + 1;
    }
    assert(ids.take(qrel_ids.len() as int) =~= ids);
    (relevant, unmapped)
}

/// The view of an optional text.
pub open spec fn opt_view(o: Option<String>) -> Option<Seq<char>> {
    match o {
        Some(s) => Some(s@),
        None => None,
    }
}

/// An anchor row resolved against the page map: `None` when its page is not in the corpus;
/// else the page and, for a section-level anchor with a non-blank canonical heading, that
/// heading (an anchor of `document` or an empty anchor means the whole page).
pub open spec fn anchor_of(
    doc_id: Seq<char>,
    canonical_anchor: Option<Seq<char>>,
    canonical_heading: Option<Seq<char>>,
    pages: Seq<(Seq<char>, Seq<char>)>,
) -> Option<(Seq<char>, Option<Seq<char>>)> {
    match lookup_of(pages, doc_id) {
        None => None,
        Some(page) => Some(
            (
                page,
                match canonical_anchor {
                    None => None,
                    Some(a) => if a == "document"@ || a.len() == 0 {
                        None
                    } else {
                        match canonical_heading {
                            Some(h) => if trim(h).len() > 0 {
                                Some(h)
                            } else {
                                None
                            },
                            None => None,
                        }
                    },
                },
            ),
        ),
    }
}

/// Resolve one anchor row (see [`anchor_of`]).
pub fn resolve_anchor(
    doc_id: &str,
    canonical_anchor: &Option<String>,
    canonical_heading: &Option<String>,
    pages: &Vec<(String, String)>,
) -> (r: Option<(String, Option<String>)>)
    ensures
        match anchor_of(doc_id@, opt_view(*canonical_anchor), opt_view(*canonical_heading), pairs_view(pages@)) {
            Some(a) => r matches Some(b) && b.0@ == a.0 && opt_view(b.1) == a.1,
            None => r is None,
        },
{
    let page = match lookup(pages, doc_id) {
        Some(p) => p,
        None => {
            return None;
        },
    };
    proof {
        reveal_strlit("document");
    }
    let heading = match canonical_anchor {
        None => None,
        Some(a) => {
            if crate::text::same_text(a.as_str(), "document") || crate::text::is_empty_text(a.as_str()) {
                None
            } else {
                match canonical_heading {
                    Some(h) => {
                        let t = trimmed(h.as_str());
                        if crate::text::is_empty_text(t.as_str()) {
                            None
                        } else {
                            Some(h.clone())
                        }
                    },
                    None => None,
                }
            }
        },
    };
    Some((page, heading))
}

impl Dataset {
    /// The split of every question, seeded and stratified within the project (see
    /// [`split_ids`]).
    pub fn split(&self, seed: u64) -> (r: Vec<(String, Split)>)
        ensures
            is_split_of(
                seed,
                self.questions@.map_values(|q: Question| q.id@),
                split_view(r@),
            ),
    {
        let mut ids: Vec<String> = Vec::new();
        let mut i: usize = 0;
        while i < self.questions.len()
            invariant
                i <= self.questions.len(),
                texts(ids@) == self.questions@.map_values(|q: Question| q.id@).take(i as int),
            decreases self.questions.len() - i,
        {
            let ghost before = texts(ids@);
            ids.push(self.questions[i].id.clone());
            assert(texts(ids@) =~= before.push(ids@.last()@));
            assert(self.questions@.map_values(|q: Question| q.id@).take(i + 1) =~= self.questions@.map_values(
                |q: Question| q.id@,
            ).take(i as int).push(self.questions@[i as int].id@));
            i = i + 1;
        }
        assert(self.questions@.map_values(|q: Question| q.id@).take(self.questions.len() as int)
            =~= self.questions@.map_values(|q: Question| q.id@));
        split_ids(seed, &ids)
    }
}

/// How many of `s` are in `set`.
pub open spec fn count_in(s: Seq<Seq<char>>, set: Seq<Seq<char>>) -> nat
    decreases s.len(),
{
    if s.len() == 0 {
        0
    } else {
        count_in(s.drop_last(), set) + if set.contains(s.last()) { 1nat } else { 0nat }
    }
}

proof fn lemma_count_in_bound(s: Seq<Seq<char>>, set: Seq<Seq<char>>)
    ensures
        count_in(s, set) <= s.len(),
    decreases s.len(),
{
    if s.len() > 0 {
        lemma_count_in_bound(s.drop_last(), set);
    }
}

/// How many of `s` are in `set` (see [`count_in`]).
fn count_present(s: &Vec<String>, set: &Vec<String>) -> (n: usize)
    ensures
        n == count_in(texts(s@), texts(set@)),
{
    let ghost sv = texts(s@);
    let mut n: usize = 0;
    let mut i: usize = 0;
    while i < s.len()
        invariant
            i <= s.len(),
            sv == texts(s@),
            n == count_in(sv.take(i as int), texts(set@)),
            n <= i,
        decreases s.len() - i,
    {
        assert(sv.take(i + 1).drop_last() =~= sv.take(i as int));
        assert(sv.take(i + 1).last() == s@[i as int]@);
        assert(set@.map_values(|x: String| x@) =~= texts(set@));
        if contains_string(set, &s[i]) {
            n = n + 1;
        }
        i = i + 1;
    }
    assert(sv.take(s.len() as int) =~= sv);
    n
}

/// The view of a heading table: each page with its normalised heading paths.
pub open spec fn headings_view(h: Seq<(String, Vec<String>)>) -> Seq<(Seq<char>, Seq<Seq<char>>)> {
    h.map_values(|p: (String, Vec<String>)| (p.0@, texts(p.1@)))
}

/// The heading paths of the first entry for `page`.
pub open spec fn headings_of(h: Seq<(Seq<char>, Seq<Seq<char>>)>, page: Seq<char>) -> Option<Seq<Seq<char>>>
    decreases h.len(),
{
    if h.len() == 0 {
        None
    } else if h[0].0 == page {
        Some(h[0].1)
    } else {
        headings_of(h.drop_first(), page)
    }
}

/// An evidence anchor is found: a page-level anchor when its page is indexed; a
/// section-level one when a heading path of its page contains the normalised heading (an
/// empty one never matches).
pub open spec fn anchor_found(
    a: (Seq<char>, Option<Seq<char>>),
    indexed: Seq<Seq<char>>,
    headings: Seq<(Seq<char>, Seq<Seq<char>>)>,
) -> bool {
    match a.1 {
        None => indexed.contains(a.0),
        Some(h) => normalize_heading_of(h).len() > 0 && heading_in(
            headings_of(headings, a.0),
            normalize_heading_of(h),
        ),
    }
}

/// The page has heading paths and one of them contains `needle`.
pub open spec fn heading_in(paths: Option<Seq<Seq<char>>>, needle: Seq<char>) -> bool {
    match paths {
        Some(hp) => some_contains(hp, needle),
        None => false,
    }
}

/// One of `hp` contains `needle`.
pub open spec fn some_contains(hp: Seq<Seq<char>>, needle: Seq<char>) -> bool {
    exists|k: int| 0 <= k < hp.len() && contains_seq(#[trigger] hp[k], needle)
}

/// How many anchors are found.
pub open spec fn found_count(
    anchors: Seq<(Seq<char>, Option<Seq<char>>)>,
    indexed: Seq<Seq<char>>,
    headings: Seq<(Seq<char>, Seq<Seq<char>>)>,
) -> nat
    decreases anchors.len(),
{
    if anchors.len() == 0 {
        0
    } else {
        found_count(anchors.drop_last(), indexed, headings) + if anchor_found(
            anchors.last(),
            indexed,
            headings,
        ) {
            1nat
        } else {
            0nat
        }
    }
}

proof fn lemma_found_bound(
    anchors: Seq<(Seq<char>, Option<Seq<char>>)>,
    indexed: Seq<Seq<char>>,
    headings: Seq<(Seq<char>, Seq<Seq<char>>)>,
)
    ensures
        found_count(anchors, indexed, headings) <= anchors.len(),
    decreases anchors.len(),
{
    if anchors.len() > 0 {
        lemma_found_bound(anchors.drop_last(), indexed, headings);
    }
}

/// The anchors of a question, viewed.
pub open spec fn anchors_view(q: Question) -> Seq<(Seq<char>, Option<Seq<char>>)> {
    q.anchors@.map_values(|a: (String, Option<String>)| (a.0@, opt_view(a.1)))
}

/// The running counts of a coverage report.
pub struct CoverageCount {
    /// Relevance labels.
    pub qrels: nat,
    /// Labels whose page is indexed.
    pub qrels_indexed: nat,
    /// Labels no corpus row maps.
    pub qrels_unmapped: nat,
    /// Questions excluded for image-derived evidence.
    pub excluded_image: nat,
    /// Questions excluded for an unmapped or unindexed label.
    pub excluded_missing: nat,
    /// Questions left for scoring.
    pub eligible: nat,
    /// Eligible questions that need multimodal judgment.
    pub multimodal: nat,
    /// Anchors of the eligible questions.
    pub anchors: nat,
    /// Of those, the anchors found.
    pub anchors_found: nat,
    /// Eligible questions with an anchor not found.
    pub missing: Seq<Seq<char>>,
}

/// Count one question: its labels always; then it is excluded for image evidence, or for a
/// label that is unmapped or not indexed (or for having none), or else it is eligible and
/// its anchors are checked.
pub open spec fn coverage_step(
    t: CoverageCount,
    q: Question,
    indexed: Seq<Seq<char>>,
    headings: Seq<(Seq<char>, Seq<Seq<char>>)>,
) -> CoverageCount {
    let rel = texts(q.relevant@);
    let un = texts(q.unmapped_qrels@);
    let present = count_in(rel, indexed);
    let an = anchors_view(q);
    let found = found_count(an, indexed, headings);
    let excluded_image = q.image_evidence;
    let missing_page = !q.image_evidence && (un.len() > 0 || present < rel.len() || rel.len() == 0);
    let eligible = !q.image_evidence && !missing_page;
    CoverageCount {
        qrels: t.qrels + rel.len() + un.len(),
        qrels_indexed: t.qrels_indexed + present,
        qrels_unmapped: t.qrels_unmapped + un.len(),
        excluded_image: t.excluded_image + if excluded_image { 1nat } else { 0nat },
        excluded_missing: t.excluded_missing + if missing_page { 1nat } else { 0nat },
        eligible: t.eligible + if eligible { 1nat } else { 0nat },
        multimodal: t.multimodal + if eligible && q.multimodal_judgment { 1nat } else { 0nat },
        anchors: t.anchors + if eligible { an.len() } else { 0nat },
        anchors_found: t.anchors_found + if eligible { found } else { 0nat },
        missing: if eligible && found < an.len() { t.missing.push(q.id@) } else { t.missing },
    }
}

/// The counts over a list of questions.
pub open spec fn coverage_fold(
    qs: Seq<Question>,
    indexed: Seq<Seq<char>>,
    headings: Seq<(Seq<char>, Seq<Seq<char>>)>,
) -> CoverageCount
    decreases qs.len(),
{
    if qs.len() == 0 {
        CoverageCount {
            qrels: 0,
            qrels_indexed: 0,
            qrels_unmapped: 0,
            excluded_image: 0,
            excluded_missing: 0,
            eligible: 0,
            multimodal: 0,
            anchors: 0,
            anchors_found: 0,
            missing: Seq::empty(),
        }
    } else {
        coverage_step(coverage_fold(qs.drop_last(), indexed, headings), qs.last(), indexed, headings)
    }
}

/// Every label and anchor of the questions, plus one per question: all the counts of a
/// coverage report stay below it.
pub open spec fn labels_total(qs: Seq<Question>) -> nat
    decreases qs.len(),
{
    if qs.len() == 0 {
        0
    } else {
        let q = qs.last();
        labels_total(qs.drop_last()) + q.relevant@.len() + q.unmapped_qrels@.len() + q.anchors@.len()
            + 1
    }
}

proof fn lemma_coverage_bounds(
    qs: Seq<Question>,
    indexed: Seq<Seq<char>>,
    headings: Seq<(Seq<char>, Seq<Seq<char>>)>,
)
    ensures
        ({
            let t = coverage_fold(qs, indexed, headings);
            &&& t.qrels + t.anchors + qs.len() <= labels_total(qs)
            &&& t.qrels_indexed + t.qrels_unmapped <= t.qrels
            &&& t.excluded_image + t.excluded_missing + t.eligible == qs.len()
            &&& t.multimodal <= t.eligible
            &&& t.anchors_found <= t.anchors
            &&& t.missing.len() <= t.eligible
        }),
    decreases qs.len(),
{
    if qs.len() > 0 {
        lemma_coverage_bounds(qs.drop_last(), indexed, headings);
        let q = qs.last();
        lemma_count_in_bound(texts(q.relevant@), indexed);
        lemma_found_bound(anchors_view(q), indexed, headings);
    }
}

/// The counts of a coverage report add up: every question is excluded for image evidence,
/// excluded for a missing page, or eligible; multimodal questions, questions with a missing
/// anchor and found anchors are among the eligible ones and their anchors; indexed and
/// unmapped labels are among all labels. [`coverage`] reports exactly these counts.
pub proof fn law_coverage_counts_add_up(
    qs: Seq<Question>,
    indexed: Seq<Seq<char>>,
    headings: Seq<(Seq<char>, Seq<Seq<char>>)>,
)
    ensures
        ({
            let t = coverage_fold(qs, indexed, headings);
            &&& t.excluded_image + t.excluded_missing + t.eligible == qs.len()
            &&& t.multimodal <= t.eligible
            &&& t.qrels_indexed + t.qrels_unmapped <= t.qrels
            &&& t.anchors_found <= t.anchors
            &&& t.missing.len() <= t.eligible
        }),
{
    lemma_coverage_bounds(qs, indexed, headings);
}

/// The ingestion gate: how much of the dataset the index can see.
#[derive(Debug, Clone, PartialEq, Eq)]
pub struct Coverage {
    /// Project id.
    pub project: String,
    /// Pages in the dataset corpus for this project.
    pub corpus_pages: usize,
    /// Of those, pages whose source path is a document in the store.
    pub corpus_pages_indexed: usize,
    /// Relevance labels over all questions.
    pub qrels: usize,
    /// Labels whose page is in the store.
    pub qrels_indexed: usize,
    /// Labels that no corpus row maps.
    pub qrels_unmapped: usize,
    /// Questions in the project.
    pub questions: usize,
    /// Questions excluded because their evidence is image-derived text.
    pub excluded_image_evidence: usize,
    /// Questions excluded because a label is unmapped or not indexed.
    pub excluded_missing_page: usize,
    /// Questions left for scoring.
    pub eligible: usize,
    /// Eligible questions whose grading needs multimodal judgment.
    pub multimodal_judgment: usize,
    /// Evidence anchors over the eligible questions.
    pub anchors: usize,
    /// Anchors whose heading (or page) was found in the indexed text.
    pub anchors_found: usize,
    /// Eligible questions with at least one anchor not found.
    pub questions_with_missing_anchor: usize,
    /// Their ids.
    pub missing_anchor_ids: Vec<String>,
}

/// Whether one anchor is found (see [`anchor_found`]).
fn check_anchor(
    page: &String,
    heading: &Option<String>,
    indexed: &Vec<String>,
    headings: &Vec<(String, Vec<String>)>,
) -> (b: bool)
    ensures
        b == anchor_found((page@, opt_view(*heading)), texts(indexed@), headings_view(headings@)),
{
    match heading {
        None => {
            assert(indexed@.map_values(|x: String| x@) =~= texts(indexed@));
            contains_string(indexed, page)
        },
        Some(h) => {
            let needle = normalize_heading(h.as_str());
            if crate::text::is_empty_text(needle.as_str()) {
                return false;
            }
            let ghost hv = headings_view(headings@);
            let mut i: usize = 0;
            assert(hv.skip(0) =~= hv);
            while i < headings.len()
                invariant
                    i <= headings.len(),
                    hv == headings_view(headings@),
                    opt_view(*heading) == Some(h@),
                    needle@ == normalize_heading_of(h@),
                    needle@.len() > 0,
                    headings_of(hv, page@) == headings_of(hv.skip(i as int), page@),
                decreases headings.len() - i,
            {
                assert(hv.skip(i as int)[0] == hv[i as int]);
                if crate::text::same_text(headings[i].0.as_str(), page.as_str()) {
                    let hp = &headings[i].1;
                    assert(headings_of(hv, page@) == Some(texts(hp@)));
                    let mut k: usize = 0;
                    while k < hp.len()
                        invariant
                            k <= hp.len(),
                            headings_of(hv, page@) == Some(texts(hp@)),
                            hv == headings_view(headings@),
                            opt_view(*heading) == Some(h@),
                            needle@ == normalize_heading_of(h@),
                            needle@.len() > 0,
                            forall|q: int| 0 <= q < k ==> !contains_seq(#[trigger] texts(hp@)[q], needle@),
                        decreases hp.len() - k,
                    {
                        if contains_str(hp[k].as_str(), needle.as_str()) {
                            assert(contains_seq(texts(hp@)[k as int], needle@));
                            let ghost hpv = texts(hp@);
                            assert(some_contains(hpv, needle@));
                            return true;
                        }
                        k = k + 1;
                    }
                    return false;
                }
                assert(hv.skip(i as int).drop_first() =~= hv.skip(i + 1));
                i = i + 1;
            }
            false
        },
    }
}

/// Compute the coverage of `dataset` against an indexed store: `indexed` lists the paths
/// of the live documents, and `headings` gives, for the pages that anchors point to, the
/// normalised heading paths of their sections and title (see [`normalize_heading`]). The
/// counts are those of [`coverage_fold`]; the share of indexed labels is left to the
/// caller, as `qrels_indexed / qrels`.
pub fn coverage(dataset: &Dataset, indexed: &Vec<String>, headings: &Vec<(String, Vec<String>)>) -> (c: Coverage)
    requires
        labels_total(dataset.questions@) <= usize::MAX,
    ensures
        ({
            let t = coverage_fold(dataset.questions@, texts(indexed@), headings_view(headings@));
            &&& c.project == dataset.project
            &&& c.corpus_pages == dataset.pages@.len()
            &&& c.corpus_pages_indexed == count_in(
                pairs_view(dataset.pages@).map_values(|p: (Seq<char>, Seq<char>)| p.1),
                texts(indexed@),
            )
            &&& c.qrels == t.qrels
            &&& c.qrels_indexed == t.qrels_indexed
            &&& c.qrels_unmapped == t.qrels_unmapped
            &&& c.questions == dataset.questions@.len()
            &&& c.excluded_image_evidence == t.excluded_image
            &&& c.excluded_missing_page == t.excluded_missing
            &&& c.eligible == t.eligible
            &&& c.multimodal_judgment == t.multimodal
            &&& c.anchors == t.anchors
            &&& c.anchors_found == t.anchors_found
            &&& texts(c.missing_anchor_ids@) == t.missing
            &&& c.questions_with_missing_anchor == t.missing.len()
        }),
{
    let ghost iv = texts(indexed@);
    let ghost hv = headings_view(headings@);
    let ghost qs = dataset.questions@;
    // Corpus pages that are indexed.
    let ghost pp = pairs_view(dataset.pages@).map_values(|p: (Seq<char>, Seq<char>)| p.1);
    let mut corpus_pages_indexed: usize = 0;
    let mut j: usize = 0;
    while j < dataset.pages.len()
        invariant
            j <= dataset.pages.len(),
            iv == texts(indexed@),
            pp == pairs_view(dataset.pages@).map_values(|p: (Seq<char>, Seq<char>)| p.1),
            corpus_pages_indexed == count_in(pp.take(j as int), iv),
            corpus_pages_indexed <= j,
        decreases dataset.pages.len() - j,
    {
        assert(pp.take(j + 1).drop_last() =~= pp.take(j as int));
        assert(pp.take(j + 1).last() == dataset.pages@[j as int].1@);
        assert(indexed@.map_values(|x: String| x@) =~= texts(indexed@));
        if contains_string(indexed, &dataset.pages[j].1) {
            corpus_pages_indexed = corpus_pages_indexed + 1;
        }
        j = j + 1;
    }
    assert(pp.take(dataset.pages.len() as int) =~= pp);
    let mut qrels: usize = 0;
    let mut qrels_indexed: usize = 0;
    let mut qrels_unmapped: usize = 0;
    let mut excluded_image: usize = 0;
    let mut excluded_missing: usize = 0;
    let mut eligible: usize = 0;
    let mut multimodal: usize = 0;
    let mut anchors: usize = 0;
    let mut anchors_found: usize = 0;
    let mut missing_anchor_ids: Vec<String> = Vec::new();
    let mut i: usize = 0;
    proof {
        lemma_coverage_bounds(qs, iv, hv);
    }
    while i < dataset.questions.len()
        invariant
            i <= dataset.questions.len(),
            qs == dataset.questions@,
            iv == texts(indexed@),
            hv == headings_view(headings@),
            labels_total(qs) <= usize::MAX,
            ({
                let t = coverage_fold(qs.take(i as int), iv, hv);
                &&& qrels == t.qrels
                &&& qrels_indexed == t.qrels_indexed
                &&& qrels_unmapped == t.qrels_unmapped
                &&& excluded_image == t.excluded_image
                &&& excluded_missing == t.excluded_missing
                &&& eligible == t.eligible
                &&& multimodal == t.multimodal
                &&& anchors == t.anchors
                &&& anchors_found == t.anchors_found
                &&& texts(missing_anchor_ids@) == t.missing
            }),
        decreases dataset.questions.len() - i,
    {
        let q = &dataset.questions[i];
        let ghost pre = qs.take(i as int);
        assert(qs.take(i + 1).drop_last() =~= pre);
        assert(qs.take(i + 1).last() == *q);
        proof {
            lemma_labels_total_prefix(qs, i + 1);
            lemma_coverage_bounds(qs.take(i + 1), iv, hv);
        }
        let present = count_present(&q.relevant, indexed);
        qrels = qrels + q.relevant.len() + q.unmapped_qrels.len();
        qrels_unmapped = qrels_unmapped + q.unmapped_qrels.len();
        qrels_indexed = qrels_indexed + present;
        if q.image_evidence {
            excluded_image = excluded_image + 1;
        } else if q.unmapped_qrels.len() > 0 || present < q.relevant.len() || q.relevant.len() == 0 {
            excluded_missing = excluded_missing + 1;
        } else {
            eligible = eligible + 1;
            if q.multimodal_judgment {
                multimodal = multimodal + 1;
            }
            let ghost an = anchors_view(*q);
            let mut found: usize = 0;
            let mut k: usize = 0;
            while k < q.anchors.len()
                invariant
                    k <= q.anchors.len(),
                    an == anchors_view(*q),
                    iv == texts(indexed@),
                    hv == headings_view(headings@),
                    found == found_count(an.take(k as int), iv, hv),
                    found <= k,
                decreases q.anchors.len() - k,
            {
                assert(an.take(k + 1).drop_last() =~= an.take(k as int));
                assert(an.take(k + 1).last() == (q.anchors@[k as int].0@, opt_view(q.anchors@[k as int].1)));
                if check_anchor(&q.anchors[k].0, &q.anchors[k].1, indexed, headings) {
                    found = found + 1;
                }
                k = k + 1;
            }
            assert(an.take(q.anchors.len() as int) =~= an);
            anchors = anchors + q.anchors.len();
            anchors_found = anchors_found + found;
            if found < q.anchors.len() {
                let ghost before = texts(missing_anchor_ids@);
                missing_anchor_ids.push(q.id.clone());
                assert(texts(missing_anchor_ids@) =~= before.push(q.id@));
            }
        }
        i = i + 1;
    }
    assert(qs.take(dataset.questions.len() as int) =~= qs);
    let n_missing = missing_anchor_ids.len();
    Coverage {
        project: dataset.project.clone(),
        corpus_pages: dataset.pages.len(),
        corpus_pages_indexed,
        qrels,
        qrels_indexed,
        qrels_unmapped,
        questions: dataset.questions.len(),
        excluded_image_evidence: excluded_image,
        excluded_missing_page: excluded_missing,
        eligible,
        multimodal_judgment: multimodal,
        anchors,
        anchors_found,
        questions_with_missing_anchor: n_missing,
        missing_anchor_ids,
    }
}

/// The total of a prefix is at most the total.
proof fn lemma_labels_total_prefix(qs: Seq<Question>, i: int)
    requires
        0 <= i <= qs.len(),
    ensures
        labels_total(qs.take(i)) <= labels_total(qs),
    decreases qs.len() - i,
{
    if i < qs.len() {
        lemma_labels_total_prefix(qs, i + 1);
        assert(qs.take(i + 1).drop_last() =~= qs.take(i));
    } else {
        assert(qs.take(i) =~= qs);
    }
}

/// Whether a question is scored: not image evidence, every label mapped and indexed, and at
/// least one label.
pub open spec fn is_eligible(q: Question, indexed: Seq<Seq<char>>) -> bool {
    &&& !q.image_evidence
    &&& q.unmapped_qrels@.len() == 0
    &&& q.relevant@.len() > 0
    &&& forall|k: int| 0 <= k < q.relevant@.len() ==> indexed.contains(#[trigger] q.relevant@[k]@)
}

/// Whether a question is scored (see [`is_eligible`]).
pub fn eligible(q: &Question, indexed: &Vec<String>) -> (b: bool)
    ensures
        b == is_eligible(*q, texts(indexed@)),
{
    if q.image_evidence || q.unmapped_qrels.len() > 0 || q.relevant.len() == 0 {
        return false;
    }
    let mut k: usize = 0;
    while k < q.relevant.len()
        invariant
            k <= q.relevant.len(),
            forall|j: int| 0 <= j < k ==> texts(indexed@).contains(#[trigger] q.relevant@[j]@),
        decreases q.relevant.len() - k,
    {
        assert(indexed@.map_values(|x: String| x@) =~= texts(indexed@));
        if !contains_string(indexed, &q.relevant[k]) {
            return false;
        }
        k = k + 1;
    }
    true
}

} // verus!

verus! {

/// Upper bound on sections fetched for one question.
pub const FETCH_CAP: usize = 2000;

/// Pages needed for nDCG@10.
pub const PAGES_NEEDED: usize = 10;

/// How to run one configuration.
#[derive(Debug, Clone, PartialEq, Eq)]
pub struct RunOptions {
    /// Name for the row.
    pub name: String,
    /// Skip cards and vectors.
    pub raw_only: bool,
    /// Sections fetched per query at first; doubled until ten distinct pages are in hand,
    /// the results run out, or [`FETCH_CAP`] is reached.
    pub fetch: usize,
    /// Score holdout questions too (only at 1.0).
    pub include_holdout: bool,
}

/// One row of an external arm's output: the ranked repository paths its driver returned
/// for one question, and whether the driver hit a limit before ten distinct pages.
#[derive(Debug, Clone, PartialEq, Eq)]
pub struct ArmRow {
    /// `question_id`.
    pub question_id: String,
    /// Repository-relative paths, best first; duplicates and `./` prefixes are tolerated.
    pub paths: Vec<String>,
    /// The driver could not reach ten distinct pages or exhaustion.
    pub truncated: bool,
}

/// Whether two rows of an arm's output answer the same question (an error: two ranked
/// lists for one question cannot both be the arm's answer).
pub fn has_repeated_question(rows: &Vec<ArmRow>) -> (b: bool)
    ensures
        b == !rows@.map_values(|r: ArmRow| r.question_id@).no_duplicates(),
{
    let ghost ids = rows@.map_values(|r: ArmRow| r.question_id@);
    let mut i: usize = 0;
    while i < rows.len()
        invariant
            i <= rows.len(),
            ids == rows@.map_values(|r: ArmRow| r.question_id@),
            forall|a: int, b: int| 0 <= a < b < i ==> ids[a] != ids[b],
        decreases rows.len() - i,
    {
        let mut j: usize = 0;
        while j < i
            invariant
                j <= i < rows.len(),
                ids == rows@.map_values(|r: ArmRow| r.question_id@),
                forall|a: int| 0 <= a < j ==> ids[a] != ids[i as int],
            decreases i - j,
        {
            if crate::text::same_text(rows[j].question_id.as_str(), rows[i].question_id.as_str()) {
                assert(ids[j as int] == ids[i as int]);
                return true;
            }
            j = j + 1;
        }
        i = i + 1;
    }
    false
}

/// The split of a question: the one `splits` gives its id, `Holdout` for an id it lacks.
pub open spec fn split_of_question(splits: Seq<(Seq<char>, Split)>, id: Seq<char>) -> Split
    decreases splits.len(),
{
    if splits.len() == 0 {
        Split::Holdout
    } else if splits[0].0 == id {
        splits[0].1
    } else {
        split_of_question(splits.drop_first(), id)
    }
}

/// The split of a question (see [`split_of_question`]).
pub fn question_split(splits: &Vec<(String, Split)>, id: &str) -> (s: Split)
    ensures
        s == split_of_question(crate::split::split_view(splits@), id@),
{
    let ghost sv = crate::split::split_view(splits@);
    let mut i: usize = 0;
    assert(sv.skip(0) =~= sv);
    while i < splits.len()
        invariant
            i <= splits.len(),
            sv == crate::split::split_view(splits@),
            split_of_question(sv, id@) == split_of_question(sv.skip(i as int), id@),
        decreases splits.len() - i,
    {
        assert(sv.skip(i as int)[0] == sv[i as int]);
        if crate::text::same_text(splits[i].0.as_str(), id) {
            return splits[i].1;
        }
        assert(sv.skip(i as int).drop_first() =~= sv.skip(i + 1));
        i = i + 1;
    }
    Split::Holdout
}

/// A question is scored when it is eligible, belongs to the chosen split (any split when
/// none is chosen), and is not a holdout question unless those are included.
pub open spec fn is_scored(
    q: Question,
    indexed: Seq<Seq<char>>,
    q_split: Split,
    split: Option<Split>,
    include_holdout: bool,
) -> bool {
    &&& is_eligible(q, indexed)
    &&& !(split matches Some(s) && s != q_split)
    &&& !(q_split == Split::Holdout && !include_holdout)
}

/// Whether a question is scored (see [`is_scored`]).
pub fn scored(q: &Question, indexed: &Vec<String>, q_split: Split, split: Option<Split>, include_holdout: bool) -> (b: bool)
    ensures
        b == is_scored(*q, texts(indexed@), q_split, split, include_holdout),
{
    if !eligible(q, indexed) {
        return false;
    }
    match split {
        Some(s) => {
            if s != q_split {
                return false;
            }
        },
        None => {},
    }
    !(q_split == Split::Holdout && !include_holdout)
}

/// What to do after one search of a question: stop (flagging a stop at the cap before ten
/// distinct pages as truncated), or search again, fetching this many.
#[derive(Debug, Clone, Copy, PartialEq, Eq, Structural)]
pub enum FetchStep {
    /// Stop; `true` when the cap cut the search short.
    Done(bool),
    /// Search again with this fetch.
    Deeper(usize),
}

/// After fetching `fetch` sections, `hits` came back over `pages` distinct pages: enough
/// pages or exhausted results stop; at the cap the search stops truncated; otherwise it
/// doubles, up to the cap.
pub open spec fn fetch_step_of(fetch: usize, hits: usize, pages: usize) -> FetchStep {
    if pages >= PAGES_NEEDED || hits < fetch {
        FetchStep::Done(false)
    } else if fetch >= FETCH_CAP {
        FetchStep::Done(true)
    } else if 2 * fetch > FETCH_CAP {
        FetchStep::Deeper(FETCH_CAP)
    } else {
        FetchStep::Deeper((2 * fetch) as usize)
    }
}

/// The next step of a question's search (see [`fetch_step_of`]).
pub fn fetch_step(fetch: usize, hits: usize, pages: usize) -> (s: FetchStep)
    ensures
        s == fetch_step_of(fetch, hits, pages),
{
    if pages >= PAGES_NEEDED || hits < fetch {
        FetchStep::Done(false)
    } else if fetch >= FETCH_CAP {
        FetchStep::Done(true)
    } else if fetch > FETCH_CAP / 2 {
        FetchStep::Deeper(FETCH_CAP)
    } else {
        FetchStep::Deeper(fetch * 2)
    }
}

/// The first fetch of a question: the configured one, between 1 and [`FETCH_CAP`].
pub fn first_fetch(fetch: usize) -> (f: usize)
    ensures
        f == (if fetch < 1 {
            1
        } else if fetch > FETCH_CAP {
            FETCH_CAP
        } else {
            fetch
        }),
{
    if fetch < 1 {
        1
    } else if fetch > FETCH_CAP {
        FETCH_CAP
    } else {
        fetch
    }
}

/// The 1-based rank of the first page of `ranked` that is relevant.
pub open spec fn first_relevant_of(ranked: Seq<Seq<char>>, relevant: Seq<Seq<char>>) -> Option<nat>
    decreases ranked.len(),
{
    if ranked.len() == 0 {
        None
    } else if relevant.contains(ranked[0]) {
        Some(1)
    } else {
        match first_relevant_of(ranked.drop_first(), relevant) {
            Some(r) => Some(r + 1),
            None => None,
        }
    }
}

/// The rank of the first relevant page (see [`first_relevant_of`]).
pub fn first_relevant_rank(ranked: &Vec<String>, relevant: &Vec<String>) -> (r: Option<usize>)
    ensures
        match first_relevant_of(texts(ranked@), texts(relevant@)) {
            Some(k) => r == Some(k as usize),
            None => r is None,
        },
{
    let ghost rv = texts(ranked@);
    let mut i: usize = 0;
    assert(rv.skip(0) =~= rv);
    while i < ranked.len()
        invariant
            i <= ranked.len(),
            rv == texts(ranked@),
            first_relevant_of(rv, texts(relevant@)) == (match first_relevant_of(rv.skip(i as int), texts(relevant@)) {
                Some(k) => Some((k + i) as nat),
                None => None,
            }),
        decreases ranked.len() - i,
    {
        assert(rv.skip(i as int)[0] == rv[i as int]);
        assert(relevant@.map_values(|s: String| s@) =~= texts(relevant@));
        if contains_string(relevant, &ranked[i]) {
            return Some(i + 1);
        }
        assert(rv.skip(i as int).drop_first() =~= rv.skip(i + 1));
        i = i + 1;
    }
    None
}

} // verus!

verus! {

/// The positions of the questions a run scores, in dataset order (see [`is_scored`]); a
/// question without a split counts as `Holdout`.
pub open spec fn scored_positions(
    qs: Seq<Question>,
    indexed: Seq<Seq<char>>,
    splits: Seq<(Seq<char>, Split)>,
    split: Option<Split>,
    include_holdout: bool,
) -> Seq<int>
    decreases qs.len(),
{
    if qs.len() == 0 {
        Seq::empty()
    } else {
        let prev = scored_positions(qs.drop_last(), indexed, splits, split, include_holdout);
        let q = qs.last();
        if is_scored(q, indexed, split_of_question(splits, q.id@), split, include_holdout) {
            prev.push(qs.len() - 1)
        } else {
            prev
        }
    }
}

/// The questions a run scores (see [`scored_positions`]), as positions in the dataset.
pub fn scored_questions(
    dataset: &Dataset,
    indexed: &Vec<String>,
    splits: &Vec<(String, Split)>,
    split: Option<Split>,
    include_holdout: bool,
) -> (r: Vec<usize>)
    ensures
        r@.map_values(|k: usize| k as int) == scored_positions(
            dataset.questions@,
            texts(indexed@),
            crate::split::split_view(splits@),
            split,
            include_holdout,
        ),
{
    let ghost qs = dataset.questions@;
    let mut r: Vec<usize> = Vec::new();
    let mut k: usize = 0;
    while k < dataset.questions.len()
        invariant
            k <= dataset.questions.len(),
            qs == dataset.questions@,
            r@.map_values(|k: usize| k as int) == scored_positions(
                qs.take(k as int),
                texts(indexed@),
                crate::split::split_view(splits@),
                split,
                include_holdout,
            ),
        decreases dataset.questions.len() - k,
    {
        proof {
            assert(qs.take(k + 1).drop_last() =~= qs.take(k as int));
            assert(qs.take(k + 1).last() == qs[k as int]);
        }
        let q = &dataset.questions[k];
        let s = question_split(splits, q.id.as_str());
        let ghost before = r@;
        if scored(q, indexed, s, split, include_holdout) {
            r.push(k);
            assert(r@.map_values(|k: usize| k as int) =~= before.map_values(|k: usize| k as int).push(k as int));
        }
        k = k + 1;
    }
    assert(qs.take(qs.len() as int) =~= qs);
    r
}

} // verus!
