//! Assembling one project of the question-answering dataset from its parsed rows: the page
//! map of the corpus, each question joined with its answer record, and the refusals the
//! loader reports. Reading and parsing the JSON-lines files happens around this.

use vstd::prelude::*;
use crate::docsqa::{
    anchor_of, anchors_view, labels_of, lookup_of, map_labels, pairs_view, resolve_anchor, Dataset, Question,
};
use crate::error::Error;
use crate::sets::{same_members, sorted_set, strictly_sorted};
use crate::text::{join, join_of, push_str, same_text, text_less, text_lt, lemma_text_lt_order, texts};

verus! {

/// One row of the corpus file.
#[derive(Debug, Clone, PartialEq, Eq)]
pub struct CorpusRow {
    /// The page's id.
    pub doc_id: String,
    /// The project the page belongs to.
    pub project: String,
    /// The page's repository-relative source path.
    pub repository_source_path: String,
}

/// The path the corpus gives `doc_id` in `project`: the last matching row's, as a map that
/// is filled in file order keeps it.
pub open spec fn last_path(corpus: Seq<CorpusRow>, project: Seq<char>, doc_id: Seq<char>) -> Option<Seq<char>>
    decreases corpus.len(),
{
    if corpus.len() == 0 {
        None
    } else if corpus.last().project@ == project && corpus.last().doc_id@ == doc_id {
        Some(corpus.last().repository_source_path@)
    } else {
        last_path(corpus.drop_last(), project, doc_id)
    }
}

/// The keys of a list of pairs.
pub open spec fn page_keys(pages: Seq<(Seq<char>, Seq<char>)>) -> Seq<Seq<char>> {
    pages.map_values(|p: (Seq<char>, Seq<char>)| p.0)
}

/// `pages` is the page map of `project` in `corpus`: one entry per page id, in increasing
/// id order, each with the path [`last_path`] gives it.
pub open spec fn is_page_map(pages: Seq<(Seq<char>, Seq<char>)>, corpus: Seq<CorpusRow>, project: Seq<char>) -> bool {
    &&& strictly_sorted(page_keys(pages))
    &&& forall|x: Seq<char>| #[trigger] lookup_of(pages, x) == last_path(corpus, project, x)
}

proof fn lemma_lookup_concat(a: Seq<(Seq<char>, Seq<char>)>, b: Seq<(Seq<char>, Seq<char>)>, x: Seq<char>)
    ensures
        lookup_of(a + b, x) == match lookup_of(a, x) {
            Some(v) => Some(v),
            None => lookup_of(b, x),
        },
    decreases a.len(),
{
    if a.len() > 0 {
        assert((a + b).drop_first() =~= a.drop_first() + b);
        lemma_lookup_concat(a.drop_first(), b, x);
    } else {
        assert(a + b =~= b);
    }
}

proof fn lemma_lookup_absent(a: Seq<(Seq<char>, Seq<char>)>, x: Seq<char>)
    requires
        forall|i: int| 0 <= i < a.len() ==> (#[trigger] a[i]).0 != x,
    ensures
        lookup_of(a, x) is None,
    decreases a.len(),
{
    if a.len() > 0 {
        assert(a[0].0 != x);
        assert forall|i: int| 0 <= i < a.drop_first().len() implies (#[trigger] a.drop_first()[i]).0 != x by {
            assert(a.drop_first()[i] == a[i + 1]);
        }
        lemma_lookup_absent(a.drop_first(), x);
    }
}

/// Set the path of `k` in a page map sorted by id: replace it where `k` is present, else
/// insert it in its place.
fn put_page(pages: &mut Vec<(String, String)>, k: String, v: String)
    requires
        strictly_sorted(page_keys(pairs_view(old(pages)@))),
    ensures
        strictly_sorted(page_keys(pairs_view(final(pages)@))),
        forall|x: Seq<char>| #[trigger] lookup_of(pairs_view(final(pages)@), x) == if x == k@ {
            Some(v@)
        } else {
            lookup_of(pairs_view(old(pages)@), x)
        },
{
    let ghost s = pairs_view(pages@);
    let ghost kk = k@;
    let ghost vv = v@;
    let mut p: usize = 0;
    while p < pages.len() && text_less(pages[p].0.as_str(), k.as_str())
        invariant
            p <= pages.len(),
            s == pairs_view(pages@),
            kk == k@,
            forall|i: int| 0 <= i < p ==> text_lt(#[trigger] s[i].0, kk),
        decreases pages.len() - p,
    {
        p = p + 1;
    }
    let ghost a = s.take(p as int);
    assert forall|i: int| 0 <= i < a.len() implies (#[trigger] a[i]).0 != kk by {
        assert(a[i] == s[i]);
        lemma_text_lt_order(s[i].0, kk, kk);
    }
    proof {
        lemma_lookup_absent(a, kk);
    }
    if p < pages.len() && same_text(pages[p].0.as_str(), k.as_str()) {
        pages.set(p, (k, v));
        proof {
            let n = pairs_view(pages@);
            let c = s.skip(p + 1);
            assert(n =~= a + (seq![(kk, vv)] + c));
            assert(s =~= a + (seq![s[p as int]] + c));
            assert forall|x: Seq<char>| #[trigger] lookup_of(n, x) == if x == kk { Some(vv) } else { lookup_of(s, x) } by {
                lemma_lookup_concat(a, seq![(kk, vv)] + c, x);
                lemma_lookup_concat(a, seq![s[p as int]] + c, x);
                assert((seq![(kk, vv)] + c).drop_first() =~= c);
                assert((seq![s[p as int]] + c).drop_first() =~= c);
                if x != kk {
                    lemma_lookup_absent(a, kk);
                }
            }
            assert(page_keys(n) =~= page_keys(s).update(p as int, kk));
            assert(page_keys(s)[p as int] == kk);
            assert(page_keys(n) =~= page_keys(s));
        }
    } else {
        pages.insert(p, (k, v));
        proof {
            let n = pairs_view(pages@);
            let c = s.skip(p as int);
            assert(n =~= a + (seq![(kk, vv)] + c));
            assert(s =~= a + c);
            assert forall|x: Seq<char>| #[trigger] lookup_of(n, x) == if x == kk { Some(vv) } else { lookup_of(s, x) } by {
                lemma_lookup_concat(a, seq![(kk, vv)] + c, x);
                lemma_lookup_concat(a, c, x);
                assert((seq![(kk, vv)] + c).drop_first() =~= c);
            }
            let ks = page_keys(s);
            let kn = page_keys(n);
            if p < s.len() {
                lemma_text_lt_order(kk, ks[p as int], ks[p as int]);
                lemma_text_lt_order(ks[p as int], kk, kk);
                assert(text_lt(kk, ks[p as int]));
            }
            assert forall|i: int, j: int| 0 <= i < j < kn.len() implies text_lt(#[trigger] kn[i], #[trigger] kn[j]) by {
                if j < p {
                    assert(kn[i] == ks[i] && kn[j] == ks[j]);
                } else if j == p {
                    assert(kn[i] == ks[i] && kn[j] == kk);
                } else if i < p {
                    assert(kn[i] == ks[i] && kn[j] == ks[j - 1]);
                    assert(text_lt(ks[i], kk));
                    if j - 1 > p {
                        assert(text_lt(ks[p as int], ks[j - 1]));
                        lemma_text_lt_order(kk, ks[p as int], ks[j - 1]);
                    }
                    lemma_text_lt_order(ks[i], kk, ks[j - 1]);
                } else if i == p {
                    assert(kn[i] == kk && kn[j] == ks[j - 1]);
                    if j - 1 > p {
                        assert(text_lt(ks[p as int], ks[j - 1]));
                        lemma_text_lt_order(kk, ks[p as int], ks[j - 1]);
                    }
                } else {
                    assert(kn[i] == ks[i - 1] && kn[j] == ks[j - 1]);
                }
            }
        }
    }
}

/// The page map of `project` (see [`is_page_map`]).
pub fn page_map(corpus: &Vec<CorpusRow>, project: &str) -> (pages: Vec<(String, String)>)
    ensures
        is_page_map(pairs_view(pages@), corpus@, project@),
{
    let mut pages: Vec<(String, String)> = Vec::new();
    let mut j: usize = 0;
    assert(page_keys(pairs_view(pages@)) =~= Seq::<Seq<char>>::empty());
    while j < corpus.len()
        invariant
            j <= corpus.len(),
            is_page_map(pairs_view(pages@), corpus@.take(j as int), project@),
        decreases corpus.len() - j,
    {
        let ghost before = pairs_view(pages@);
        proof {
            assert(corpus@.take(j + 1).drop_last() =~= corpus@.take(j as int));
            assert(corpus@.take(j + 1).last() == corpus@[j as int]);
        }
        if same_text(corpus[j].project.as_str(), project) {
            put_page(&mut pages, corpus[j].doc_id.clone(), corpus[j].repository_source_path.clone());
        }
        assert forall|x: Seq<char>| #[trigger] lookup_of(pairs_view(pages@), x) == last_path(
            corpus@.take(j + 1),
            project@,
            x,
        ) by {
            assert(lookup_of(before, x) == last_path(corpus@.take(j as int), project@, x));
        }
        j = j + 1;
    }
    assert(corpus@.take(corpus.len() as int) =~= corpus@);
    pages
}

/// One row of the questions file.
#[derive(Debug, Clone, PartialEq, Eq)]
pub struct QuestionRow {
    /// The question's id.
    pub question_id: String,
    /// Its project.
    pub project: String,
    /// The agent input.
    pub query: String,
}

/// One evidence anchor of an answer record.
#[derive(Debug, Clone, PartialEq, Eq)]
pub struct AnchorRow {
    /// The page's id.
    pub doc_id: String,
    /// The anchor as the dataset resolved it (`document` or empty for the whole page).
    pub canonical_anchor: Option<String>,
    /// The heading the anchor names.
    pub canonical_heading: Option<String>,
}

/// One row of the answers file.
#[derive(Debug, Clone, PartialEq, Eq)]
pub struct AnswerRow {
    /// The question's id.
    pub question_id: String,
    /// The relevance labels: page ids.
    pub qrel_ids: Vec<String>,
    /// The evidence anchors.
    pub anchor_resolution: Vec<AnchorRow>,
    /// The reference answer needed evidence from image-derived text.
    pub image_text_evidence_used: bool,
    /// The reference answer needs multimodal judgment to grade.
    pub requires_multimodal_judgment: bool,
}

/// The questions of `project`, in file order.
pub open spec fn project_questions(rows: Seq<QuestionRow>, project: Seq<char>) -> Seq<QuestionRow>
    decreases rows.len(),
{
    if rows.len() == 0 {
        Seq::empty()
    } else if rows.last().project@ == project {
        project_questions(rows.drop_last(), project).push(rows.last())
    } else {
        project_questions(rows.drop_last(), project)
    }
}

/// The answer record of question `id`: the last row with that id, as a map filled in file
/// order keeps it.
pub open spec fn answer_index(answers: Seq<AnswerRow>, id: Seq<char>) -> Option<int>
    decreases answers.len(),
{
    if answers.len() == 0 {
        None
    } else if answers.last().question_id@ == id {
        Some(answers.len() - 1)
    } else {
        answer_index(answers.drop_last(), id)
    }
}

/// The position of the first question without an answer record.
pub open spec fn first_unanswered(qs: Seq<QuestionRow>, answers: Seq<AnswerRow>) -> Option<int>
    decreases qs.len(),
{
    if qs.len() == 0 {
        None
    } else {
        match first_unanswered(qs.drop_last(), answers) {
            Some(i) => Some(i),
            None => if answer_index(answers, qs.last().question_id@) is None {
                Some(qs.len() - 1)
            } else {
                None
            },
        }
    }
}

/// The anchors an answer's anchor rows resolve to, in order; rows whose page is not in the
/// map are skipped.
pub open spec fn anchors_of(rows: Seq<AnchorRow>, pages: Seq<(Seq<char>, Seq<char>)>) -> Seq<(Seq<char>, Option<Seq<char>>)>
    decreases rows.len(),
{
    if rows.len() == 0 {
        Seq::empty()
    } else {
        let r = rows.last();
        match anchor_of(r.doc_id@, crate::docsqa::opt_view(r.canonical_anchor), crate::docsqa::opt_view(r.canonical_heading), pages) {
            Some(a) => anchors_of(rows.drop_last(), pages).push(a),
            None => anchors_of(rows.drop_last(), pages),
        }
    }
}

/// `q` is question row `r` joined with its answer record `a` over the page map `pages`.
pub open spec fn question_fits(q: Question, r: QuestionRow, a: AnswerRow, pages: Seq<(Seq<char>, Seq<char>)>) -> bool {
    let labels = labels_of(texts(a.qrel_ids@), pages);
    &&& q.id@ == r.question_id@
    &&& q.query@ == r.query@
    &&& texts(q.relevant@) == labels.0
    &&& texts(q.unmapped_qrels@) == labels.1
    &&& anchors_view(q) == anchors_of(a.anchor_resolution@, pages)
    &&& q.image_evidence == a.image_text_evidence_used
    &&& q.multimodal_judgment == a.requires_multimodal_judgment
}

/// The message for a project without questions, naming the projects the file has.
pub open spec fn no_questions_message(project: Seq<char>, known: Seq<Seq<char>>) -> Seq<char> {
    "no questions for project \""@ + project + "\"; projects in the dataset: ["@ + join_of(
        known.map_values(|p: Seq<char>| "\""@ + p + "\""@),
        ", "@,
    ) + "]"@
}

fn find_answer(answers: &Vec<AnswerRow>, id: &str) -> (r: Option<usize>)
    ensures
        match answer_index(answers@, id@) {
            Some(i) => r == Some(i as usize) && 0 <= i < answers@.len(),
            None => r is None,
        },
{
    let mut j: usize = answers.len();
    assert(answers@.take(answers.len() as int) =~= answers@);
    while j > 0
        invariant
            j <= answers.len(),
            answer_index(answers@, id@) == answer_index(answers@.take(j as int), id@),
        decreases j,
    {
        proof {
            assert(answers@.take(j as int).drop_last() =~= answers@.take(j - 1));
            assert(answers@.take(j as int).last() == answers@[j - 1]);
        }
        if same_text(answers[j - 1].question_id.as_str(), id) {
            return Some(j - 1);
        }
        j = j - 1;
    }
    assert(answers@.take(0) =~= Seq::<AnswerRow>::empty());
    None
}

fn copy_row(r: &QuestionRow) -> (c: QuestionRow)
    ensures
        c == *r,
{
    QuestionRow { question_id: r.question_id.clone(), project: r.project.clone(), query: r.query.clone() }
}

fn resolve_anchors(rows: &Vec<AnchorRow>, pages: &Vec<(String, String)>) -> (r: Vec<(String, Option<String>)>)
    ensures
        r@.map_values(|a: (String, Option<String>)| (a.0@, crate::docsqa::opt_view(a.1))) == anchors_of(
            rows@,
            pairs_view(pages@),
        ),
{
    let mut r: Vec<(String, Option<String>)> = Vec::new();
    let mut i: usize = 0;
    while i < rows.len()
        invariant
            i <= rows.len(),
            r@.map_values(|a: (String, Option<String>)| (a.0@, crate::docsqa::opt_view(a.1))) == anchors_of(
                rows@.take(i as int),
                pairs_view(pages@),
            ),
        decreases rows.len() - i,
    {
        proof {
            assert(rows@.take(i + 1).drop_last() =~= rows@.take(i as int));
            assert(rows@.take(i + 1).last() == rows@[i as int]);
        }
        let ghost before = r@;
        match resolve_anchor(
            rows[i].doc_id.as_str(),
            &rows[i].canonical_anchor,
            &rows[i].canonical_heading,
            pages,
        ) {
            Some(a) => {
                r.push(a);
                assert(r@.map_values(|a: (String, Option<String>)| (a.0@, crate::docsqa::opt_view(a.1)))
                    =~= before.map_values(|a: (String, Option<String>)| (a.0@, crate::docsqa::opt_view(a.1))).push(
                    (r@.last().0@, crate::docsqa::opt_view(r@.last().1)),
                ));
            },
            None => {},
        }
        i = i + 1;
    }
    assert(rows@.take(rows.len() as int) =~= rows@);
    r
}

proof fn lemma_first_unanswered_extends(qs: Seq<QuestionRow>, answers: Seq<AnswerRow>, j: int)
    requires
        0 <= j <= qs.len(),
        first_unanswered(qs.take(j), answers) is Some,
    ensures
        first_unanswered(qs, answers) == first_unanswered(qs.take(j), answers),
    decreases qs.len() - j,
{
    if j == qs.len() {
        assert(qs.take(j) =~= qs);
    } else {
        assert(qs.take(j + 1).drop_last() =~= qs.take(j));
        lemma_first_unanswered_extends(qs, answers, j + 1);
    }
}

/// The project's questions, in file order.
fn questions_of(rows: &Vec<QuestionRow>, project: &str) -> (qs: Vec<QuestionRow>)
    ensures
        qs@ == project_questions(rows@, project@),
{
    let mut qs: Vec<QuestionRow> = Vec::new();
    let mut j: usize = 0;
    while j < rows.len()
        invariant
            j <= rows.len(),
            qs@ == project_questions(rows@.take(j as int), project@),
        decreases rows.len() - j,
    {
        proof {
            assert(rows@.take(j + 1).drop_last() =~= rows@.take(j as int));
            assert(rows@.take(j + 1).last() == rows@[j as int]);
        }
        if same_text(rows[j].project.as_str(), project) {
            qs.push(copy_row(&rows[j]));
        }
        j = j + 1;
    }
    assert(rows@.take(rows.len() as int) =~= rows@);
    qs
}

/// The message for a project without questions (see [`no_questions_message`]).
fn no_questions(project: &str, rows: &Vec<QuestionRow>) -> (m: String)
    ensures
        exists|ps: Seq<Seq<char>>|
            #![trigger no_questions_message(project@, ps)]
            strictly_sorted(ps) && same_members(ps, rows@.map_values(|q: QuestionRow| q.project@)) && m@
                == no_questions_message(project@, ps),
{
    let mut all: Vec<String> = Vec::new();
    let mut j: usize = 0;
    while j < rows.len()
        invariant
            j <= rows.len(),
            texts(all@) == rows@.take(j as int).map_values(|q: QuestionRow| q.project@),
        decreases rows.len() - j,
    {
        let ghost before = texts(all@);
        all.push(rows[j].project.clone());
        assert(texts(all@) =~= before.push(rows@[j as int].project@));
        assert(rows@.take(j + 1).map_values(|q: QuestionRow| q.project@) =~= rows@.take(j as int).map_values(
            |q: QuestionRow| q.project@,
        ).push(rows@[j as int].project@));
        j = j + 1;
    }
    assert(rows@.take(rows.len() as int) =~= rows@);
    let known = sorted_set(&all);
    let ghost ps = texts(known@);
    let mut quoted: Vec<String> = Vec::new();
    let mut i: usize = 0;
    while i < known.len()
        invariant
            i <= known.len(),
            ps == texts(known@),
            texts(quoted@) == ps.take(i as int).map_values(|p: Seq<char>| "\""@ + p + "\""@),
        decreases known.len() - i,
    {
        let mut q = String::new();
        push_str(&mut q, "\"");
        push_str(&mut q, known[i].as_str());
        push_str(&mut q, "\"");
        let ghost before = texts(quoted@);
        quoted.push(q);
        assert(texts(quoted@) =~= before.push("\""@ + ps[i as int] + "\""@));
        assert(ps.take(i + 1).map_values(|p: Seq<char>| "\""@ + p + "\""@) =~= ps.take(i as int).map_values(
            |p: Seq<char>| "\""@ + p + "\""@,
        ).push("\""@ + ps[i as int] + "\""@));
        i = i + 1;
    }
    assert(ps.take(known.len() as int) =~= ps);
    let mut m = String::new();
    push_str(&mut m, "no questions for project \"");
    push_str(&mut m, project);
    push_str(&mut m, "\"; projects in the dataset: [");
    let listed = join(&quoted, ", ");
    push_str(&mut m, listed.as_str());
    push_str(&mut m, "]");
    assert(m@ == no_questions_message(project@, ps));
    m
}

/// Assemble one project from the parsed rows of the three files: the page map of its corpus
/// rows (see [`is_page_map`]), and each of its questions, in file order, joined with its
/// answer record (see [`question_fits`]). Refused with [`Error::NotFound`] at the first of
/// its questions that has no answer record, else when the project has no question at all
/// (naming the projects the file has, in increasing order).
pub fn assemble_dataset(
    project: &str,
    corpus: &Vec<CorpusRow>,
    questions: &Vec<QuestionRow>,
    answers: &Vec<AnswerRow>,
) -> (r: Result<Dataset, Error>)
    ensures
        ({
            let qs = project_questions(questions@, project@);
            match first_unanswered(qs, answers@) {
                Some(i) => r matches Err(Error::NotFound(m)) && m@ == "answers.jsonl has no record for "@
                    + qs[i].question_id@,
                None => if qs.len() == 0 {
                    r matches Err(Error::NotFound(m)) && exists|ps: Seq<Seq<char>>|
                        #![trigger no_questions_message(project@, ps)]
                        strictly_sorted(ps) && same_members(ps, questions@.map_values(|q: QuestionRow| q.project@))
                            && m@ == no_questions_message(project@, ps)
                } else {
                    r matches Ok(d) && {
                        &&& d.project@ == project@
                        &&& is_page_map(pairs_view(d.pages@), corpus@, project@)
                        &&& d.questions@.len() == qs.len()
                        &&& forall|i: int| 0 <= i < qs.len() ==> question_fits(
                            #[trigger] d.questions@[i],
                            qs[i],
                            answers@[answer_index(answers@, qs[i].question_id@)->0],
                            pairs_view(d.pages@),
                        )
                    }
                },
            }
        }),
{
    let pages = page_map(corpus, project);
    let qs = questions_of(questions, project);
    let ghost pv = pairs_view(pages@);
    let mut out: Vec<Question> = Vec::new();
    let mut i: usize = 0;
    assert(qs@.take(0) =~= Seq::<QuestionRow>::empty());
    while i < qs.len()
        invariant
            i <= qs.len(),
            pv == pairs_view(pages@),
            qs@ == project_questions(questions@, project@),
            first_unanswered(qs@.take(i as int), answers@) is None,
            out@.len() == i,
            forall|k: int| 0 <= k < i ==> question_fits(
                #[trigger] out@[k],
                qs@[k],
                answers@[answer_index(answers@, qs@[k].question_id@)->0],
                pv,
            ),
        decreases qs.len() - i,
    {
        proof {
            assert(qs@.take(i + 1).drop_last() =~= qs@.take(i as int));
            assert(qs@.take(i + 1).last() == qs@[i as int]);
        }
        let q = &qs[i];
        let found = find_answer(answers, q.question_id.as_str());
        let a = match found {
            Some(k) => &answers[k],
            None => {
                let mut m = String::new();
                push_str(&mut m, "answers.jsonl has no record for ");
                push_str(&mut m, q.question_id.as_str());
                proof {
                    assert(first_unanswered(qs@.take(i + 1), answers@) == Some(i as int));
                    lemma_first_unanswered_extends(qs@, answers@, i + 1);
                }
                return Err(Error::NotFound(m));
            },
        };
        let (relevant, unmapped) = map_labels(&a.qrel_ids, &pages);
        let anchors = resolve_anchors(&a.anchor_resolution, &pages);
        let question = Question {
            id: q.question_id.clone(),
            query: q.query.clone(),
            relevant,
            anchors,
            unmapped_qrels: unmapped,
            image_evidence: a.image_text_evidence_used,
            multimodal_judgment: a.requires_multimodal_judgment,
        };
        proof {
            match answer_index(answers@, qs@[i as int].question_id@) {
                Some(j) => {
                    assert(answers@.len() == answers.len());
                    assert(found->0 == j as usize);
                    assert(j == found->0 as int);
                },
                None => {},
            }
            assert(answer_index(answers@, qs@[i as int].question_id@) == Some(found->0 as int));
            assert(*a == answers@[answer_index(answers@, qs@[i as int].question_id@)->0]);
            assert(anchors_view(question) == anchors_of(a.anchor_resolution@, pv));
            assert(question_fits(question, qs@[i as int], *a, pv));
        }
        let ghost before = out@;
        out.push(question);
        proof {
            assert forall|k: int| 0 <= k < i + 1 implies question_fits(
                #[trigger] out@[k],
                qs@[k],
                answers@[answer_index(answers@, qs@[k].question_id@)->0],
                pv,
            ) by {
                if k < i {
                    assert(out@[k] == before[k]);
                }
            }
        }
        i = i + 1;
    }
    assert(qs@.take(qs.len() as int) =~= qs@);
    if qs.len() == 0 {
        return Err(Error::NotFound(no_questions(project, questions)));
    }
    Ok(Dataset { project: project.to_string(), questions: out, pages })
}

} // verus!
