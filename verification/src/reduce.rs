//! The merge: near-identical lines are folded into one representative, the
//! best-scored of them.

use crate::compare::{normalize_for_compare, normalized, similar, similarity};
use crate::error::PipelineError;
use crate::reduce_lemmas::lemma_reduced_document_well_formed;
use crate::ocrys::types::{
    document_views, line_views, DocumentView, LineView, OCRDocument, OCRLine, OCRPage, PageView,
};
use vstd::prelude::*;

verus! {

/// A line together with the form in which it is compared.
#[derive(Clone, Debug, PartialEq, Eq)]
pub struct Candidate {
    pub line: OCRLine,
    pub form: String,
}

/// A candidate as a value.
pub struct CandidateView {
    pub line: LineView,
    pub form: Seq<char>,
}

impl View for Candidate {
    type V = CandidateView;

    open spec fn view(&self) -> CandidateView {
        CandidateView { line: self.line@, form: self.form@ }
    }
}

impl CandidateView {
    /// The score by which candidates are compared: that of the line.
    pub open spec fn rank(self) -> nat {
        self.line.rank()
    }
}

/// The values of a list of candidates.
pub open spec fn candidate_views(candidates: Seq<Candidate>) -> Seq<CandidateView> {
    candidates.map_values(|c: Candidate| c@)
}

/// Whether two candidates count as the same line: whether the words of
/// their forms overlap by seven tenths or more.
pub open spec fn alike(a: CandidateView, b: CandidateView) -> bool {
    similar(a.form, b.form)
}

/// Whether `reps[i]` is the first representative that `x` is like.
pub open spec fn matches_at(reps: Seq<CandidateView>, x: CandidateView, i: int) -> bool {
    &&& 0 <= i < reps.len()
    &&& alike(x, reps[i])
    &&& forall|k: int| 0 <= k < i ==> !alike(x, #[trigger] reps[k])
}

/// Whether `x` is like none of `reps`.
pub open spec fn matches_none(reps: Seq<CandidateView>, x: CandidateView) -> bool {
    forall|k: int| 0 <= k < reps.len() ==> !alike(x, #[trigger] reps[k])
}

/// The representatives after `x` has come in. Where `x` is like one of
/// them, it takes the place of the first such if its line ranks strictly
/// higher, and is dropped otherwise. Where it is like none, it becomes the
/// last representative.
pub open spec fn absorb(reps: Seq<CandidateView>, x: CandidateView) -> Seq<CandidateView> {
    if matches_none(reps, x) {
        reps.push(x)
    } else {
        let i = choose|i: int| matches_at(reps, x, i);
        if x.rank() > reps[i].rank() {
            reps.update(i, x)
        } else {
            reps
        }
    }
}

/// The representatives of `candidates`, taken in from first to last.
pub open spec fn clustered(candidates: Seq<CandidateView>) -> Seq<CandidateView>
    decreases candidates.len(),
{
    if candidates.len() == 0 {
        Seq::empty()
    } else {
        absorb(clustered(candidates.drop_last()), candidates.last())
    }
}

/// A line as a candidate: with the normalised form of its text.
pub open spec fn candidate(line: LineView) -> CandidateView {
    CandidateView { line, form: normalized(line.text) }
}

/// Lines as candidates.
pub open spec fn candidates(lines: Seq<LineView>) -> Seq<CandidateView> {
    lines.map_values(|l: LineView| candidate(l))
}

/// The lines of candidates.
pub open spec fn lines_of(candidates: Seq<CandidateView>) -> Seq<LineView> {
    candidates.map_values(|c: CandidateView| c.line)
}

/// The representatives of `lines`: the lines of the representatives of
/// their candidates.
pub open spec fn reduced(lines: Seq<LineView>) -> Seq<LineView> {
    lines_of(clustered(candidates(lines)))
}

/// At most one index is the first match.
pub proof fn lemma_first_match_unique(reps: Seq<CandidateView>, x: CandidateView, i: int, j: int)
    requires
        matches_at(reps, x, i),
        matches_at(reps, x, j),
    ensures
        i == j,
{
    if i < j {
        assert(!alike(x, reps[i]));
    }
    if j < i {
        assert(!alike(x, reps[j]));
    }
}

/// Folds candidates into their representatives, in the order in which each
/// representative's place was first taken.
pub fn cluster(candidates: Vec<Candidate>) -> (out: Vec<Candidate>)
    ensures
        candidate_views(out@) == clustered(candidate_views(candidates@)),
{
    let ghost all = candidate_views(candidates@);
    let mut reps: Vec<Candidate> = Vec::new();
    assert(all.take(0) == Seq::<CandidateView>::empty());
    assert(candidate_views(reps@) == clustered(all.take(0)));
    for incoming in it: candidates
        invariant
            it.seq() == candidates@,
            all == candidate_views(candidates@),
            candidate_views(reps@) == clustered(all.take(it.index() as int)),
    {
        let ghost before = candidate_views(reps@);
        let ghost x = incoming@;
        proof {
            let i = it.index() as int;
            assert(all.take(i + 1).drop_last() == all.take(i));
            assert(all.take(i + 1).last() == x);
        }
        let mut k: usize = 0;
        let mut found = false;
        while k < reps.len() && !found
            invariant
                k <= reps.len(),
                before == candidate_views(reps@),
                x == incoming@,
                forall|j: int| 0 <= j < k ==> !alike(x, #[trigger] before[j]),
                found ==> k < reps.len() && alike(x, before[k as int]),
            decreases reps.len() - k + (if found { 0int } else { 1int }),
        {
            let sim = similarity(incoming.form.as_str(), reps[k].form.as_str());
            assert(before[k as int] == reps[k as int]@);
            if sim.is_duplicate() {
                found = true;
            } else {
                k = k + 1;
            }
        }
        if found {
            proof {
                assert(matches_at(before, x, k as int));
                let i = choose|i: int| matches_at(before, x, i);
                lemma_first_match_unique(before, x, i, k as int);
            }
            if incoming.line.rank() > reps[k].line.rank() {
                proof {
                    assert(candidate_views(reps@.update(k as int, incoming)) == before.update(
                        k as int,
                        x,
                    ));
                }
                reps.set(k, incoming);
            }
        } else {
            proof {
                assert(matches_none(before, x));
                assert(candidate_views(reps@.push(incoming)) == before.push(x));
            }
            reps.push(incoming);
        }
    }
    assert(all.take(all.len() as int) == all);
    reps
}

/// Reduces line candidates into their representatives: each line is
/// normalised for comparison, and the lines are folded in their order.
pub fn reduce_lines(lines: Vec<OCRLine>) -> (out: Vec<OCRLine>)
    ensures
        line_views(out@) == reduced(line_views(lines@)),
{
    let ghost all = line_views(lines@);
    let mut incoming: Vec<Candidate> = Vec::new();
    assert(candidate_views(incoming@) == candidates(all.take(0)));
    for line in it: lines
        invariant
            it.seq() == lines@,
            all == line_views(lines@),
            candidate_views(incoming@) == candidates(all.take(it.index() as int)),
    {
        let form = normalize_for_compare(line.text.as_str());
        let next = Candidate { line, form };
        proof {
            let i = it.index() as int;
            assert(all.take(i + 1) == all.take(i).push(next@.line));
            assert(candidates(all.take(i + 1)) == candidates(all.take(i)).push(next@));
            assert(candidate_views(incoming@.push(next)) == candidate_views(incoming@).push(next@));
        }
        incoming.push(next);
    }
    assert(all.take(all.len() as int) == all);
    let kept = cluster(incoming);
    let ghost reps = candidate_views(kept@);
    let mut out: Vec<OCRLine> = Vec::new();
    assert(line_views(out@) == lines_of(reps.take(0)));
    for rep in it: kept
        invariant
            it.seq() == kept@,
            reps == candidate_views(kept@),
            line_views(out@) == lines_of(reps.take(it.index() as int)),
    {
        proof {
            let i = it.index() as int;
            assert(reps.take(i + 1) == reps.take(i).push(rep@));
            assert(lines_of(reps.take(i + 1)) == lines_of(reps.take(i)).push(rep@.line));
            assert(line_views(out@.push(rep.line)) == line_views(out@).push(rep@.line));
        }
        out.push(rep.line);
    }
    assert(reps.take(reps.len() as int) == reps);
    out
}

/// The lines that the documents hold on page `p`, document after document,
/// each document's lines in their own order. A document without such a page
/// adds none.
pub open spec fn merged_lines(docs: Seq<DocumentView>, p: int) -> Seq<LineView> {
    docs.map_values(|d: DocumentView| d.lines_of_page(p)).flatten()
}

/// The one document that several readings of it reduce to. The first gives
/// the source and the pages with their numbers; each page holds the
/// representatives of what all readings hold on that page.
pub open spec fn reduced_document(docs: Seq<DocumentView>) -> DocumentView
    recommends
        docs.len() > 0,
{
    DocumentView {
        source: docs[0].source,
        pages: Seq::new(
            docs[0].pages.len(),
            |p: int|
                PageView {
                    page_number: docs[0].pages[p].page_number,
                    lines: reduced(merged_lines(docs, p)),
                },
        ),
    }
}

/// Whether every document is well formed.
pub open spec fn all_well_formed(docs: Seq<DocumentView>) -> bool {
    forall|i: int| 0 <= i < docs.len() ==> (#[trigger] docs[i]).well_formed()
}

/// Copies of the lines that the documents hold on page `p`.
pub fn merge_page(docs: &Vec<OCRDocument>, p: usize) -> (out: Vec<OCRLine>)
    ensures
        line_views(out@) == merged_lines(document_views(docs@), p as int),
{
    let ghost per = document_views(docs@).map_values(|d: DocumentView| d.lines_of_page(p as int));
    let mut out: Vec<OCRLine> = Vec::new();
    let mut v: usize = 0;
    assert(line_views(out@) == per.take(0).flatten());
    while v < docs.len()
        invariant
            v <= docs.len(),
            per == document_views(docs@).map_values(|d: DocumentView| d.lines_of_page(p as int)),
            line_views(out@) == per.take(v as int).flatten(),
        decreases docs.len() - v,
    {
        let doc = &docs[v];
        let ghost start = line_views(out@);
        proof {
            per.take(v as int).lemma_flatten_push(per[v as int]);
            assert(per.take(v + 1) == per.take(v as int).push(per[v as int]));
            assert(per[v as int] == doc@.lines_of_page(p as int));
        }
        if p < doc.pages.len() {
            let lines = &doc.pages[p].lines;
            assert(doc@.lines_of_page(p as int) == line_views(lines@));
            let mut j: usize = 0;
            assert(line_views(lines@).take(0) == Seq::<LineView>::empty());
            while j < lines.len()
                invariant
                    j <= lines.len(),
                    line_views(out@) == start + line_views(lines@).take(j as int),
                decreases lines.len() - j,
            {
                let copy = lines[j].duplicate();
                proof {
                    assert(line_views(out@.push(copy)) == line_views(out@).push(copy@));
                    assert(line_views(lines@).take(j + 1) == line_views(lines@).take(j as int).push(
                        copy@,
                    ));
                }
                out.push(copy);
                j = j + 1;
            }
            assert(line_views(lines@).take(lines.len() as int) == line_views(lines@));
        }
        v = v + 1;
    }
    assert(per.take(docs.len() as int) == per);
    out
}

/// Reduces the readings of one document, in the order given, to one
/// document. Fails exactly when there is no reading. Well-formed readings
/// give a well-formed document.
pub fn reduce_documents(docs: Vec<OCRDocument>) -> (r: Result<OCRDocument, PipelineError>)
    ensures
        docs.len() == 0 ==> r is Err && r->Err_0 is ReductionPrecondition,
        docs.len() > 0 ==> r is Ok && r->Ok_0@ == reduced_document(document_views(docs@)),
        all_well_formed(document_views(docs@)) && r is Ok ==> r->Ok_0@.well_formed(),
{
    if docs.len() == 0 {
        return Err(PipelineError::ReductionPrecondition);
    }
    let ghost dv = document_views(docs@);
    let count = docs[0].pages.len();
    let mut pages: Vec<OCRPage> = Vec::new();
    let mut p: usize = 0;
    while p < count
        invariant
            p <= count,
            docs.len() > 0,
            count == docs[0].pages.len(),
            dv == document_views(docs@),
            pages.len() == p,
            forall|q: int|
                0 <= q < p ==> (#[trigger] pages[q])@ == (PageView {
                    page_number: dv[0].pages[q].page_number,
                    lines: reduced(merged_lines(dv, q)),
                }),
        decreases count - p,
    {
        let merged = merge_page(&docs, p);
        let lines = reduce_lines(merged);
        let page = OCRPage { page_number: docs[0].pages[p].page_number, lines };
        assert(dv[0].pages[p as int] == docs[0].pages[p as int]@);
        pages.push(page);
        p = p + 1;
    }
    let doc = OCRDocument { source: docs[0].source.clone(), pages };
    assert(doc@.pages == reduced_document(dv).pages);
    proof {
        if all_well_formed(dv) {
            lemma_reduced_document_well_formed(dv);
        }
    }
    Ok(doc)
}

} // verus!
