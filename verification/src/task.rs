//! The work on one document, from the outcomes of its engine runs to its
//! record.
//!
//! The caller runs the engine, once for each variant. How each run ended it
//! hands in as plain values, in the order of the variants.

use crate::error::{ErrorView, PipelineError};
use crate::ocrys::normalize::recognised_lines;
use crate::ocrys::tesseract::{run_tesseract, variant_result, EngineOutcome, OutcomeView};
use crate::ocrys::types::{document_views, DocumentView, OCRDocument, PageView};
use crate::record::{decide, Decision, RecordView};
use crate::reduce::{all_well_formed, merged_lines, reduce_documents, reduced_document};
use crate::text::string_views;
use vstd::prelude::*;

verus! {

/// The names of the variants that each document is read in, in the order in
/// which their readings are reduced.
pub open spec fn variant_names() -> Seq<Seq<char>> {
    seq!["original"@, "high_contrast"@, "rotated"@]
}

/// The names of the variants, in order.
pub fn variants() -> (v: Vec<String>)
    ensures
        string_views(v@) == variant_names(),
{
    let mut v: Vec<String> = Vec::new();
    v.push("original".to_owned());
    v.push("high_contrast".to_owned());
    v.push("rotated".to_owned());
    assert(string_views(v@) == variant_names());
    v
}

/// One engine run: the variant it was for, and how it ended.
#[derive(Clone, Debug, PartialEq, Eq)]
pub struct VariantRun {
    pub variant: String,
    pub outcome: EngineOutcome,
}

/// A run as a value.
pub struct RunView {
    pub variant: Seq<char>,
    pub outcome: OutcomeView,
}

impl View for VariantRun {
    type V = RunView;

    open spec fn view(&self) -> RunView {
        RunView { variant: self.variant@, outcome: self.outcome@ }
    }
}

/// The values of a list of runs.
pub open spec fn run_views(runs: Seq<VariantRun>) -> Seq<RunView> {
    runs.map_values(|r: VariantRun| r@)
}

/// The documents that the runs yield, in the order of the runs, or the
/// failure of the first run that failed.
pub open spec fn collected(input: Seq<char>, runs: Seq<RunView>) -> Result<
    Seq<DocumentView>,
    ErrorView,
>
    decreases runs.len(),
{
    if runs.len() == 0 {
        Ok(Seq::empty())
    } else {
        match collected(input, runs.drop_last()) {
            Err(e) => Err(e),
            Ok(docs) => match variant_result(input, runs.last().variant, runs.last().outcome) {
                Err(e) => Err(e),
                Ok(doc) => Ok(docs.push(doc)),
            },
        }
    }
}

/// The reduced document of the runs: the failure of the first run that
/// failed; without a failure and without a run, the failure to have
/// anything to reduce; else the reduction of all readings.
pub open spec fn map_reduced(input: Seq<char>, runs: Seq<RunView>) -> Result<
    DocumentView,
    ErrorView,
> {
    match collected(input, runs) {
        Err(e) => Err(e),
        Ok(docs) => if docs.len() == 0 {
            Err(ErrorView::ReductionPrecondition)
        } else {
            Ok(reduced_document(docs))
        },
    }
}

/// The line of the log that the runs of one document come to, or the
/// failure that they come to.
pub open spec fn observation(input: Seq<char>, runs: Seq<RunView>) -> Result<
    Seq<char>,
    ErrorView,
> {
    match map_reduced(input, runs) {
        Err(e) => Err(e),
        Ok(doc) => Ok(RecordView::of(doc).jsonl()),
    }
}

/// Turns the outcomes of a document's engine runs into its readings and
/// reduces them. No reading is reduced if any run failed.
pub fn cpu_map_reduce_ocr(doc: &str, runs: Vec<VariantRun>) -> (r: Result<
    OCRDocument,
    PipelineError,
>)
    ensures
        match map_reduced(doc@, run_views(runs@)) {
            Ok(reduced) => r is Ok && r->Ok_0@ == reduced,
            Err(e) => r is Err && r->Err_0@ == e,
        },
        r is Ok ==> r->Ok_0@.well_formed(),
{
    let ghost all = run_views(runs@);
    let mut docs: Vec<OCRDocument> = Vec::new();
    assert(all.take(0) == Seq::<RunView>::empty());
    assert(document_views(docs@) == Seq::<DocumentView>::empty());
    for run in it: runs
        invariant
            it.seq() == runs@,
            all == run_views(runs@),
            collected(doc@, all.take(it.index() as int)) == Ok::<Seq<DocumentView>, ErrorView>(
                document_views(docs@),
            ),
            all_well_formed(document_views(docs@)),
    {
        proof {
            let i = it.index() as int;
            assert(all.take(i + 1).drop_last() == all.take(i));
            assert(all.take(i + 1).last() == run@);
        }
        let ghost upto = it.index() + 1;
        match run_tesseract(doc, run.variant.as_str(), run.outcome) {
            Err(e) => {
                proof {
                    lemma_collected_failure_stays(doc@, all, upto);
                }
                return Err(e);
            },
            Ok(reading) => {
                assert(document_views(docs@.push(reading)) == document_views(docs@).push(
                    reading@,
                ));
                docs.push(reading);
            },
        }
    }
    assert(all.take(all.len() as int) == all);
    reduce_documents(docs)
}

/// Once a run among the first `k` has failed, more runs change nothing.
pub proof fn lemma_collected_failure_stays(input: Seq<char>, runs: Seq<RunView>, k: int)
    requires
        0 <= k <= runs.len(),
        collected(input, runs.take(k)) is Err,
    ensures
        collected(input, runs) == collected(input, runs.take(k)),
    decreases runs.len() - k,
{
    if k < runs.len() {
        assert(runs.take(k + 1).drop_last() == runs.take(k));
        lemma_collected_failure_stays(input, runs, k + 1);
    } else {
        assert(runs.take(k) == runs);
    }
}

/// The work on one document once its engine runs have ended: map, reduce,
/// decide, and write the record as a line. Fails as the map and the reduce
/// fail.
pub fn process_one_document(doc: &str, runs: Vec<VariantRun>) -> (r: Result<String, PipelineError>)
    ensures
        match observation(doc@, run_views(runs@)) {
            Ok(line) => r is Ok && r->Ok_0@ == line,
            Err(e) => r is Err && r->Err_0@ == e,
        },
{
    match cpu_map_reduce_ocr(doc, runs) {
        Err(e) => Err(e),
        Ok(reduced) => {
            let record = decide(&reduced);
            Ok(record.to_jsonl())
        },
    }
}

/// Readings without lines reduce to a document without lines, and that is
/// decided `Empty`, with zero lines.
pub proof fn lemma_no_lines_is_empty(docs: Seq<DocumentView>)
    requires
        docs.len() > 0,
        forall|i: int, p: int|
            0 <= i < docs.len() ==> (#[trigger] docs[i].lines_of_page(p)).len() == 0,
    ensures
        reduced_document(docs).line_count() == 0,
        RecordView::of(reduced_document(docs)).decision == Decision::Empty,
        RecordView::of(reduced_document(docs)).lines == 0,
{
    let out = reduced_document(docs);
    assert forall|p: int| 0 <= p < out.pages.len() implies (#[trigger] out.pages[p]).lines.len()
        == 0 by {
        lemma_merged_nothing(docs, p);
    }
    lemma_no_lines_counted(out.pages);
}

/// Readings that hold no line on a page hold none together.
pub proof fn lemma_merged_nothing(docs: Seq<DocumentView>, p: int)
    requires
        forall|i: int| 0 <= i < docs.len() ==> (#[trigger] docs[i].lines_of_page(p)).len() == 0,
    ensures
        merged_lines(docs, p).len() == 0,
    decreases docs.len(),
{
    let per = docs.map_values(|d: DocumentView| d.lines_of_page(p));
    if docs.len() > 0 {
        let before = docs.drop_last();
        assert forall|i: int| 0 <= i < before.len() implies (#[trigger] before[i].lines_of_page(
            p,
        )).len() == 0 by {
            assert(before[i] == docs[i]);
        }
        lemma_merged_nothing(before, p);
        let per_before = before.map_values(|d: DocumentView| d.lines_of_page(p));
        assert(per == per_before.push(docs.last().lines_of_page(p)));
        per_before.lemma_flatten_push(docs.last().lines_of_page(p));
        assert(docs.last() == docs[docs.len() - 1]);
    }
}

/// Pages that hold no line hold none together.
pub proof fn lemma_no_lines_counted(pages: Seq<PageView>)
    requires
        forall|p: int| 0 <= p < pages.len() ==> (#[trigger] pages[p]).lines.len() == 0,
    ensures
        pages.map_values(|p: PageView| p.lines).flatten().len() == 0,
    decreases pages.len(),
{
    let per = pages.map_values(|p: PageView| p.lines);
    if pages.len() > 0 {
        let before = pages.drop_last();
        assert forall|p: int| 0 <= p < before.len() implies (#[trigger] before[p]).lines.len()
            == 0 by {
            assert(before[p] == pages[p]);
        }
        lemma_no_lines_counted(before);
        let per_before = before.map_values(|p: PageView| p.lines);
        assert(per == per_before.push(pages.last().lines));
        per_before.lemma_flatten_push(pages.last().lines);
        assert(pages.last() == pages[pages.len() - 1]);
    }
}

/// A document of which every variant's text holds no line that is not empty
/// after trimming gets the record `empty`, with zero lines.
pub proof fn lemma_blank_texts_decide_empty(input: Seq<char>, runs: Seq<RunView>)
    requires
        runs.len() > 0,
        forall|i: int|
            0 <= i < runs.len() ==> (#[trigger] runs[i]).outcome is Text && recognised_lines(
                runs[i].outcome->Text_0,
            ).len() == 0,
    ensures
        map_reduced(input, runs) is Ok,
        RecordView::of(map_reduced(input, runs)->Ok_0).decision == Decision::Empty,
        RecordView::of(map_reduced(input, runs)->Ok_0).lines == 0,
{
    lemma_blank_texts_collected(input, runs);
    lemma_no_lines_is_empty(collected(input, runs)->Ok_0);
}

/// Runs that all gave a text without lines yield as many readings, none with
/// a line.
pub proof fn lemma_blank_texts_collected(input: Seq<char>, runs: Seq<RunView>)
    requires
        forall|i: int|
            0 <= i < runs.len() ==> (#[trigger] runs[i]).outcome is Text && recognised_lines(
                runs[i].outcome->Text_0,
            ).len() == 0,
    ensures
        collected(input, runs) is Ok,
        collected(input, runs)->Ok_0.len() == runs.len(),
        forall|i: int, p: int|
            0 <= i < runs.len() ==> (#[trigger] collected(input, runs)->Ok_0[i].lines_of_page(
                p,
            )).len() == 0,
    decreases runs.len(),
{
    if runs.len() > 0 {
        let before = runs.drop_last();
        assert forall|i: int| 0 <= i < before.len() implies (#[trigger] before[i]).outcome is Text
            && recognised_lines(before[i].outcome->Text_0).len() == 0 by {
            assert(before[i] == runs[i]);
        }
        lemma_blank_texts_collected(input, before);
        assert(runs.last() == runs[runs.len() - 1]);
        let docs = collected(input, runs)->Ok_0;
        let earlier = collected(input, before)->Ok_0;
        assert forall|i: int, p: int| 0 <= i < runs.len() implies (#[trigger] docs[i].lines_of_page(
            p,
        )).len() == 0 by {
            if i < before.len() {
                assert(docs[i] == earlier[i]);
                assert(earlier[i].lines_of_page(p).len() == 0);
            }
        }
    }
}

} // verus!
