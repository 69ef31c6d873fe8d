//! Raw text as a document of one page.

use crate::ocrys::types::{
    line_views, DocumentView, LineView, OCRDocument, OCRLine, OCRPage, PageView,
};
use crate::text::{lemma_trimmed_is_trimmed, string_views, text_lines, trimmed, trimmed_lines};
use vstd::prelude::*;

verus! {

/// The texts that are not empty, in their order.
pub open spec fn filled(texts: Seq<Seq<char>>) -> Seq<Seq<char>> {
    texts.filter(|t: Seq<char>| t.len() > 0)
}

/// Each text as a line without a score.
pub open spec fn unscored(texts: Seq<Seq<char>>) -> Seq<LineView> {
    texts.map_values(|t: Seq<char>| LineView { text: t, confidence: None })
}

/// The lines that a raw text yields: each line of it trimmed, the empty ones
/// left out, none with a score.
pub open spec fn recognised_lines(raw: Seq<char>) -> Seq<LineView> {
    unscored(filled(text_lines(raw).map_values(|l: Seq<char>| trimmed(l))))
}

/// The document of one page, numbered one, that holds `lines`.
pub open spec fn single_page(source: Seq<char>, lines: Seq<LineView>) -> DocumentView {
    DocumentView { source, pages: seq![PageView { page_number: 1, lines }] }
}

/// Pushing a text onto a list does to its non-empty texts what one expects.
pub proof fn lemma_filled_push(texts: Seq<Seq<char>>, t: Seq<char>)
    ensures
        filled(texts.push(t)) == if t.len() > 0 {
            filled(texts).push(t)
        } else {
            filled(texts)
        },
{
    texts.lemma_filter_push(t, |t: Seq<char>| t.len() > 0);
}

/// Every non-empty text of a list is one of the list.
pub proof fn lemma_filled_members(texts: Seq<Seq<char>>, i: int)
    requires
        0 <= i < filled(texts).len(),
    ensures
        filled(texts)[i].len() > 0,
        texts.contains(filled(texts)[i]),
{
    texts.lemma_filter_pred(|t: Seq<char>| t.len() > 0, i);
    assert(filled(texts).contains(filled(texts)[i]));
    texts.lemma_filter_contains_rev(|t: Seq<char>| t.len() > 0, filled(texts)[i]);
}

/// The lines that a raw text yields are well formed.
pub proof fn lemma_recognised_lines_well_formed(raw: Seq<char>)
    ensures
        forall|i: int|
            0 <= i < recognised_lines(raw).len() ==> (#[trigger] recognised_lines(
                raw,
            )[i]).well_formed(),
        forall|i: int|
            0 <= i < recognised_lines(raw).len() ==> (#[trigger] recognised_lines(
                raw,
            )[i]).confidence is None,
{
    let texts = text_lines(raw).map_values(|l: Seq<char>| trimmed(l));
    assert forall|i: int| 0 <= i < recognised_lines(raw).len() implies (#[trigger] recognised_lines(
        raw,
    )[i]).well_formed() by {
        lemma_filled_members(texts, i);
        let t = filled(texts)[i];
        let k = choose|k: int| 0 <= k < texts.len() && texts[k] == t;
        lemma_trimmed_is_trimmed(text_lines(raw)[k]);
    }
}

/// Raw text as a document: one page, numbered one, with the non-empty
/// trimmed lines of the text, unscored.
pub fn normalize_text(raw: &str, source: &str) -> (doc: OCRDocument)
    ensures
        doc@ == single_page(source@, recognised_lines(raw@)),
        doc@.well_formed(),
{
    let texts = trimmed_lines(raw);
    let ghost want = text_lines(raw@).map_values(|l: Seq<char>| trimmed(l));
    let mut lines: Vec<OCRLine> = Vec::new();
    proof {
        assert(want.take(0) == Seq::<Seq<char>>::empty());
        reveal(Seq::filter);
        assert(line_views(lines@) == unscored(filled(want.take(0))));
    }
    for text in it: texts
        invariant
            it.seq() == texts@,
            string_views(texts@) == want,
            line_views(lines@) == unscored(filled(want.take(it.index() as int))),
    {
        proof {
            let i = it.index() as int;
            assert(0 <= i < texts@.len());
            assert(want[i] == text@);
            assert(want.take(i + 1) == want.take(i).push(text@));
            lemma_filled_push(want.take(i), text@);
        }
        if !text.as_str().is_empty() {
            let line = OCRLine { text, confidence: None };
            proof {
                assert(line_views(lines@.push(line)) == line_views(lines@).push(line@));
                assert(unscored(filled(want.take(it.index() as int)).push(line@.text))
                    == unscored(filled(want.take(it.index() as int))).push(line@));
            }
            lines.push(line);
        }
    }
    proof {
        assert(want.take(want.len() as int) == want);
        assert(line_views(lines@) == recognised_lines(raw@));
        lemma_recognised_lines_well_formed(raw@);
    }
    let mut pages: Vec<OCRPage> = Vec::new();
    pages.push(OCRPage { page_number: 1, lines });
    let doc = OCRDocument { source: source.to_owned(), pages };
    assert(doc@.pages.len() == 1);
    assert(doc@.pages[0] == pages[0]@);
    assert(doc@.pages == single_page(source@, recognised_lines(raw@)).pages);
    doc
}

} // verus!
