//! Documents as a recognition pass reads them: pages of lines, in reading
//! order.

use crate::text::trimmed;
use vstd::prelude::*;

verus! {

/// One line of recognised text.
///
/// `confidence` is the pass's score for the line, higher being better, on
/// whatever scale the caller fixes; the library only compares scores. A line
/// without a score counts as scored zero.
#[derive(Clone, Debug, PartialEq, Eq)]
pub struct OCRLine {
    pub text: String,
    pub confidence: Option<u32>,
}

/// One page: its number, counted from one, and its lines.
#[derive(Clone, Debug, PartialEq, Eq)]
pub struct OCRPage {
    pub page_number: usize,
    pub lines: Vec<OCRLine>,
}

/// One document: where it came from, and its pages.
#[derive(Clone, Debug, PartialEq, Eq)]
pub struct OCRDocument {
    pub source: String,
    pub pages: Vec<OCRPage>,
}

/// A line as a value: its characters and its score.
pub struct LineView {
    pub text: Seq<char>,
    pub confidence: Option<u32>,
}

/// A page as a value.
pub struct PageView {
    pub page_number: nat,
    pub lines: Seq<LineView>,
}

/// A document as a value.
pub struct DocumentView {
    pub source: Seq<char>,
    pub pages: Seq<PageView>,
}

impl LineView {
    /// The score by which lines are compared: the confidence, or zero where
    /// there is none.
    pub open spec fn rank(self) -> nat {
        match self.confidence {
            Some(c) => c as nat,
            None => 0,
        }
    }

    /// The text has no white space at either end and is not empty.
    pub open spec fn well_formed(self) -> bool {
        self.text.len() > 0 && trimmed(self.text) == self.text
    }
}

impl PageView {
    /// The page number is positive and every line is well formed.
    pub open spec fn well_formed(self) -> bool {
        self.page_number >= 1 && forall|i: int|
            0 <= i < self.lines.len() ==> (#[trigger] self.lines[i]).well_formed()
    }
}

impl DocumentView {
    /// Every page is well formed.
    pub open spec fn well_formed(self) -> bool {
        forall|p: int| 0 <= p < self.pages.len() ==> (#[trigger] self.pages[p]).well_formed()
    }

    /// The lines of page `p`, or none where the document has no such page.
    pub open spec fn lines_of_page(self, p: int) -> Seq<LineView> {
        if 0 <= p < self.pages.len() {
            self.pages[p].lines
        } else {
            Seq::empty()
        }
    }

    /// All lines of the document, page after page.
    pub open spec fn all_lines(self) -> Seq<LineView> {
        self.pages.map_values(|p: PageView| p.lines).flatten()
    }

    /// The number of lines on all pages.
    pub open spec fn line_count(self) -> nat {
        self.all_lines().len()
    }
}

impl View for OCRLine {
    type V = LineView;

    open spec fn view(&self) -> LineView {
        LineView { text: self.text@, confidence: self.confidence }
    }
}

impl View for OCRPage {
    type V = PageView;

    open spec fn view(&self) -> PageView {
        PageView { page_number: self.page_number as nat, lines: line_views(self.lines@) }
    }
}

impl View for OCRDocument {
    type V = DocumentView;

    open spec fn view(&self) -> DocumentView {
        DocumentView { source: self.source@, pages: page_views(self.pages@) }
    }
}

/// The values of a list of lines.
pub open spec fn line_views(lines: Seq<OCRLine>) -> Seq<LineView> {
    lines.map_values(|l: OCRLine| l@)
}

/// The values of a list of pages.
pub open spec fn page_views(pages: Seq<OCRPage>) -> Seq<PageView> {
    pages.map_values(|p: OCRPage| p@)
}

/// The values of a list of documents.
pub open spec fn document_views(docs: Seq<OCRDocument>) -> Seq<DocumentView> {
    docs.map_values(|d: OCRDocument| d@)
}

impl OCRLine {
    /// A line with the same text and the same score.
    pub fn duplicate(&self) -> (r: OCRLine)
        ensures
            r@ == self@,
    {
        OCRLine { text: self.text.clone(), confidence: self.confidence }
    }

    /// The score by which lines are compared.
    pub fn rank(&self) -> (r: u32)
        ensures
            r == self@.rank(),
    {
        match self.confidence {
            Some(c) => c,
            None => 0,
        }
    }
}

} // verus!
