//! The decision that is kept of a reduced document: one record, written on
//! one line.

use crate::ocrys::types::{DocumentView, LineView, OCRDocument, PageView};
use crate::text::{
    decimal, joined, lemma_joined_push, lemma_joined_take_is_prefix, push_char, push_decimal,
    string_of,
};
use vstd::prelude::*;
use vstd::string::*;

verus! {

/// The number of characters of text that a preview holds at most.
pub const PREVIEW_CAP: usize = 200;

/// The mark that ends a preview that was cut short.
pub open spec fn ellipsis() -> char {
    '\u{2026}'
}

/// What stands for `c` inside a quoted field of a record: a backslash and a
/// quote get a backslash before them, a line feed and a carriage return
/// become a space, every other character stays.
pub open spec fn escape_char(c: char) -> Seq<char> {
    if c == '\\' {
        seq!['\\', '\\']
    } else if c == '"' {
        seq!['\\', '"']
    } else if c == '\n' || c == '\r' {
        seq![' ']
    } else {
        seq![c]
    }
}

/// `s` with each character escaped.
pub open spec fn escaped(s: Seq<char>) -> Seq<char> {
    s.map_values(|c: char| escape_char(c)).flatten()
}

/// The texts of the lines of a page.
pub open spec fn page_texts(page: PageView) -> Seq<Seq<char>> {
    page.lines.map_values(|l: LineView| l.text)
}

/// The texts of all lines of a document, page after page.
pub open spec fn document_texts(doc: DocumentView) -> Seq<Seq<char>> {
    doc.pages.map_values(|p: PageView| page_texts(p)).flatten()
}

/// `full`, cut to `max` characters and marked where it is not empty and has
/// at least `max`.
pub open spec fn clipped(full: Seq<char>, max: nat) -> Seq<char> {
    if full.len() > 0 && full.len() >= max {
        full.take(max as int).push(ellipsis())
    } else {
        full
    }
}

/// The text of a document's preview, before escaping: the texts of its
/// lines with one space between neighbours, cut and marked.
pub open spec fn preview_text(doc: DocumentView, max: nat) -> Seq<char> {
    clipped(joined(document_texts(doc)), max)
}

/// A document's preview.
pub open spec fn preview(doc: DocumentView, max: nat) -> Seq<char> {
    escaped(preview_text(doc, max))
}

/// What was decided of a document.
#[derive(Clone, Copy, Debug, PartialEq, Eq, Structural)]
pub enum Decision {
    /// No line survived.
    Empty,
    /// At least one line survived.
    OcrConverged,
}

impl Decision {
    /// The decision for a document with `count` lines.
    pub open spec fn of(count: nat) -> Decision {
        if count == 0 {
            Decision::Empty
        } else {
            Decision::OcrConverged
        }
    }

    /// The decision's name in a record.
    pub open spec fn tag(self) -> Seq<char> {
        match self {
            Decision::Empty => "empty"@,
            Decision::OcrConverged => "ocr_converged"@,
        }
    }

    /// The decision's name in a record.
    pub fn as_str(&self) -> (r: &'static str)
        ensures
            r@ == self.tag(),
    {
        match self {
            Decision::Empty => "empty",
            Decision::OcrConverged => "ocr_converged",
        }
    }
}

/// The record of one document. `preview` is held escaped, `source` as it
/// came.
#[derive(Clone, Debug, PartialEq, Eq)]
pub struct DecisionRecord {
    pub source: String,
    pub decision: Decision,
    pub lines: u128,
    pub preview: String,
}

/// A record as a value.
pub struct RecordView {
    pub source: Seq<char>,
    pub decision: Decision,
    pub lines: nat,
    pub preview: Seq<char>,
}

impl View for DecisionRecord {
    type V = RecordView;

    open spec fn view(&self) -> RecordView {
        RecordView {
            source: self.source@,
            decision: self.decision,
            lines: self.lines as nat,
            preview: self.preview@,
        }
    }
}

impl RecordView {
    /// The record of a reduced document.
    pub open spec fn of(doc: DocumentView) -> RecordView {
        RecordView {
            source: doc.source,
            decision: Decision::of(doc.line_count()),
            lines: doc.line_count(),
            preview: preview(doc, PREVIEW_CAP as nat),
        }
    }

    /// The record as one line of the log, without the line feed: an object
    /// with the fields `source`, `decision`, `lines` and `preview`, in that
    /// order.
    pub open spec fn jsonl(self) -> Seq<char> {
        "{\"source\":\""@ + escaped(self.source) + "\",\"decision\":\""@ + self.decision.tag()
            + "\",\"lines\":"@ + decimal(self.lines) + ",\"preview\":\""@ + self.preview + "\"}"@
    }
}

/// `s` as it stands inside a quoted field of a record.
pub fn sanitize(s: &str) -> (r: String)
    ensures
        r@ == escaped(s@),
{
    let ghost parts = s@.map_values(|c: char| escape_char(c));
    let mut r = String::new();
    assert(r@ == parts.take(0).flatten());
    for c in it: s.chars()
        invariant
            it.seq() == s@,
            parts == s@.map_values(|c: char| escape_char(c)),
            r@ == parts.take(it.index() as int).flatten(),
    {
        proof {
            let i = it.index() as int;
            assert(parts.take(i + 1) == parts.take(i).push(escape_char(c)));
            parts.take(i).lemma_flatten_push(escape_char(c));
        }
        if c == '\\' {
            push_char(&mut r, '\\');
            push_char(&mut r, '\\');
        } else if c == '"' {
            push_char(&mut r, '\\');
            push_char(&mut r, '"');
        } else if c == '\n' || c == '\r' {
            push_char(&mut r, ' ');
        } else {
            push_char(&mut r, c);
        }
    }
    assert(parts.take(parts.len() as int) == parts);
    r
}

/// The flattening of the first `k` parts is the start of the flattening of
/// all.
pub proof fn lemma_flatten_take_is_prefix<A>(parts: Seq<Seq<A>>, k: int)
    requires
        0 <= k <= parts.len(),
    ensures
        parts.take(k).flatten().len() <= parts.flatten().len(),
        parts.flatten().take(parts.take(k).flatten().len() as int) == parts.take(k).flatten(),
{
    vstd::seq_lib::lemma_flatten_concat(parts.take(k), parts.skip(k));
    assert(parts.take(k) + parts.skip(k) == parts);
}

/// The number of lines of a document.
pub fn count_lines(doc: &OCRDocument) -> (n: u128)
    ensures
        n == doc@.line_count(),
{
    let ghost per_page = doc@.pages.map_values(|p: PageView| p.lines);
    let mut n: u128 = 0;
    let mut p: usize = 0;
    assert(per_page.take(0).flatten() == Seq::<LineView>::empty());
    while p < doc.pages.len()
        invariant
            p <= doc.pages.len(),
            per_page == doc@.pages.map_values(|p: PageView| p.lines),
            n == per_page.take(p as int).flatten().len(),
            n <= p * usize::MAX,
        decreases doc.pages.len() - p,
    {
        let here = doc.pages[p].lines.len();
        proof {
            assert(per_page.take(p + 1) == per_page.take(p as int).push(per_page[p as int]));
            per_page.take(p as int).lemma_flatten_push(per_page[p as int]);
            assert(per_page[p as int].len() == here);
        }
        assert((p + 1) * usize::MAX <= usize::MAX * usize::MAX) by (nonlinear_arith)
            requires
                p + 1 <= usize::MAX,
        ;
        assert(p * usize::MAX + usize::MAX == (p + 1) * usize::MAX) by (nonlinear_arith);
        assert(usize::MAX * usize::MAX < u128::MAX) by (nonlinear_arith)
            requires
                usize::MAX <= 0xffff_ffff_ffff_ffff,
                u128::MAX == 0xffff_ffff_ffff_ffff_ffff_ffff_ffff_ffff,
        ;
        n = n + here as u128;
        p = p + 1;
    }
    assert(per_page.take(doc.pages.len() as int) == per_page);
    n
}

/// A bounded preview of a document: its line texts with one space between
/// neighbours, cut to `max` characters and marked where they come to `max`
/// characters or more, then escaped.
pub fn preview_document(doc: &OCRDocument, max: usize) -> (r: String)
    ensures
        r@ == preview(doc@, max as nat),
{
    let ghost per_page = doc@.pages.map_values(|p: PageView| page_texts(p));
    let ghost texts = document_texts(doc@);
    let mut acc: Vec<char> = Vec::new();
    let mut started = false;
    let mut p: usize = 0;
    let ghost mut seen: int = 0;
    assert(per_page.take(0).flatten() == Seq::<Seq<char>>::empty());
    assert(texts.take(0) == Seq::<Seq<char>>::empty());
    while p < doc.pages.len()
        invariant
            p <= doc.pages.len(),
            per_page == doc@.pages.map_values(|p: PageView| page_texts(p)),
            texts == per_page.flatten(),
            texts == document_texts(doc@),
            0 <= seen <= texts.len(),
            texts.take(seen) == per_page.take(p as int).flatten(),
            started == (seen > 0),
            acc@ == joined(texts.take(seen)),
            acc.len() == 0 || acc.len() < max,
        decreases doc.pages.len() - p,
    {
        let lines = &doc.pages[p].lines;
        let ghost here = page_texts(doc@.pages[p as int]);
        let ghost base = seen;
        proof {
            assert(per_page.take(p + 1) == per_page.take(p as int).push(here));
            per_page.take(p as int).lemma_flatten_push(here);
            lemma_flatten_take_is_prefix(per_page, p + 1);
            assert(texts.take(base + here.len()) == texts.take(base) + here);
            assert(here.len() == lines.len());
        }
        let mut j: usize = 0;
        while j < lines.len()
            invariant
                j <= lines.len(),
                p < doc.pages.len(),
                texts == document_texts(doc@),
                here == page_texts(doc@.pages[p as int]),
                here.len() == lines.len(),
                forall|k: int| 0 <= k < here.len() ==> here[k] == (#[trigger] lines[k]).text@,
                0 <= base,
                base + here.len() <= texts.len(),
                texts.take(base + here.len()) == texts.take(base) + here,
                seen == base + j,
                started == (seen > 0),
                acc@ == joined(texts.take(seen)),
                acc.len() == 0 || acc.len() < max,
            decreases lines.len() - j,
        {
            let line = &lines[j];
            proof {
                assert(texts[seen] == texts.take(base + here.len())[seen]);
                assert(texts[seen] == line.text@);
                assert(texts.take(seen + 1) == texts.take(seen).push(line.text@));
                lemma_joined_push(texts.take(seen), line.text@);
                assert(line.text@.take(0) == Seq::<char>::empty());
            }
            if started {
                acc.push(' ');
            }
            let ghost before = acc@;
            for c in it: line.text.as_str().chars()
                invariant
                    it.seq() == line.text@,
                    acc@ == before + line.text@.take(it.index() as int),
            {
                proof {
                    let i = it.index() as int;
                    assert(line.text@.take(i + 1) == line.text@.take(i).push(c));
                }
                acc.push(c);
            }
            assert(line.text@.take(line.text@.len() as int) == line.text@);
            started = true;
            proof {
                seen = seen + 1;
                assert(acc@ == joined(texts.take(seen)));
            }
            if acc.len() > 0 && acc.len() >= max {
                proof {
                    lemma_joined_take_is_prefix(texts, seen);
                    let full = joined(texts);
                    assert(full.len() >= acc.len());
                    assert(full.take(max as int) == acc@.take(max as int));
                    assert(acc@.take(max as int) == acc@.subrange(0, max as int));
                }
                let mut cut = string_of(&acc, 0, max);
                push_char(&mut cut, '\u{2026}');
                return sanitize(cut.as_str());
            }
            j = j + 1;
        }
        p = p + 1;
    }
    proof {
        assert(per_page.take(doc.pages.len() as int) == per_page);
        assert(texts.take(seen).len() == texts.len());
        assert(texts.take(seen) == texts);
    }
    let whole = string_of(&acc, 0, acc.len());
    assert(whole@ == acc@);
    sanitize(whole.as_str())
}

/// What is decided of a reduced document: `Empty` where it has no line,
/// `OcrConverged` otherwise, with the number of lines and the preview.
pub fn decide(doc: &OCRDocument) -> (r: DecisionRecord)
    ensures
        r@ == RecordView::of(doc@),
{
    let lines = count_lines(doc);
    let decision = if lines == 0 {
        Decision::Empty
    } else {
        Decision::OcrConverged
    };
    DecisionRecord {
        source: doc.source.clone(),
        decision,
        lines,
        preview: preview_document(doc, PREVIEW_CAP),
    }
}

impl DecisionRecord {
    /// The record as one line of the log, without the line feed.
    pub fn to_jsonl(&self) -> (r: String)
        ensures
            r@ == self@.jsonl(),
    {
        let mut r = String::new();
        r.append("{\"source\":\"");
        let source = sanitize(self.source.as_str());
        r.append(source.as_str());
        r.append("\",\"decision\":\"");
        r.append(self.decision.as_str());
        r.append("\",\"lines\":");
        push_decimal(&mut r, self.lines);
        r.append(",\"preview\":\"");
        r.append(self.preview.as_str());
        r.append("\"}");
        r
    }
}

/// How many characters of `s` are written as two: its backslashes and its
/// quotes.
pub open spec fn doubled(s: Seq<char>) -> nat {
    s.filter(|c: char| c == '\\' || c == '"').len()
}

/// Escaping goes character by character.
pub proof fn lemma_escaped_push(s: Seq<char>, c: char)
    ensures
        escaped(s.push(c)) == escaped(s) + escape_char(c),
        doubled(s.push(c)) == doubled(s) + if c == '\\' || c == '"' {
            1nat
        } else {
            0nat
        },
{
    let parts = s.map_values(|c: char| escape_char(c));
    assert(s.push(c).map_values(|c: char| escape_char(c)) == parts.push(escape_char(c)));
    parts.lemma_flatten_push(escape_char(c));
    s.lemma_filter_push(c, |c: char| c == '\\' || c == '"');
}

/// What holds of an escaped text: it has no line feed and no carriage
/// return, each of its quotes stands behind a backslash, and it is longer
/// than the text by the number of the text's backslashes and quotes.
pub proof fn lemma_escaped(s: Seq<char>)
    ensures
        forall|i: int|
            0 <= i < escaped(s).len() ==> (#[trigger] escaped(s)[i]) != '\n' && escaped(s)[i]
                != '\r',
        forall|i: int|
            0 <= i < escaped(s).len() && (#[trigger] escaped(s)[i]) == '"' ==> i > 0 && escaped(
                s,
            )[i - 1] == '\\',
        escaped(s).len() == s.len() + doubled(s),
    decreases s.len(),
{
    if s.len() == 0 {
        reveal(Seq::filter);
        assert(s.map_values(|c: char| escape_char(c)) == Seq::<Seq<char>>::empty());
    } else {
        lemma_escaped(s.drop_last());
        lemma_escaped_push(s.drop_last(), s.last());
        assert(s.drop_last().push(s.last()) == s);
    }
}

/// An escaped text ends as the text ends, where that is with a character
/// that escaping leaves alone.
pub proof fn lemma_escaped_last(s: Seq<char>)
    requires
        s.len() > 0,
        escape_char(s.last()) == seq![s.last()],
    ensures
        escaped(s).len() > 0,
        escaped(s).last() == s.last(),
{
    lemma_escaped_push(s.drop_last(), s.last());
    assert(s.drop_last().push(s.last()) == s);
}

/// What holds of a preview. Its text before escaping has at most `max`
/// characters and the mark. Where the line texts, with their spaces between,
/// come to `max` characters or more, and to one at least, the preview text
/// is their first `max` characters and the mark, the preview ends with the
/// mark, and its length is `max`, one for the mark, and one for each
/// backslash and quote among those first `max` characters. Where they come
/// to fewer, the preview text is all of them.
pub proof fn lemma_preview(doc: DocumentView, max: nat)
    ensures
        preview_text(doc, max).len() <= max + 1,
        preview(doc, max).len() == preview_text(doc, max).len() + doubled(preview_text(doc, max)),
        joined(document_texts(doc)).len() >= max && joined(document_texts(doc)).len() > 0 ==> {
            &&& preview_text(doc, max) == joined(document_texts(doc)).take(max as int).push(
                ellipsis(),
            )
            &&& preview(doc, max).last() == ellipsis()
            &&& preview(doc, max).len() == max + 1 + doubled(
                joined(document_texts(doc)).take(max as int),
            )
        },
        joined(document_texts(doc)).len() < max ==> preview_text(doc, max) == joined(
            document_texts(doc),
        ),
{
    let full = joined(document_texts(doc));
    let text = preview_text(doc, max);
    lemma_escaped(text);
    if full.len() >= max && full.len() > 0 {
        lemma_escaped_last(text);
        lemma_escaped_push(full.take(max as int), ellipsis());
    }
}

/// A record is one line: it holds no line feed and no carriage return.
pub proof fn lemma_record_is_one_line(doc: DocumentView)
    ensures
        forall|i: int|
            0 <= i < RecordView::of(doc).jsonl().len() ==> (#[trigger] RecordView::of(
                doc,
            ).jsonl()[i]) != '\n' && RecordView::of(doc).jsonl()[i] != '\r',
{
    let record = RecordView::of(doc);
    reveal_strlit("{\"source\":\"");
    reveal_strlit("\",\"decision\":\"");
    reveal_strlit("\",\"lines\":");
    reveal_strlit(",\"preview\":\"");
    reveal_strlit("\"}");
    reveal_strlit("empty");
    reveal_strlit("ocr_converged");
    lemma_escaped(record.source);
    lemma_escaped(preview_text(doc, PREVIEW_CAP as nat));
    lemma_decimal_is_digits(record.lines);
}

/// The decimal form of a number holds digits only.
pub proof fn lemma_decimal_is_digits(n: nat)
    ensures
        decimal(n).len() > 0,
        forall|i: int| 0 <= i < decimal(n).len() ==> '0' <= (#[trigger] decimal(n)[i]) <= '9',
    decreases n,
{
    if n >= 10 {
        lemma_decimal_is_digits(n / 10);
    }
}

} // verus!
