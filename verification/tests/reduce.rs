use optimo::error::PipelineError;
use optimo::ocrys::types::{OCRDocument, OCRLine, OCRPage};
use optimo::reduce::{merge_page, reduce_documents, reduce_lines};

fn scored(text: &str, confidence: f32) -> OCRLine {
    OCRLine { text: text.to_string(), confidence: Some(confidence.to_bits()) }
}

fn unscored(text: &str) -> OCRLine {
    OCRLine { text: text.to_string(), confidence: None }
}

fn page(number: usize, lines: Vec<OCRLine>) -> OCRPage {
    OCRPage { page_number: number, lines }
}

fn reading(source: &str, pages: Vec<OCRPage>) -> OCRDocument {
    OCRDocument { source: source.to_string(), pages }
}

fn sorted(mut lines: Vec<OCRLine>) -> Vec<(String, Option<u32>)> {
    let mut pairs: Vec<(String, Option<u32>)> =
        lines.drain(..).map(|l| (l.text, l.confidence)).collect();
    pairs.sort();
    pairs
}

const EIGHT_LOW: &str = "w1 w2 w3 w4 w5 w6 w7 w8";
const EIGHT_HIGH: &str = "w3 w4 w5 w6 w7 w8 w9 w10";
const ALL_TEN: &str = "w1 w2 w3 w4 w5 w6 w7 w8 w9 w10";

#[test]
fn highest_confidence_survives_with_its_own_text() {
    let lines = vec![
        scored("invoice total 42", 0.5),
        scored("Invoice total 42", 0.5),
        scored("INVOICE TOTAL 42", 0.9),
        scored("invoice  total 42", 0.5),
    ];
    assert_eq!(reduce_lines(lines), vec![scored("INVOICE TOTAL 42", 0.9)]);
}

#[test]
fn equal_confidence_keeps_the_first_seen() {
    assert_eq!(reduce_lines(vec![unscored("a b"), unscored("A B")]), vec![unscored("a b")]);
    assert_eq!(
        reduce_lines(vec![scored("a b", 0.5), scored("A, B", 0.5)]),
        vec![scored("a b", 0.5)]
    );
}

#[test]
fn missing_confidence_counts_as_zero() {
    assert_eq!(reduce_lines(vec![unscored("a b"), scored("A B", 0.0)]), vec![unscored("a b")]);
    assert_eq!(reduce_lines(vec![scored("a b", 0.0), unscored("A B")]), vec![scored("a b", 0.0)]);
    assert_eq!(reduce_lines(vec![unscored("a b"), scored("A B", 0.1)]), vec![scored("A B", 0.1)]);
    assert_eq!(reduce_lines(vec![scored("a b", 0.1), unscored("A B")]), vec![scored("a b", 0.1)]);
}

#[test]
fn unlike_lines_become_representatives_in_encounter_order() {
    let lines = vec![unscored("zeta"), unscored("alpha"), unscored("Zeta!"), unscored("mid"), unscored("ALPHA")];
    assert_eq!(reduce_lines(lines), vec![unscored("zeta"), unscored("alpha"), unscored("mid")]);
}

#[test]
fn a_replaced_representative_keeps_its_place() {
    let lines = vec![scored("first", 0.2), scored("second", 0.2), scored("FIRST", 0.8)];
    assert_eq!(reduce_lines(lines), vec![scored("FIRST", 0.8), scored("second", 0.2)]);
}

#[test]
fn the_first_representative_that_is_like_the_line_decides() {
    let lines = vec![scored(EIGHT_LOW, 0.5), scored(EIGHT_HIGH, 0.1), scored(ALL_TEN, 0.3)];
    assert_eq!(reduce_lines(lines), vec![scored(EIGHT_LOW, 0.5), scored(EIGHT_HIGH, 0.1)]);
}

#[test]
fn lines_without_words_are_all_kept() {
    let lines = vec![unscored("--"), unscored("--"), unscored("!!"), unscored("a"), unscored("A")];
    assert_eq!(reduce_lines(lines), vec![unscored("--"), unscored("--"), unscored("!!"), unscored("a")]);
}

#[test]
fn nothing_reduces_to_nothing() {
    assert_eq!(reduce_lines(Vec::new()), Vec::<OCRLine>::new());
}

#[test]
fn seven_tenths_merge_and_six_ninths_do_not() {
    let merged = reduce_lines(vec![
        unscored("w1 w2 w3 w4 w5 w6 w7 a8"),
        unscored("w1 w2 w3 w4 w5 w6 w7 b9 b10"),
    ]);
    assert_eq!(merged, vec![unscored("w1 w2 w3 w4 w5 w6 w7 a8")]);
    let apart = reduce_lines(vec![
        unscored("w1 w2 w3 w4 w5 w6 a7"),
        unscored("w1 w2 w3 w4 w5 w6 b8 b9"),
    ]);
    assert_eq!(apart, vec![unscored("w1 w2 w3 w4 w5 w6 a7"), unscored("w1 w2 w3 w4 w5 w6 b8 b9")]);
}

#[test]
fn reducing_unscored_lines_twice_changes_nothing() {
    let lines = vec![
        unscored("Hello World"),
        unscored("hello, world"),
        unscored(EIGHT_LOW),
        unscored(ALL_TEN),
        unscored(EIGHT_HIGH),
        unscored("--"),
        unscored("other text"),
    ];
    let once = reduce_lines(lines);
    assert_eq!(once, vec![unscored("Hello World"), unscored(EIGHT_LOW), unscored(EIGHT_HIGH), unscored("--"), unscored("other text")]);
    assert_eq!(reduce_lines(once.clone()), once);
}

#[test]
fn reducing_twice_merges_again_where_a_replacement_joined_two_kinds() {
    let lines = vec![unscored(EIGHT_LOW), unscored(EIGHT_HIGH), scored(ALL_TEN, 0.9)];
    let once = reduce_lines(lines);
    assert_eq!(once, vec![scored(ALL_TEN, 0.9), unscored(EIGHT_HIGH)]);
    assert_eq!(reduce_lines(once), vec![scored(ALL_TEN, 0.9)]);
}

#[test]
fn order_of_lines_keeps_the_survivors_where_kinds_are_apart() {
    let a = vec![scored("total 42", 0.4), scored("TOTAL 42", 0.7), unscored("date 2020"), unscored("--")];
    let b = vec![unscored("--"), unscored("date 2020"), scored("TOTAL 42", 0.7), scored("total 42", 0.4)];
    assert_eq!(sorted(reduce_lines(a)), sorted(reduce_lines(b)));
}

#[test]
fn order_of_lines_can_change_the_survivors_where_kinds_overlap() {
    let a = reduce_lines(vec![unscored(EIGHT_LOW), unscored(EIGHT_HIGH), unscored(ALL_TEN)]);
    let b = reduce_lines(vec![unscored(ALL_TEN), unscored(EIGHT_LOW), unscored(EIGHT_HIGH)]);
    assert_eq!(a, vec![unscored(EIGHT_LOW), unscored(EIGHT_HIGH)]);
    assert_eq!(b, vec![unscored(ALL_TEN)]);
}

#[test]
fn no_documents_cannot_be_reduced() {
    assert_eq!(reduce_documents(Vec::new()), Err(PipelineError::ReductionPrecondition));
}

#[test]
fn all_variants_are_merged_into_the_first() {
    let docs = vec![
        reading("base.png", vec![page(1, vec![scored("Total 42", 0.6), unscored("only in base")])]),
        reading("other.png", vec![page(7, vec![scored("TOTAL 42", 0.9), unscored("only in second")])]),
        reading("third.png", vec![page(9, vec![scored("total 42", 0.7)])]),
    ];
    let want = reading(
        "base.png",
        vec![page(
            1,
            vec![scored("TOTAL 42", 0.9), unscored("only in base"), unscored("only in second")],
        )],
    );
    assert_eq!(reduce_documents(docs), Ok(want));
}

#[test]
fn pages_are_reduced_each_by_itself() {
    let docs = vec![
        reading("a", vec![page(1, vec![unscored("same line")]), page(2, vec![unscored("same line")])]),
        reading("b", vec![page(1, vec![unscored("Same Line")])]),
        reading(
            "c",
            vec![page(1, Vec::new()), page(2, vec![unscored("SAME LINE"), unscored("more")]), page(3, vec![unscored("lost")])],
        ),
    ];
    let want = reading(
        "a",
        vec![page(1, vec![unscored("same line")]), page(2, vec![unscored("same line"), unscored("more")])],
    );
    assert_eq!(reduce_documents(docs), Ok(want));
}

#[test]
fn reordering_variants_changes_the_identity_and_keeps_the_survivors() {
    let first = reading("first.png", vec![page(1, vec![scored("Total 42", 0.6), unscored("alpha")])]);
    let second = reading("second.png", vec![page(1, vec![scored("TOTAL 42", 0.9), unscored("beta")])]);
    let ab = reduce_documents(vec![first.clone(), second.clone()]).unwrap();
    let ba = reduce_documents(vec![second, first]).unwrap();
    assert_eq!(ab.source, "first.png");
    assert_eq!(ba.source, "second.png");
    assert_eq!(ab.pages.len(), 1);
    assert_eq!(ba.pages.len(), 1);
    assert_eq!(sorted(ab.pages[0].lines.clone()), sorted(ba.pages[0].lines.clone()));
    assert_eq!(
        sorted(ab.pages[0].lines.clone()),
        sorted(vec![scored("TOTAL 42", 0.9), unscored("alpha"), unscored("beta")])
    );
}

#[test]
fn a_document_without_pages_stays_without_pages() {
    let docs = vec![reading("empty", Vec::new()), reading("full", vec![page(1, vec![unscored("x")])])];
    assert_eq!(reduce_documents(docs), Ok(reading("empty", Vec::new())));
}

#[test]
fn merge_page_takes_the_lines_document_after_document() {
    let docs = vec![
        reading("a", vec![page(1, vec![unscored("a1"), unscored("a2")])]),
        reading("b", Vec::new()),
        reading("c", vec![page(1, vec![unscored("c1")]), page(2, vec![unscored("c2")])]),
    ];
    assert_eq!(merge_page(&docs, 0), vec![unscored("a1"), unscored("a2"), unscored("c1")]);
    assert_eq!(merge_page(&docs, 1), vec![unscored("c2")]);
    assert_eq!(merge_page(&docs, 2), Vec::<OCRLine>::new());
}

#[test]
fn duplicate_and_rank_of_a_line() {
    let line = scored("text", 0.25);
    assert_eq!(line.duplicate(), line);
    assert_eq!(line.rank(), 0.25f32.to_bits());
    assert_eq!(unscored("text").rank(), 0);
    assert!(scored("x", 0.9).rank() > scored("x", 0.5).rank());
    assert!(scored("x", 1.0).rank() > scored("x", 0.999).rank());
}

fn candidate(text: &str, form: &str, confidence: Option<u32>) -> optimo::reduce::Candidate {
    optimo::reduce::Candidate {
        line: OCRLine { text: text.to_string(), confidence },
        form: form.to_string(),
    }
}

#[test]
fn candidates_are_compared_by_their_forms_alone() {
    let kept = optimo::reduce::cluster(vec![
        candidate("first text", "a b c", Some(1)),
        candidate("unlike text", "x y z", None),
        candidate("second text", "c b a", Some(2)),
        candidate("first text", "other form", Some(9)),
        candidate("third text", "A B C", Some(9)),
    ]);
    let want = vec![
        candidate("second text", "c b a", Some(2)),
        candidate("unlike text", "x y z", None),
        candidate("first text", "other form", Some(9)),
        candidate("third text", "A B C", Some(9)),
    ];
    assert_eq!(kept, want);
}

#[test]
fn candidates_straddle_the_threshold() {
    let merged = optimo::reduce::cluster(vec![
        candidate("a", "w1 w2 w3 w4 w5 w6 w7 a8", None),
        candidate("b", "w1 w2 w3 w4 w5 w6 w7 b9 b10", None),
    ]);
    assert_eq!(merged, vec![candidate("a", "w1 w2 w3 w4 w5 w6 w7 a8", None)]);
    let apart = optimo::reduce::cluster(vec![
        candidate("a", "w1 w2 w3 w4 w5 w6 a7", None),
        candidate("b", "w1 w2 w3 w4 w5 w6 b8 b9", None),
    ]);
    assert_eq!(apart.len(), 2);
}

#[test]
fn reducing_a_reduced_document_changes_nothing() {
    let docs = vec![
        reading("a", vec![page(1, vec![unscored("Total 42"), unscored("alpha")]), page(2, vec![unscored("x")])]),
        reading("b", vec![page(1, vec![unscored("TOTAL 42"), unscored("beta")]), page(2, vec![unscored("X")])]),
    ];
    let once = reduce_documents(docs).unwrap();
    assert_eq!(reduce_documents(vec![once.clone()]), Ok(once));
}

#[test]
fn order_decides_between_equally_ranked_lines_that_are_alike() {
    let a = reduce_lines(vec![scored("Total 42", 0.5), scored("TOTAL 42", 0.5)]);
    let b = reduce_lines(vec![scored("TOTAL 42", 0.5), scored("Total 42", 0.5)]);
    assert_eq!(a, vec![scored("Total 42", 0.5)]);
    assert_eq!(b, vec![scored("TOTAL 42", 0.5)]);
}

#[test]
fn scores_from_confidences_keep_their_order() {
    let confidences = [0.0f32, 0.001, 0.25, 0.5, 0.699, 0.7, 0.9, 0.999, 1.0];
    for pair in confidences.windows(2) {
        assert!(scored("x", pair[0]).rank() < scored("x", pair[1]).rank());
    }
}

#[test]
fn reordering_keeps_the_survivors_where_only_the_first_readings_have_equally_many_pages() {
    let one = reading("one", vec![page(1, vec![scored("Total 42", 0.6), unscored("alpha")])]);
    let two = reading(
        "two",
        vec![page(1, vec![scored("TOTAL 42", 0.9)]), page(2, vec![unscored("beyond")])],
    );
    let three = reading("three", vec![page(4, vec![unscored("beta"), scored("total 42", 0.7)])]);
    let a = reduce_documents(vec![one.clone(), two.clone(), three.clone()]).unwrap();
    let b = reduce_documents(vec![three, two, one]).unwrap();
    assert_eq!(a.source, "one");
    assert_eq!(b.source, "three");
    assert_eq!(a.pages.len(), 1);
    assert_eq!(b.pages.len(), 1);
    assert_eq!(b.pages[0].page_number, 4);
    assert_eq!(sorted(a.pages[0].lines.clone()), sorted(b.pages[0].lines.clone()));
    assert_eq!(
        sorted(a.pages[0].lines.clone()),
        sorted(vec![scored("TOTAL 42", 0.9), unscored("alpha"), unscored("beta")])
    );
}

#[test]
fn reordering_changes_the_survivors_where_the_first_readings_differ_in_pages() {
    let short = reading("short", vec![page(1, vec![unscored("front")])]);
    let long = reading("long", vec![page(1, vec![unscored("Front")]), page(2, vec![unscored("back")])]);
    let a = reduce_documents(vec![short.clone(), long.clone()]).unwrap();
    let b = reduce_documents(vec![long, short]).unwrap();
    assert_eq!(a.pages.len(), 1);
    assert_eq!(b.pages.len(), 2);
    assert_eq!(b.pages[1].lines, vec![unscored("back")]);
}

#[test]
fn a_line_can_lose_its_like_where_being_alike_does_not_carry_over() {
    let kept = reduce_lines(vec![
        scored(EIGHT_LOW, 0.1),
        scored(ALL_TEN, 0.5),
        scored(EIGHT_HIGH, 0.9),
    ]);
    assert_eq!(kept, vec![scored(EIGHT_HIGH, 0.9)]);
}
