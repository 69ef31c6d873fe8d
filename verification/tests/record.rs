use optimo::ocrys::types::{OCRDocument, OCRLine, OCRPage};
use optimo::record::{
    count_lines, decide, preview_document, sanitize, Decision, DecisionRecord, PREVIEW_CAP,
};

fn line_of(text: &str) -> OCRLine {
    OCRLine { text: text.to_string(), confidence: None }
}

fn document(source: &str, pages: Vec<Vec<&str>>) -> OCRDocument {
    let pages = pages
        .into_iter()
        .enumerate()
        .map(|(i, lines)| OCRPage {
            page_number: i + 1,
            lines: lines.into_iter().map(line_of).collect(),
        })
        .collect();
    OCRDocument { source: source.to_string(), pages }
}

#[test]
fn sanitize_escapes_backslash_and_quote_and_flattens_line_breaks() {
    assert_eq!(sanitize("a\"b\\c\nd\re"), "a\\\"b\\\\c d e");
    assert_eq!(sanitize("plain text"), "plain text");
    assert_eq!(sanitize(""), "");
    assert_eq!(sanitize("\\\""), "\\\\\\\"");
    assert_eq!(sanitize("\r\n"), "  ");
    assert_eq!(sanitize("tab\tstays"), "tab\tstays");
}

#[test]
fn preview_of_a_short_document_is_its_lines_with_single_spaces_between() {
    let doc = document("d", vec![vec!["ab", "c"], vec![], vec!["d e"]]);
    assert_eq!(preview_document(&doc, 200), "ab c d e");
    let doc = document("s", vec![vec!["ab", "cd"], vec!["ef"]]);
    assert_eq!(preview_document(&doc, 200), "ab cd ef");
    let doc = document("s", vec![vec!["only"]]);
    assert_eq!(preview_document(&doc, 200), "only");
}

#[test]
fn preview_of_a_document_without_lines_is_empty() {
    assert_eq!(preview_document(&document("d", vec![]), 200), "");
    assert_eq!(preview_document(&document("d", vec![vec![], vec![]]), 200), "");
    assert_eq!(preview_document(&document("d", vec![]), 0), "");
}

#[test]
fn preview_is_cut_at_the_cap_and_marked() {
    let long = "x".repeat(300);
    let doc = document("d", vec![vec![long.as_str()]]);
    let preview = preview_document(&doc, PREVIEW_CAP);
    assert_eq!(preview.chars().count(), 201);
    assert_eq!(preview, format!("{}\u{2026}", "x".repeat(200)));
}

#[test]
fn preview_is_cut_once_the_text_reaches_the_cap_exactly() {
    let line = "y".repeat(200);
    let doc = document("d", vec![vec![line.as_str()]]);
    assert_eq!(preview_document(&doc, 200), format!("{}\u{2026}", line));
    let shorter = "y".repeat(199);
    let doc = document("d", vec![vec![shorter.as_str()]]);
    assert_eq!(preview_document(&doc, 200), shorter);
    let doc = document("d", vec![vec![shorter.as_str(), "z"]]);
    assert_eq!(preview_document(&doc, 200), format!("{} \u{2026}", shorter));
}

#[test]
fn preview_counts_characters_not_bytes() {
    let line = "\u{e9}".repeat(150);
    let doc = document("d", vec![vec![line.as_str()]]);
    assert_eq!(preview_document(&doc, 200), line);
    let doc = document("d", vec![vec![line.as_str(), line.as_str()]]);
    let want = format!("{} {}\u{2026}", line, "\u{e9}".repeat(49));
    assert_eq!(preview_document(&doc, 200), want);
}

#[test]
fn preview_stops_at_the_line_that_reaches_the_cap() {
    let doc = document("d", vec![vec!["abc", "defgh"], vec!["never seen"]]);
    assert_eq!(preview_document(&doc, 6), "abc de\u{2026}");
    assert_eq!(preview_document(&doc, 4), "abc \u{2026}");
    assert_eq!(preview_document(&doc, 0), "\u{2026}");
}

#[test]
fn preview_is_escaped_after_it_is_cut() {
    let quotes = "\"".repeat(300);
    let doc = document("d", vec![vec![quotes.as_str()]]);
    let preview = preview_document(&doc, 200);
    assert_eq!(preview, format!("{}\u{2026}", "\\\"".repeat(200)));
    assert_eq!(preview.chars().count(), 401);
    let doc = document("d", vec![vec!["say \"hi\"", "back\\slash"]]);
    assert_eq!(preview_document(&doc, 200), "say \\\"hi\\\" back\\\\slash");
}

#[test]
fn a_document_without_lines_is_empty() {
    let record = decide(&document("scan.png", vec![vec![], vec![]]));
    let want = DecisionRecord {
        source: "scan.png".to_string(),
        decision: Decision::Empty,
        lines: 0,
        preview: String::new(),
    };
    assert_eq!(record, want);
    assert_eq!(
        record.to_jsonl(),
        "{\"source\":\"scan.png\",\"decision\":\"empty\",\"lines\":0,\"preview\":\"\"}"
    );
}

#[test]
fn a_document_with_lines_has_converged() {
    let record = decide(&document("scan.png", vec![vec!["hello", "world"], vec!["again"]]));
    let want = DecisionRecord {
        source: "scan.png".to_string(),
        decision: Decision::OcrConverged,
        lines: 3,
        preview: "hello world again".to_string(),
    };
    assert_eq!(record, want);
    assert_eq!(
        record.to_jsonl(),
        "{\"source\":\"scan.png\",\"decision\":\"ocr_converged\",\"lines\":3,\"preview\":\"hello world again\"}"
    );
}

#[test]
fn a_record_escapes_its_source_and_stays_on_one_line() {
    let doc = document("C:\\scans\\\"one\"\n.png", vec![vec!["say \"x\"\r\nnow"]]);
    let line = decide(&doc).to_jsonl();
    assert_eq!(
        line,
        "{\"source\":\"C:\\\\scans\\\\\\\"one\\\" .png\",\"decision\":\"ocr_converged\",\"lines\":1,\"preview\":\"say \\\"x\\\"  now\"}"
    );
    assert!(!line.contains('\n'));
    assert!(!line.contains('\r'));
}

#[test]
fn a_record_writes_large_line_counts_in_full() {
    let record = DecisionRecord {
        source: "s".to_string(),
        decision: Decision::OcrConverged,
        lines: 18_446_744_073_709_551_616,
        preview: "p".to_string(),
    };
    assert_eq!(
        record.to_jsonl(),
        "{\"source\":\"s\",\"decision\":\"ocr_converged\",\"lines\":18446744073709551616,\"preview\":\"p\"}"
    );
}

#[test]
fn decision_names() {
    assert_eq!(Decision::Empty.as_str(), "empty");
    assert_eq!(Decision::OcrConverged.as_str(), "ocr_converged");
}

#[test]
fn lines_are_counted_over_all_pages() {
    assert_eq!(count_lines(&document("d", vec![])), 0);
    assert_eq!(count_lines(&document("d", vec![vec!["a"], vec![], vec!["b", "c"]])), 3);
}

#[test]
fn preview_keeps_the_space_between_lines_where_a_line_is_empty() {
    let doc = document("d", vec![vec!["", "a", ""]]);
    assert_eq!(preview_document(&doc, 200), " a ");
    let doc = document("d", vec![vec![""]]);
    assert_eq!(preview_document(&doc, 0), "");
}
