use optimo::error::PipelineError;
use optimo::ocrys::normalize::normalize_text;
use optimo::ocrys::tesseract::{
    engine_call, output_base_name, run_tesseract, text_to_document, EngineOutcome,
    DEFAULT_LANGUAGE, ENGINE,
};
use optimo::ocrys::{OCRDocument, OCRLine, OCRPage};

fn single_page(source: &str, lines: Vec<&str>) -> OCRDocument {
    OCRDocument {
        source: source.to_string(),
        pages: vec![OCRPage {
            page_number: 1,
            lines: lines
                .into_iter()
                .map(|t| OCRLine { text: t.to_string(), confidence: None })
                .collect(),
        }],
    }
}

const RAW: &str = "  first line \n\n second\r\n   \nthird";

#[test]
fn text_becomes_one_page_of_trimmed_lines_that_are_not_empty() {
    let doc = text_to_document(RAW, "doc.png");
    assert_eq!(doc, single_page("doc.png", vec!["first line", "second", "third"]));
}

#[test]
fn text_without_visible_characters_becomes_a_page_without_lines() {
    assert_eq!(text_to_document("", "d"), single_page("d", vec![]));
    assert_eq!(text_to_document(" \n\t\r\n \u{a0} \n", "d"), single_page("d", vec![]));
}

#[test]
fn text_to_document_agrees_with_std_lines_and_trim() {
    let samples = [RAW, "a\n", "\n\nb", "x \r", "  ", "k\u{3000}\n\u{2003}l m\n"];
    for raw in samples {
        let want: Vec<&str> = raw.lines().map(|l| l.trim()).filter(|l| !l.is_empty()).collect();
        assert_eq!(text_to_document(raw, "s"), single_page("s", want), "{:?}", raw);
    }
}

#[test]
fn normalize_text_leaves_out_the_empty_lines() {
    let doc = normalize_text(RAW, "doc.png");
    assert_eq!(doc, single_page("doc.png", vec!["first line", "second", "third"]));
    assert_eq!(normalize_text("", "d"), single_page("d", vec![]));
    assert_eq!(normalize_text("\n", "d"), single_page("d", vec![]));
    assert_eq!(normalize_text(" \r\n\t\n x \n", "d"), single_page("d", vec!["x"]));
}

#[test]
fn normalize_text_and_text_to_document_agree() {
    let samples = [RAW, "a\n", "\n\nb", "x \r", "  ", "", "k\u{3000}\n\u{2003}l m\n"];
    for raw in samples {
        let doc = normalize_text(raw, "s");
        assert_eq!(doc, text_to_document(raw, "s"), "{:?}", raw);
        assert_eq!(doc.pages.len(), 1);
        assert_eq!(doc.pages[0].page_number, 1);
        for line in &doc.pages[0].lines {
            assert!(!line.text.is_empty());
            assert_eq!(line.text, line.text.trim());
            assert_eq!(line.confidence, None);
        }
    }
}

#[test]
fn a_run_with_text_yields_the_document() {
    let outcome = EngineOutcome::Text("Hello\n world \n".to_string());
    assert_eq!(
        run_tesseract("in.png", "original", outcome),
        Ok(single_page("in.png", vec!["Hello", "world"]))
    );
}

#[test]
fn a_run_that_did_not_start_is_an_invocation_failure() {
    assert_eq!(
        run_tesseract("in.png", "rotated", EngineOutcome::NotStarted),
        Err(PipelineError::EngineInvocation { variant: "rotated".to_string() })
    );
}

#[test]
fn a_run_that_reported_failure_is_an_invocation_failure() {
    assert_eq!(
        run_tesseract("in.png", "high_contrast", EngineOutcome::Failed),
        Err(PipelineError::EngineInvocation { variant: "high_contrast".to_string() })
    );
}

#[test]
fn a_run_without_readable_output_is_an_output_failure() {
    assert_eq!(
        run_tesseract("in.png", "original", EngineOutcome::OutputUnreadable),
        Err(PipelineError::EngineOutput { variant: "original".to_string() })
    );
}

#[test]
fn the_output_of_a_variant_is_named_after_it() {
    assert_eq!(output_base_name("rotated"), "ocr_rotated");
    assert_eq!(output_base_name("v1.5"), "ocr_v1.5");
    assert_eq!(output_base_name(""), "ocr_");
}

#[test]
fn the_engine_is_called_with_input_base_and_language() {
    let call = engine_call("scans/a b.png", "run/ocr_original", DEFAULT_LANGUAGE);
    assert_eq!(call.program, "tesseract");
    assert_eq!(call.program, ENGINE);
    assert_eq!(call.arguments, vec!["scans/a b.png", "run/ocr_original", "-l", "ita"]);
    assert_eq!(call.output, "run/ocr_original.txt");
    assert_eq!(engine_call("i", "run/ocr_v1.5", "eng").output, "run/ocr_v1.5.txt");
}
