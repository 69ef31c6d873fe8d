use optimo::error::PipelineError;
use optimo::ocrys::tesseract::EngineOutcome;
use optimo::ocrys::{OCRDocument, OCRLine, OCRPage};
use optimo::task::{cpu_map_reduce_ocr, process_one_document, variants, VariantRun};

fn text(variant: &str, raw: &str) -> VariantRun {
    VariantRun { variant: variant.to_string(), outcome: EngineOutcome::Text(raw.to_string()) }
}

fn ended(variant: &str, outcome: EngineOutcome) -> VariantRun {
    VariantRun { variant: variant.to_string(), outcome }
}

fn three_readings() -> Vec<VariantRun> {
    vec![
        text("original", "Hello World\nTotal: 42\n"),
        text("high_contrast", "hello world\n\nTOTAL 42\n"),
        text("rotated", "  Hello, world!\nsomething else\n"),
    ]
}

#[test]
fn the_variants_are_three_in_a_fixed_order() {
    assert_eq!(variants(), vec!["original", "high_contrast", "rotated"]);
}

#[test]
fn readings_are_mapped_and_reduced_into_the_first() {
    let want = OCRDocument {
        source: "scan.png".to_string(),
        pages: vec![OCRPage {
            page_number: 1,
            lines: ["Hello World", "Total: 42", "something else"]
                .iter()
                .map(|t| OCRLine { text: t.to_string(), confidence: None })
                .collect(),
        }],
    };
    assert_eq!(cpu_map_reduce_ocr("scan.png", three_readings()), Ok(want));
}

#[test]
fn a_document_becomes_one_line_of_the_log() {
    assert_eq!(
        process_one_document("scan.png", three_readings()),
        Ok("{\"source\":\"scan.png\",\"decision\":\"ocr_converged\",\"lines\":3,\"preview\":\"Hello World Total: 42 something else\"}".to_string())
    );
}

#[test]
fn blank_texts_give_an_empty_record() {
    let runs = vec![text("original", ""), text("high_contrast", " \n\t\n"), text("rotated", "\r\n")];
    assert_eq!(
        process_one_document("blank.png", runs),
        Ok("{\"source\":\"blank.png\",\"decision\":\"empty\",\"lines\":0,\"preview\":\"\"}".to_string())
    );
}

#[test]
fn a_failed_variant_fails_the_document() {
    let runs = vec![
        text("original", "fine"),
        ended("high_contrast", EngineOutcome::Failed),
        text("rotated", "fine"),
    ];
    let want = Err(PipelineError::EngineInvocation { variant: "high_contrast".to_string() });
    assert_eq!(cpu_map_reduce_ocr("scan.png", runs.clone()), want);
    assert_eq!(
        process_one_document("scan.png", runs),
        Err(PipelineError::EngineInvocation { variant: "high_contrast".to_string() })
    );
}

#[test]
fn the_first_failed_variant_is_reported() {
    let runs = vec![
        text("original", "fine"),
        ended("high_contrast", EngineOutcome::OutputUnreadable),
        ended("rotated", EngineOutcome::NotStarted),
    ];
    assert_eq!(
        process_one_document("scan.png", runs),
        Err(PipelineError::EngineOutput { variant: "high_contrast".to_string() })
    );
}

#[test]
fn no_runs_leave_nothing_to_reduce() {
    assert_eq!(cpu_map_reduce_ocr("scan.png", Vec::new()), Err(PipelineError::ReductionPrecondition));
    assert_eq!(process_one_document("scan.png", Vec::new()), Err(PipelineError::ReductionPrecondition));
}

#[test]
fn a_long_document_gets_a_cut_preview() {
    let raw = format!("{}\n{}\n", "a".repeat(150), "b".repeat(150));
    let line = process_one_document("long.png", vec![text("original", &raw)]).unwrap();
    let want = format!(
        "{{\"source\":\"long.png\",\"decision\":\"ocr_converged\",\"lines\":2,\"preview\":\"{} {}\u{2026}\"}}",
        "a".repeat(150),
        "b".repeat(49)
    );
    assert_eq!(line, want);
}
