use optimo::error::PipelineError;
use optimo::state::{AgastyaState, AppState, DEFAULT_DATA_DIR};
use optimo::state_bridge::{StateBridge, LOG_FILE};
use std::sync::Arc;

#[test]
fn the_state_starts_with_the_defaults() {
    let state = AppState::new();
    assert_eq!(state.data_dir, "data");
    assert_eq!(state.data_dir, DEFAULT_DATA_DIR);
    assert_eq!(state.ocr_lang, "ita");
}

#[test]
fn the_bridge_points_into_the_data_directory() {
    let bridge = StateBridge::new(&AppState::new());
    assert_eq!(bridge.dir(), "data");
    assert_eq!(bridge.file_name(), "observations.jsonl");
    assert_eq!(bridge.file_name(), LOG_FILE);
    let state = AppState {
        agastya: Arc::new(AgastyaState::init()),
        data_dir: "/var/lib/ocr".to_string(),
        ocr_lang: "eng".to_string(),
    };
    assert_eq!(StateBridge::new(&state).dir(), "/var/lib/ocr");
}

#[test]
fn a_record_is_framed_by_one_line_feed() {
    let bridge = StateBridge::new(&AppState::new());
    assert_eq!(bridge.record_jsonl("{\"k\":1}"), "{\"k\":1}\n");
    assert_eq!(bridge.record_jsonl(""), "\n");
}

#[test]
fn failures_name_their_stage_and_variant() {
    assert_eq!(
        PipelineError::EngineInvocation { variant: "rotated".to_string() }.message(),
        "OCR failed for variant rotated: the engine did not run to success"
    );
    assert_eq!(
        PipelineError::EngineOutput { variant: "original".to_string() }.message(),
        "OCR failed for variant original: the engine's output could not be read"
    );
    assert_eq!(PipelineError::ReductionPrecondition.message(), "no OCR documents to reduce");
    assert_eq!(PipelineError::WorkerBoundary.message(), "task join failed");
    assert_eq!(PipelineError::Persistence.message(), "failed to write observation line");
}

#[test]
fn a_failure_can_be_duplicated() {
    let errors = [
        PipelineError::EngineInvocation { variant: "v".to_string() },
        PipelineError::EngineOutput { variant: "w".to_string() },
        PipelineError::ReductionPrecondition,
        PipelineError::WorkerBoundary,
        PipelineError::Persistence,
    ];
    for error in errors {
        assert_eq!(error.duplicate(), error);
    }
}
