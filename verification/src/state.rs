//! What the application carries from start to end.

use crate::ocrys::tesseract::DEFAULT_LANGUAGE;
use std::sync::Arc;
use vstd::prelude::*;

verus! {

/// The directory in which the log is kept where nothing else is set.
pub const DEFAULT_DATA_DIR: &'static str = "data";

/// The state of the domain. It holds nothing yet.
pub struct AgastyaState;

impl AgastyaState {
    /// The state at start.
    pub fn init() -> Self {
        AgastyaState
    }
}

/// The state that every part of the application shares: the domain's
/// state, the directory for what is to survive a run, and the language that
/// the engine is asked for.
#[derive(Clone)]
pub struct AppState {
    pub agastya: Arc<AgastyaState>,
    pub data_dir: String,
    pub ocr_lang: String,
}

impl AppState {
    /// The state at start, with the default directory and language.
    pub fn new() -> (state: Self)
        ensures
            state.data_dir@ == DEFAULT_DATA_DIR@,
            state.ocr_lang@ == DEFAULT_LANGUAGE@,
    {
        AppState {
            agastya: Arc::new(AgastyaState::init()),
            data_dir: DEFAULT_DATA_DIR.to_owned(),
            ocr_lang: DEFAULT_LANGUAGE.to_owned(),
        }
    }
}

} // verus!
