//! Deterministic merging of the text that several recognition passes read
//! from one document, and the decision record that is kept of the result.

pub mod batch;
pub mod cluster_lemmas;
pub mod compare;
pub mod error;
pub mod ocrys;
pub mod record;
pub mod reduce;
pub mod reduce_lemmas;
pub mod state;
pub mod state_bridge;
pub mod task;
pub mod text;
