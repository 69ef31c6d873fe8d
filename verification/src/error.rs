//! What can go wrong between a batch of documents and their records.

use vstd::prelude::*;
use vstd::string::*;

verus! {

/// A failure of the pipeline. None is retried: each ends the document it
/// belongs to, and with it the batch.
#[derive(Clone, Debug, PartialEq, Eq)]
pub enum PipelineError {
    /// The engine did not start, or ended with a failure status, for this
    /// variant.
    EngineInvocation { variant: String },
    /// The engine reported success for this variant, but its output is
    /// missing or cannot be read.
    EngineOutput { variant: String },
    /// There were no documents to reduce.
    ReductionPrecondition,
    /// The worker that ran a document's work failed by itself.
    WorkerBoundary,
    /// The log could not be opened or written.
    Persistence,
}

/// A failure as a value.
pub enum ErrorView {
    EngineInvocation { variant: Seq<char> },
    EngineOutput { variant: Seq<char> },
    ReductionPrecondition,
    WorkerBoundary,
    Persistence,
}

impl ErrorView {
    /// The one-line diagnostic for the failure: the stage, and the variant
    /// where there is one.
    pub open spec fn message(self) -> Seq<char> {
        match self {
            ErrorView::EngineInvocation { variant } => "OCR failed for variant "@ + variant
                + ": the engine did not run to success"@,
            ErrorView::EngineOutput { variant } => "OCR failed for variant "@ + variant
                + ": the engine's output could not be read"@,
            ErrorView::ReductionPrecondition => "no OCR documents to reduce"@,
            ErrorView::WorkerBoundary => "task join failed"@,
            ErrorView::Persistence => "failed to write observation line"@,
        }
    }
}

impl View for PipelineError {
    type V = ErrorView;

    open spec fn view(&self) -> ErrorView {
        match self {
            PipelineError::EngineInvocation { variant } => ErrorView::EngineInvocation {
                variant: variant@,
            },
            PipelineError::EngineOutput { variant } => ErrorView::EngineOutput {
                variant: variant@,
            },
            PipelineError::ReductionPrecondition => ErrorView::ReductionPrecondition,
            PipelineError::WorkerBoundary => ErrorView::WorkerBoundary,
            PipelineError::Persistence => ErrorView::Persistence,
        }
    }
}

impl PipelineError {
    /// The one-line diagnostic for the failure.
    pub fn message(&self) -> (r: String)
        ensures
            r@ == self@.message(),
    {
        match self {
            PipelineError::EngineInvocation { variant } => {
                let mut r = String::new();
                r.append("OCR failed for variant ");
                r.append(variant.as_str());
                r.append(": the engine did not run to success");
                r
            },
            PipelineError::EngineOutput { variant } => {
                let mut r = String::new();
                r.append("OCR failed for variant ");
                r.append(variant.as_str());
                r.append(": the engine's output could not be read");
                r
            },
            PipelineError::ReductionPrecondition => {
                let mut r = String::new();
                r.append("no OCR documents to reduce");
                r
            },
            PipelineError::WorkerBoundary => {
                let mut r = String::new();
                r.append("task join failed");
                r
            },
            PipelineError::Persistence => {
                let mut r = String::new();
                r.append("failed to write observation line");
                r
            },
        }
    }

    /// The same failure again.
    pub fn duplicate(&self) -> (r: PipelineError)
        ensures
            r@ == self@,
    {
        match self {
            PipelineError::EngineInvocation { variant } => PipelineError::EngineInvocation {
                variant: variant.clone(),
            },
            PipelineError::EngineOutput { variant } => PipelineError::EngineOutput {
                variant: variant.clone(),
            },
            PipelineError::ReductionPrecondition => PipelineError::ReductionPrecondition,
            PipelineError::WorkerBoundary => PipelineError::WorkerBoundary,
            PipelineError::Persistence => PipelineError::Persistence,
        }
    }
}

} // verus!
