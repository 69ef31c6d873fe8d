//! One run of the recognition engine on one variant of a document: what to
//! call, and what its outcome means.

use crate::error::{ErrorView, PipelineError};
use crate::ocrys::normalize::{normalize_text, recognised_lines, single_page};
use crate::ocrys::types::{DocumentView, OCRDocument};
use crate::text::string_views;
use vstd::prelude::*;
use vstd::string::*;

verus! {

/// The engine's program name.
pub const ENGINE: &'static str = "tesseract";

/// What the engine puts behind the output base to name the file that it
/// writes.
pub const OUTPUT_SUFFIX: &'static str = ".txt";

/// The language that the engine is asked for where nothing else is set.
pub const DEFAULT_LANGUAGE: &'static str = "ita";

/// How one run of the engine ended.
#[derive(Clone, Debug, PartialEq, Eq)]
pub enum EngineOutcome {
    /// The engine could not be started.
    NotStarted,
    /// The engine ran and reported failure.
    Failed,
    /// The engine reported success, but its output file is missing or
    /// cannot be read.
    OutputUnreadable,
    /// The engine reported success and this is the text it wrote.
    Text(String),
}

/// An outcome as a value.
pub enum OutcomeView {
    NotStarted,
    Failed,
    OutputUnreadable,
    Text(Seq<char>),
}

impl View for EngineOutcome {
    type V = OutcomeView;

    open spec fn view(&self) -> OutcomeView {
        match self {
            EngineOutcome::NotStarted => OutcomeView::NotStarted,
            EngineOutcome::Failed => OutcomeView::Failed,
            EngineOutcome::OutputUnreadable => OutcomeView::OutputUnreadable,
            EngineOutcome::Text(raw) => OutcomeView::Text(raw@),
        }
    }
}

/// What is handed to the process that runs the engine, and where the text
/// is found afterwards.
#[derive(Clone, Debug, PartialEq, Eq)]
pub struct EngineCall {
    pub program: String,
    pub arguments: Vec<String>,
    pub output: String,
}

/// The name of a variant's output, without directory and without extension.
pub open spec fn output_name(variant: Seq<char>) -> Seq<char> {
    "ocr_"@ + variant
}

/// The file in which the engine leaves its text for the output base `base`.
pub open spec fn output_file(base: Seq<char>) -> Seq<char> {
    base + OUTPUT_SUFFIX@
}

/// The arguments of the engine: the input, the output base, and the
/// language behind its flag.
pub open spec fn engine_arguments(input: Seq<char>, base: Seq<char>, lang: Seq<char>) -> Seq<
    Seq<char>,
> {
    seq![input, base, "-l"@, lang]
}

/// What one run of the engine on one variant comes to: the document that
/// its text yields, or the failure, which names the variant.
pub open spec fn variant_result(
    input: Seq<char>,
    variant: Seq<char>,
    outcome: OutcomeView,
) -> Result<DocumentView, ErrorView> {
    match outcome {
        OutcomeView::NotStarted => Err(ErrorView::EngineInvocation { variant }),
        OutcomeView::Failed => Err(ErrorView::EngineInvocation { variant }),
        OutcomeView::OutputUnreadable => Err(ErrorView::EngineOutput { variant }),
        OutcomeView::Text(raw) => Ok(single_page(input, recognised_lines(raw))),
    }
}

/// The name of a variant's output, without directory and without extension.
pub fn output_base_name(variant: &str) -> (r: String)
    ensures
        r@ == output_name(variant@),
{
    let mut r = String::new();
    r.append("ocr_");
    r.append(variant);
    r
}

/// The call that runs the engine on `input` for the output base
/// `output_base` and the language `lang`.
pub fn engine_call(input: &str, output_base: &str, lang: &str) -> (call: EngineCall)
    ensures
        call.program@ == ENGINE@,
        string_views(call.arguments@) == engine_arguments(input@, output_base@, lang@),
        call.output@ == output_file(output_base@),
{
    let mut arguments: Vec<String> = Vec::new();
    arguments.push(input.to_owned());
    arguments.push(output_base.to_owned());
    arguments.push("-l".to_owned());
    arguments.push(lang.to_owned());
    let mut output = String::new();
    output.append(output_base);
    output.append(OUTPUT_SUFFIX);
    assert(string_views(arguments@) == engine_arguments(input@, output_base@, lang@));
    EngineCall { program: ENGINE.to_owned(), arguments, output }
}

/// The document that the engine's text is: one page, numbered one, with the
/// non-empty trimmed lines of the text, unscored.
pub fn text_to_document(raw: &str, source: &str) -> (doc: OCRDocument)
    ensures
        doc@ == single_page(source@, recognised_lines(raw@)),
        doc@.well_formed(),
{
    normalize_text(raw, source)
}

/// What one run of the engine on one variant of `input` comes to. A run
/// that did not start or reported failure is an invocation failure; a run
/// whose text cannot be had is an output failure; both name the variant.
/// Otherwise the text becomes the document.
pub fn run_tesseract(input: &str, variant: &str, outcome: EngineOutcome) -> (r: Result<
    OCRDocument,
    PipelineError,
>)
    ensures
        match variant_result(input@, variant@, outcome@) {
            Ok(doc) => r is Ok && r->Ok_0@ == doc,
            Err(e) => r is Err && r->Err_0@ == e,
        },
        r is Ok ==> r->Ok_0@.well_formed(),
{
    match outcome {
        EngineOutcome::NotStarted => Err(
            PipelineError::EngineInvocation { variant: variant.to_owned() },
        ),
        EngineOutcome::Failed => Err(
            PipelineError::EngineInvocation { variant: variant.to_owned() },
        ),
        EngineOutcome::OutputUnreadable => Err(
            PipelineError::EngineOutput { variant: variant.to_owned() },
        ),
        EngineOutcome::Text(raw) => Ok(text_to_document(raw.as_str(), input)),
    }
}

} // verus!
