//! What a recognition pass yields, and how its raw text becomes a document.

pub mod normalize;
pub mod tesseract;
pub mod types;

pub use types::{DocumentView, LineView, OCRDocument, OCRLine, OCRPage, PageView};
