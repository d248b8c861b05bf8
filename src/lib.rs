//! Print and concatenate EDI documents.
//!
//! Parses ANSI X12 and EDIFACT documents: detects the separators from the
//! header, then cuts the document into segments.
pub mod edi;
pub mod output;

pub use edi::{detect, detect_bytes, is_x12_header, read_document_str, split_segments, EdiDocumentReader, Sep};
pub use output::number_prefix;
