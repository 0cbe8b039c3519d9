//! A page-selection and margin-specification engine for structured documents.
//!
//! The library parses per-page margin selections, deep-copies object graphs
//! between two documents' identity spaces, and composes new pages around
//! imported form objects.

use vstd::prelude::*;

pub mod assemble;
pub mod cloner;
pub mod compose;
pub mod document;
pub mod encoding;
pub mod object;
pub mod selection;

verus! {

/// An error raised while importing a page or cloning an object graph.
#[derive(Clone, Copy, Debug, PartialEq, Eq, Structural)]
pub enum ImportError {
    /// The requested page number is absent from the source document's
    /// page index.
    PageNotFound,
    /// The source graph refers to an identity that its object table does
    /// not hold.
    DanglingReference,
}

/// An error raised while parsing a selection specification string.
#[derive(Clone, Copy, Debug, PartialEq, Eq, Structural)]
pub enum SpecError {
    /// The number of colon-separated fields is outside `[1, 5]`.
    MalformedSpec,
    /// The page-number field is not a non-negative integer that fits in `u32`.
    InvalidPageNumber,
    /// A non-empty margin field is not a non-negative integer that fits in `u32`.
    InvalidMargin,
}

} // verus!
