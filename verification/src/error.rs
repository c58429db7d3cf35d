//! The error taxonomy of a document run. Every error is terminal for the
//! run; each variant carries enough context to locate its source.

use vstd::prelude::*;

verus! {

/// A failure during block scanning, inline resolution, or rendering.
#[derive(Debug, PartialEq, Eq)]
pub enum Error {
    /// The renderer reported a compile failure: reason, offending element,
    /// and source line when derivable (`usize::MAX` when it is not).
    InvalidMath(String, String, usize),
    /// An inline reference token could not be resolved; the message names
    /// the label and the line.
    InvalidReference(String),
    /// The bibliography converter reported errors.
    InvalidBibliography(String),
    /// The DVI-to-SVG converter reported errors.
    InvalidDvisvgm(String),
    /// A required external tool is missing; the message names it.
    BinaryNotFound(String),
    /// A line holds an odd number of inline delimiters and cannot be
    /// tokenized unambiguously.
    UnevenNumberDollar,
    /// A filesystem operation failed.
    Io(String),
}

} // verus!
