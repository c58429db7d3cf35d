//! Preprocessing engine for book chapters with embedded scientific notation.
//!
//! The library scans chapter text for delimited math/plot blocks and inline
//! math, rewrites each occurrence into a reference to a content-addressed
//! rendered artifact, and resolves cross-document label references in a
//! second pass over the whole document.

pub mod document;
pub mod error;
pub mod fragments;
pub mod hashing;
pub mod preprocess;
pub mod references;
pub mod strmap;
pub mod text;
