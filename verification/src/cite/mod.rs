//! Bibliography entries: BibTeX in, a citation label and a formatted
//! reference out.
//!
//! This module knows nothing about slides. It answers two questions about one
//! reference — what the mark in the text says, and what the line in the
//! reference list reads like.

pub mod bibtex;
pub mod entry;
