//! Merging of structured configuration documents.
//!
//! `value` holds the document model, `merge` folds documents into one with
//! last-writer-wins precedence, and `json` converts a document to a JSON value
//! and back.
use vstd::prelude::*;

pub mod json;
pub mod merge;
pub mod value;

verus! {

} // verus!
