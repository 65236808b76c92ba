//! A small document-retrieval engine: corpus splitting, term normalisation,
//! an inverted index, the integer parts of BM25 scoring and the bookkeeping of
//! mean average precision.
use vstd::prelude::*;

pub mod text;
pub mod tokenizer;
pub mod types;
pub mod indexer;
pub mod splitter;
pub mod score;
pub mod evaluation;

verus! {

/// Identifier of a document (and of a query, whose id keys relevance lookups).
pub type DocId = u32;

} // verus!
