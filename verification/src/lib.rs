//! A local full-text retrieval engine: it ingests a corpus of documents,
//! builds a term-level inverted index, scores documents against a query
//! under a configurable ranking model (TF-IDF or BM25), and evaluates
//! ranking quality against labeled relevance judgments.
//!
//! Scores and averages are represented as Q16.16 fixed-point integers
//! (a value `v` stands for the real number `v / 65536`); the ranking
//! formulas are stated exactly over integer arithmetic.
use vstd::prelude::*;

pub mod docs;
pub mod eval;
pub mod fixedpoint;
pub mod index;
pub mod score;
pub mod search;
pub mod tokenize;

verus! {

/// A corpus line that should have held a document record could not be
/// parsed; `line` is the 1-based number of the offending line.
#[derive(Debug, PartialEq, Eq, Structural)]
pub enum CorpusError {
    RecordParse { line: usize },
}

/// Building an index over an empty corpus is refused: the average document
/// length would be undefined.
#[derive(Debug, PartialEq, Eq, Structural)]
pub enum BuildError {
    EmptyCorpus,
}

} // verus!
