//! Resolves free-text job titles to the closest entry of a fixed catalog of
//! canonical titles by TF-IDF similarity.
//!
//! The crate holds the exact part of the engine, every function verified
//! against a contract over mathematical models:
//!
//! - [`text`]: normalisation of raw strings into lowercase, stemmed terms;
//! - [`vocab`]: the vocabulary, terms numbered in first-seen order;
//! - [`matrix`]: the sparse matrix in rows, a cell wherever the weight of a
//!   term in a document is not zero;
//! - [`index`]: the index of a corpus, with document frequencies;
//! - [`codec`]: the binary form of an index, and loading or building one;
//! - [`matcher`]: projection of queries and selection of the best match;
//! - [`catalog`]: the corpus of a catalog and the way back from a title to
//!   the name of its entry.
//!
//! Weights and similarities are real numbers. The index keeps the integers
//! they are made of, [`index::TfidfIndex::term_weights`] hands them out, and
//! the caller evaluates them and returns each similarity as a score key.

pub mod catalog;
pub mod codec;
pub mod index;
pub mod matcher;
pub mod matrix;
pub mod text;
pub mod vocab;
