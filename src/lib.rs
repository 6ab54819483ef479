//! Word embeddings in the word2vec binary layout: a verified loader, a word
//! index, and the ranking half of nearest-neighbour and analogy queries.
//! Scores are computed by the caller in floating point and handed in as the
//! raw bits of 32-bit floats.
pub mod format;
pub mod model;
pub mod ranking;

pub use format::LoadError;
pub use model::{Neighbor, QueryError, WordVector};
pub use ranking::{order_key, top_ranked};
