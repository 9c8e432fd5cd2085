//! pq-vector: Parquet with embedded IVF vector index
//!
//! This crate provides IVF (Inverted File) indexing for vector embeddings: how an
//! index is built, written and read, which rows it makes a search look at, and
//! which of them the search reports.
//!
//! A value is held as the bits of a 32-bit float ([`scalar::Scalar`]). The library
//! compares values but does not compute with them: distances, sums, quotients and
//! roots come from functions that the caller hands in ([`arithmetic`]).

pub mod arithmetic;
pub mod builder;
pub mod calls;
pub mod candidates;
pub mod codec;
pub mod coordinates;
pub mod count;
pub mod distance;
pub mod embeddings;
pub mod error;
pub mod exact;
pub mod heap;
pub mod index;
pub mod kmeans;
pub mod layout;
pub mod matrix;
pub mod nearest;
pub mod nonuniform;
pub mod order;
pub mod pairs;
pub mod ranges;
pub mod reading;
pub mod reproducible;
pub mod request;
pub mod rng;
pub mod rounds;
pub mod scalar;
pub mod search;
pub mod seeding;
pub mod selection;
pub mod sums;

pub use count::ClusterCount;
pub use request::{MultiTopkBuilder, TopkBuilder};
pub use search::SearchResult;
