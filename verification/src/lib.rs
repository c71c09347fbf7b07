//! Core of a semantic code-search indexer.
//!
//! The crate watches a set of source worktrees, extracts named code
//! fragments from their files, attaches an embedding vector to each
//! fragment, persists the result in a vector database, and answers
//! top-k nearest-neighbour queries by dot-product similarity.
//!
//! Everything here is plain data and verified logic: the filesystem,
//! the grammar-driven parser and the remote embedding service are
//! collaborators that hand the library plain values (file contents,
//! capture ranges, vectors) and take plain values back.

pub mod db;
pub mod embedding;
pub mod indexer;
pub mod pending;
pub mod pipeline;
pub mod store;

pub use indexer::Document;
pub use indexer::IndexedFile;
pub use store::SearchResult;
pub use store::VectorStore;
