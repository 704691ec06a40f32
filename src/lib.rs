//! Semantic line search over plain-text files, with an incremental
//! per-workspace store of line embeddings.
pub mod ident;
pub mod ranking;
pub mod text;
pub mod search;
pub mod store;
pub mod reconcile;
pub mod filter;
pub mod workspace;
pub mod cache;
pub mod outputs;
pub mod laws;
