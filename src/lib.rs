//! A local semantic code search engine: the chunkers that cut source files
//! into retrieval units, the diff that drives incremental reindexing, and the
//! hybrid ranker that fuses vector and full-text rankings.

pub mod chunker;
pub mod grammar;
pub mod indexer;
pub mod protocol;
pub mod ranker;
pub mod scanner;
pub mod store;
pub mod syntax;
pub mod text;
