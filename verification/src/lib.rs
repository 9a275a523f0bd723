//! A node library for a peer-to-peer full-text search network.
//!
//! Documents are reduced to scored summaries by the relevance extractor,
//! matched against boolean queries by the query engine, and streamed
//! search results are buffered per session by the orchestration layer.

pub mod actor;
pub mod codec;
pub mod documents;
pub mod filter;
pub mod index;
pub mod query;
pub mod score;
pub mod session;
pub mod text;
pub mod wordcount;
