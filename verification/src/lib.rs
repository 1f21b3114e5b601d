//! Segmentation-and-retrieval core of a passage-based question answering
//! service: a text segmenter that turns documents into bounded-size,
//! overlapping passages, a content-hash deduplication policy that makes
//! repeated ingestion idempotent, and a similarity ranker that selects the
//! top-k candidates for a query under an adaptive relevance threshold.

pub mod api;
pub mod config;
pub mod generation;
pub mod hash;
pub mod ingest;
pub mod retrieval;
pub mod segmenter;
pub mod structure;
pub mod text;
pub mod tokens;
pub mod types;
