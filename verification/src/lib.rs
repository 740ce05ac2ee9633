//! Core logic of a late-interaction reranking service.
//!
//! A request carries a query and a collection of candidate documents, each an
//! ordered sequence of embedding tokens. The service prunes low-salience
//! tokens, normalizes the survivors, scores every document against the query
//! by MaxSim aggregation, and answers with the top-k documents and latency
//! percentiles.
//!
//! Embedding arithmetic is floating point and runs in the surrounding
//! service. Everything the engine *decides* from those measurements is
//! discrete, and lives here, verified: which tokens survive pruning and in
//! what order, which documents make the top-k cut and how ties break, which
//! rank a latency percentile reads, how a pruning-spec string is parsed, and
//! which similarity-kernel tier a host's capabilities select. Measured
//! magnitudes enter as order-preserving unsigned keys (larger key, larger
//! measurement), so every ranking decision proved here transfers to the
//! floating-point values the keys stand for.

pub mod bench;
pub mod latency;
pub mod scoring;
