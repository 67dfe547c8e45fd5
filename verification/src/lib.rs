//! A content-addressed file indexer.
//!
//! The crate keeps a catalog of a directory tree's files keyed by content
//! hash. It supports duplicate detection, staleness-aware incremental
//! re-indexing, deletion detection, and structural comparison of two
//! independently built catalogs. Persistence, filesystem walking and the
//! hashing of file bytes are driven from outside; every decision the indexer
//! makes, and every catalog operation, is verified here.

pub mod db;
pub mod dupemap;
pub mod hashing;
pub mod indexing;
pub mod model;
pub mod traversal;
