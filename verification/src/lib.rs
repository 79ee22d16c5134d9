//! Per-player opening-explorer indexing: the entry codec that persists
//! position statistics as mergeable byte strings, and the decisions of the
//! indexer that feeds it.

pub mod indexer;
pub mod model;
