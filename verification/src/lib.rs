//! Fuzzy subsequence matching and ranking.
//!
//! A candidate string matches a query when the query's characters occur in
//! the candidate in the same order, compared case-insensitively. Each match
//! is given a deterministic integer score; the ranking step orders matches
//! by score, breaks ties by original position, and truncates to a caller
//! supplied limit. An empty query matches every candidate, all with the
//! same baseline score, so the limit and the tie-break decide what comes
//! back.

pub mod chars;
pub mod engine;
pub mod evaluate;
pub mod scorer;
pub mod select;

pub use engine::extract_bests;
pub use scorer::score;
