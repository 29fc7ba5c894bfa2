//! A small word-puzzle leaderboard core: a free-text extractor that pulls a
//! (puzzle id, score) pair out of a chat message, and a concurrency-safe
//! ledger that records one score per puzzle per user and renders a ranked
//! summary.
//!
//! - [`extract`] turns free text into a structured result, if it holds one.
//! - [`ledger`] owns the per-user score rows and the record transition.
//! - [`report`] ranks users ascending by exact mean score and renders text.
//! - [`board`] guards the ledger with a readers-writer lock and dispatches
//!   inbound messages.
//! - [`digits`] gives numbers and digit strings their meaning.
//! - [`laws`] states and proves the properties the whole store obeys.

pub mod board;
pub mod digits;
pub mod extract;
pub mod laws;
pub mod ledger;
pub mod report;
