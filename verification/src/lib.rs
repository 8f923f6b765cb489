//! Fuzzy text search: matching a needle against lines, keeping the best
//! results, and printing them.

pub mod args;
pub mod bytes;
mod heap;
pub mod matcher;
pub mod printer;
pub mod report;
pub mod scoring;
pub mod stats;
pub mod topk;
pub mod walker;
pub mod watch;
