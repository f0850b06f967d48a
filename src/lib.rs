//! Recording and querying of game-controller input.
//!
//! Input events are captured through a deadband filter, stored under
//! time-ordered binary keys, and summarised by reverse scans of the log.

pub mod event;
pub mod filter;
pub mod key;
pub mod query;
pub mod seed;
pub mod seqs;
pub mod timeframe;
pub mod usage;
