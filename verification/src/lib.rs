//! A study of how well a naive fee-rate block-construction model predicts
//! which pool transactions the next produced block confirms.
//!
//! The core is the block template simulator — dependency-aware ordering
//! followed by capacity-constrained greedy selection — and the cross-tick
//! correlation engine, which carries a selected subset forward across
//! polling cycles, detects block production, and computes inclusion
//! statistics. Acquiring pool and block data, parsing the command line, and
//! persisting result records are left to the surrounding process.

pub mod block_data;
pub mod config;
pub mod mempool_data;
pub mod mempool_data_subsets;
pub mod ratio;
pub mod result;
pub mod runner;
pub mod strategies;
