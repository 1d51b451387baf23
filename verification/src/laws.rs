//! What the operations are for, stated in plain terms: bytes at their offsets, sums, and how the results of
//! several operations relate.

pub mod building;
pub mod commands;
pub mod container;
pub mod decoding;
pub mod firmware;
pub mod hex;
pub mod matching;
pub mod messages;
pub mod notation;
pub mod patch;
pub mod reports;
pub mod tree;
pub mod verification;
pub mod versions;
