//! Finding files with identical contents.
//!
//! A scan runs in passes: bucket the files by size, split each bucket by the
//! digest of a small sample, confirm what is left by the digest of the whole
//! file, and report the groups in a fixed order.

pub mod dedupe;
pub mod digest;
pub mod globs;
pub mod laws;
pub mod order;
pub mod output;
pub mod paths;
pub mod platform;
pub mod sort;
pub mod text;
