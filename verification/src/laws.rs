//! What holds of the passes taken together.

pub mod bytes;
pub mod paths;
pub mod printing;
pub mod reading;
pub mod report;
pub mod scan;
pub mod totals;
pub mod walk;
