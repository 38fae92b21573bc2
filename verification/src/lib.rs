//! Verified core of a segmented download accelerator.

pub mod decimal;
pub mod filename;
pub mod plan;
pub mod progress;
pub mod segment;
pub mod text;
