//! Resolution of configured "opener" programs for files.
//!
//! An ordered registry of rules maps a target file, given by its path and
//! detected content type, to the ordered, duplicate-free set of opener
//! programs configured to handle it; a second algorithm computes the subset
//! of openers common to a whole batch of targets.

pub mod text;
pub mod opener;
pub mod pattern;
pub mod open;
pub mod laws;
