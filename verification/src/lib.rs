//! A safe-delete library: a versioned index of trashed files, the
//! persistence format it is stored in, and the planning logic that keeps
//! the index and the physical storage directory in step.

pub mod cache;
pub mod dictionary;
pub mod error;
pub mod json;
pub mod logger;
pub mod pattern;
pub mod settings;
pub mod trash;
