//! The code cache.
pub mod guard;
