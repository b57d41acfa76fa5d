//! The request logic.
pub mod engine;
