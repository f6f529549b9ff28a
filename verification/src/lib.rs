//! An embedding store: fixed-dimension vectors kept beside the text they
//! stand for, and retrieval of the stored items nearest to a query vector.
//!
//! Vectors are handled as the IEEE-754 bit patterns of their components.
//! The distance between two vectors is computed by a metric that the caller
//! supplies when the store is made; the store orders what the metric returns.

pub mod blob;
pub mod embedding;
pub mod error;
pub mod json;
pub mod ranking;
pub mod store;
