//! A pull-based lazy-sequence library.
//!
//! A sequence produces its values one pull at a time; adapters wrap a
//! sequence and transform, filter, combine or replay its output while
//! implementing the same pull interface themselves.

pub mod combine;
pub mod reduce;
pub mod sequence;
pub mod sources;
pub mod stateful;
pub mod transform;
