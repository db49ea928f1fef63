//! Expected-shape descriptions of events and metadata, for tests that
//! drive the filter by hand.

pub mod event;
pub mod fields;
pub mod metadata;
pub mod span;
