//! A filtering engine for structured, hierarchical telemetry: filter
//! specifications such as `target[span{field=value}]=level` are compiled
//! into ordered directive sets, and a runtime matching engine decides,
//! per code site and per event, whether output should be emitted.

pub mod chars;
pub mod diagnostics;
pub mod layer;
pub mod legacy;
pub mod level;
pub mod mock;
pub mod order;

pub use diagnostics::{Diagnostics, DiagnosticsTheme};
pub use layer::{FilterLayer, FilterSubscriber};
pub use level::Level;
