//! An expected event shape: metadata expectations, a trace of expected
//! enclosing spans, and field expectations.

use vstd::prelude::*;

use crate::level::Level;
use crate::mock::fields::MockFields;
use crate::mock::metadata::{self, MockMetadata};
use crate::mock::span::MockSpan;

verus! {

/// An expectation with nothing expected yet.
pub fn mock() -> (r: MockEvent)
    ensures
        r.metadata.name is None,
        r.metadata.level is None,
        r.metadata.target is None,
        r.spantrace@.len() == 0,
{
    MockEvent { metadata: metadata::mock(), spantrace: Vec::new(), fields: MockFields {  } }
}

/// What an event is expected to look like.
#[derive(Debug)]
pub struct MockEvent {
    pub metadata: MockMetadata,
    pub spantrace: Vec<MockSpan>,
    pub fields: MockFields,
}

impl MockEvent {
    /// Expect this name.
    pub fn name(self, name: String) -> (r: Self)
        ensures
            r.metadata.name == Some(name),
            r.metadata.level == self.metadata.level,
            r.metadata.target == self.metadata.target,
    {
        MockEvent { metadata: self.metadata.name(name), ..self }
    }

    /// Expect this level.
    pub fn level(self, level: Level) -> (r: Self)
        ensures
            r.metadata.level == Some(level),
            r.metadata.name == self.metadata.name,
            r.metadata.target == self.metadata.target,
    {
        MockEvent { metadata: self.metadata.level(level), ..self }
    }

    /// Expect this target.
    pub fn target(self, target: String) -> (r: Self)
        ensures
            r.metadata.target == Some(target),
            r.metadata.name == self.metadata.name,
            r.metadata.level == self.metadata.level,
    {
        MockEvent { metadata: self.metadata.target(target), ..self }
    }
}

} // verus!
