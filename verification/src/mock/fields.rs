//! An expected field shape. Nothing is checked yet: the expectation
//! matches any fields.

use vstd::prelude::*;

verus! {

/// An expectation over recorded fields, matching anything.
pub fn mock() -> (r: MockFields)
    ensures
        true,
{
    MockFields {  }
}

/// What recorded fields are expected to look like.
#[derive(Debug)]
pub struct MockFields {}

} // verus!
