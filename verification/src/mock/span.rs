//! An expected span shape. Nothing is checked yet: the expectation
//! matches any span.

use vstd::prelude::*;

verus! {

/// What a span is expected to look like.
#[derive(Debug)]
pub struct MockSpan {}

} // verus!
