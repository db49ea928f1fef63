//! Thin carriers that lift a filter over a whole subscriber stack: the
//! host adapter implements its framework's traits around them.

use vstd::prelude::*;

verus! {

/// Wraps a filter for use across a layered subscriber stack.
pub struct FilterLayer<F> {
    pub filter: F,
}

impl<F> FilterLayer<F> {
    /// Wrap a filter.
    pub fn new(filter: F) -> (r: Self)
        ensures
            r.filter == filter,
    {
        FilterLayer { filter }
    }
}

/// Wraps a filter for use as a subscriber of a collector.
pub struct FilterSubscriber<F> {
    pub filter: F,
}

impl<F> FilterSubscriber<F> {
    /// Wrap a filter.
    pub fn new(filter: F) -> (r: Self)
        ensures
            r.filter == filter,
    {
        FilterSubscriber { filter }
    }
}

} // verus!
