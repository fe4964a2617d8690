//! The errors that routing and store construction report.
use vstd::prelude::*;

verus! {

/// A typed routing failure.
#[derive(Debug, Clone, Copy, PartialEq, Eq, Structural)]
pub enum RoutingError {
    /// The point lies outside the graph's coverage, even after widening the search box.
    SnapFailed,
    /// Both ends snapped, but no path joins them.
    NoRouteFound,
    /// A cost model configuration names an unknown variant or holds an out-of-range number.
    BadCostModel,
    /// The edge store's contents are inconsistent.
    StoreUnavailable,
    /// The traversal used up its expansion budget before finishing.
    Cancelled,
}

} // verus!
