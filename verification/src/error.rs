//! What can go wrong between an origin and those who use it.

use vstd::prelude::*;

verus! {

/// An error of the origin model.
#[derive(Clone, Copy, Debug, PartialEq, Eq, Structural)]
#[non_exhaustive]
pub enum Error {
    /// The path is outside what the handle may use.
    Unauthorized,
    /// A limit was exceeded.
    BoundsExceeded,
    /// Nobody could route the request.
    Unroutable,
    /// The broadcast ended.
    Dropped,
    /// The group was evicted from the cache.
    Evicted,
    /// The operation was canceled.
    Cancel,
    /// There is no such thing.
    NotFound,
}

} // verus!
