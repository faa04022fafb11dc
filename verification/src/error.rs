use vstd::prelude::*;

verus! {

/// Every failure this library reports to its callers.
#[derive(Debug, Clone, Copy, PartialEq, Eq, Structural)]
pub enum Error {
    /// `read` or `free` named a handle that is unknown or already freed.
    InvalidHandle(u64),
    /// A fetched listing carried no version marker.
    MissingVersionMarker,
    /// A fetched listing carried no children list.
    MissingChildren,
    /// A child record of a fetched listing could not be translated into an entry.
    MalformedChild,
    /// `read` asked for an offset strictly beyond the end of the listing.
    OffsetOutOfRange,
    /// The handle table cannot hold another open directory.
    HandleSpaceExhausted,
}

} // verus!
