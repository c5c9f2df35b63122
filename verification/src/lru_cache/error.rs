//! Why a cache cannot be built.
use vstd::prelude::*;

verus! {

/// The one way in which the library rejects an input.
#[derive(Debug, Clone, Copy, PartialEq, Eq, Structural)]
pub enum CacheError {
    /// The requested capacity was zero.
    InvalidArgument,
}

} // verus!
