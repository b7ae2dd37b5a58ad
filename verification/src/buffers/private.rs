//! Prevents implementations of [`Buffer`](crate::buffers::Buffer) elsewhere.
use vstd::prelude::*;

verus! {

/// Implemented by the buffers of this crate only.
pub trait Sealed {

}

} // verus!
