use vstd::prelude::*;

verus! {

/// Integer of a buffer position.
pub type UnsignedShort = u32;

/// Integer that holds two positions packed together.
pub type UnsignedLong = u64;

/// The largest capacity of a queue: half the range of a position, so that a
/// full buffer and an empty one never have the same positions.
pub const MAX_CAPACITY: usize = 0x8000_0000;

} // verus!
