//! # Stealing Static Stack
//!
//! Bounded work-stealing queues with FIFO stealing and LIFO or FIFO semantic for
//! the worker.
//!
//! The `Worker` handle of a queue enables push and pop operations, while `Stealer`
//! handles perform FIFO batch-stealing operations. In [`fifo`] and [`lifo`] the
//! queues live in a `Pool`, which `with_pool` makes and which is handed to each
//! operation. Their contracts speak of the [view](model::QueueView) of a queue, and
//! [`laws`] states what follows for sets of queues.
//!
//! What an operation does with the words of a queue is decided by functions on
//! plain integers (`push_step`, `pop_step`, `book_step` and so on). The same
//! decisions drive queues that threads share; [`fifo_protocol`] and
//! [`lifo_protocol`] show what holds of one queue however the threads interleave,
//! and [`threads`] what holds of several.
use vstd::prelude::*;

use crate::cell::UnsafeCell;
use crate::config::{UnsignedLong, UnsignedShort};

pub mod buffers;
pub mod calls;
pub mod cell;
pub mod config;
pub mod decisions;
pub mod fifo;
pub mod fifo_protocol;
pub mod laws;
pub mod lifo;
pub mod lifo_protocol;
pub mod model;
pub mod padded;
pub mod position;
pub mod ring;
pub mod threads;
pub mod transfer;
pub mod transitions;

verus! {

/// Error returned when stealing is unsuccessful.
#[derive(Debug, PartialEq, Eq, Structural)]
pub enum StealError {
    /// No item was stolen.
    Empty,
    /// Another concurrent stealing operation is ongoing.
    Busy,
}

impl Clone for StealError {
    fn clone(&self) -> (error: Self)
        ensures
            error == *self,
    {
        match self {
            StealError::Empty => StealError::Empty,
            StealError::Busy => StealError::Busy,
        }
    }
}

impl StealError {
    /// The text that describes an error.
    pub open spec fn text(&self) -> Seq<char> {
        match self {
            StealError::Empty => "cannot steal from empty queue"@,
            StealError::Busy => "a concurrent steal operation is ongoing"@,
        }
    }

    /// Returns the text that describes the error.
    pub fn to_string(&self) -> (s: String)
        ensures
            s@ == self.text(),
    {
        match self {
            StealError::Empty => "cannot steal from empty queue".to_string(),
            StealError::Busy => "a concurrent steal operation is ongoing".to_string(),
        }
    }
}

/// The first of the two short integers in a long one.
#[verifier::opaque]
pub open spec fn high(value: UnsignedLong) -> int {
    value as int / 0x1_0000_0000
}

/// The second of the two short integers in a long one.
#[verifier::opaque]
pub open spec fn low(value: UnsignedLong) -> int {
    value as int % 0x1_0000_0000
}

/// Packs two short integers into a long one.
pub fn pack(value1: UnsignedShort, value2: UnsignedShort) -> (packed: UnsignedLong)
    ensures
        packed == value1 * 0x1_0000_0000 + value2,
        high(packed) == value1,
        low(packed) == value2,
{
    reveal(high);
    reveal(low);
    assert(((value1 as u64) << 32u32) | value2 as u64 == value1 * 0x1_0000_0000 + value2)
        by (bit_vector);
    ((value1 as UnsignedLong) << UnsignedShort::BITS) | value2 as UnsignedLong
}

/// Unpacks a long integer into 2 short ones.
pub fn unpack(value: UnsignedLong) -> (parts: (UnsignedShort, UnsignedShort))
    ensures
        parts.0 == high(value),
        parts.1 == low(value),
{
    reveal(high);
    reveal(low);
    assert((value >> 32u32) as u32 == value / 0x1_0000_0000) by (bit_vector);
    assert(#[verifier::truncate] (value as u32) == value % 0x1_0000_0000) by (bit_vector);
    (
        (value >> UnsignedShort::BITS) as UnsignedShort,
        #[verifier::truncate]
        (value as UnsignedShort),
    )
}

/// A long integer is determined by the two short ones in it, so that packing
/// undoes unpacking.
pub proof fn parts_determine_value(a: UnsignedLong, b: UnsignedLong)
    requires
        high(a) == high(b),
        low(a) == low(b),
    ensures
        a == b,
{
    reveal(high);
    reveal(low);
}

/// Both parts of a long integer are short ones.
pub proof fn lemma_parts_range(value: UnsignedLong)
    ensures
        0 <= high(value) < 0x1_0000_0000,
        0 <= low(value) < 0x1_0000_0000,
{
    reveal(high);
    reveal(low);
}

/// Any two short integers are the parts of a long one.
pub proof fn lemma_packed(value1: int, value2: int) -> (packed: UnsignedLong)
    requires
        0 <= value1 < 0x1_0000_0000,
        0 <= value2 < 0x1_0000_0000,
    ensures
        high(packed) == value1,
        low(packed) == value2,
{
    reveal(high);
    reveal(low);
    (value1 * 0x1_0000_0000 + value2) as UnsignedLong
}

/// Allocates a buffer of `len` empty slots.
pub fn allocate_buffer<T>(len: usize) -> (buffer: Vec<UnsafeCell<Option<T>>>)
    ensures
        buffer@.len() == len,
        forall|i: int| 0 <= i < len ==> (#[trigger] buffer@[i])@ is None,
{
    let mut buffer: Vec<UnsafeCell<Option<T>>> = Vec::with_capacity(len);
    while buffer.len() < len
        invariant
            buffer@.len() <= len,
            forall|i: int| 0 <= i < buffer@.len() ==> (#[trigger] buffer@[i])@ is None,
        decreases len - buffer@.len(),
    {
        buffer.push(UnsafeCell::new(None));
    }
    buffer
}

} // verus!
