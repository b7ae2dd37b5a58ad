//! Queue buffers of various fixed sizes.
use vstd::arithmetic::power2::{lemma2_to64, pow2};
use vstd::prelude::*;

use crate::allocate_buffer;
use crate::buffers::private::Sealed;
use crate::cell::UnsafeCell;
use crate::config::UnsignedShort;
use crate::position::is_capacity;

mod private;

verus! {

/// Marker trait for fixed-size buffers.
pub trait Buffer<T>: Sealed {
    /// Buffer size.
    const CAPACITY: UnsignedShort;

    /// Buffer index bit mask.
    const MASK: UnsignedShort;

    /// Buffer size, as contracts speak of it.
    spec fn size() -> nat;

    /// The size is a power of two, and the mask selects the bits of an index.
    proof fn size_is_capacity()
        ensures
            is_capacity(Self::size() as int),
            Self::CAPACITY == Self::size(),
            Self::MASK == Self::size() - 1,
    ;

    /// Returns a buffer of empty slots.
    fn allocate() -> (buffer: Vec<UnsafeCell<Option<T>>>)
        ensures
            buffer@.len() == Self::size(),
            forall|i: int| 0 <= i < Self::size() ==> (#[trigger] buffer@[i])@ is None,
    ;
}

/// Marker type for buffers of capacity 2.
#[derive(Copy, Clone, Debug)]
pub struct B2 {}

impl Sealed for B2 {

}

impl<T> Buffer<T> for B2 {
    const CAPACITY: UnsignedShort = 2;

    const MASK: UnsignedShort = 1;

    open spec fn size() -> nat {
        2
    }

    proof fn size_is_capacity() {
        lemma2_to64();
        assert(pow2(1) == 2);
    }

    fn allocate() -> (buffer: Vec<UnsafeCell<Option<T>>>) {
        allocate_buffer(2)
    }
}

/// Marker type for buffers of capacity 4.
#[derive(Copy, Clone, Debug)]
pub struct B4 {}

impl Sealed for B4 {

}

impl<T> Buffer<T> for B4 {
    const CAPACITY: UnsignedShort = 4;

    const MASK: UnsignedShort = 3;

    open spec fn size() -> nat {
        4
    }

    proof fn size_is_capacity() {
        lemma2_to64();
        assert(pow2(2) == 4);
    }

    fn allocate() -> (buffer: Vec<UnsafeCell<Option<T>>>) {
        allocate_buffer(4)
    }
}

/// Marker type for buffers of capacity 8.
#[derive(Copy, Clone, Debug)]
pub struct B8 {}

impl Sealed for B8 {

}

impl<T> Buffer<T> for B8 {
    const CAPACITY: UnsignedShort = 8;

    const MASK: UnsignedShort = 7;

    open spec fn size() -> nat {
        8
    }

    proof fn size_is_capacity() {
        lemma2_to64();
        assert(pow2(3) == 8);
    }

    fn allocate() -> (buffer: Vec<UnsafeCell<Option<T>>>) {
        allocate_buffer(8)
    }
}

/// Marker type for buffers of capacity 16.
#[derive(Copy, Clone, Debug)]
pub struct B16 {}

impl Sealed for B16 {

}

impl<T> Buffer<T> for B16 {
    const CAPACITY: UnsignedShort = 16;

    const MASK: UnsignedShort = 15;

    open spec fn size() -> nat {
        16
    }

    proof fn size_is_capacity() {
        lemma2_to64();
        assert(pow2(4) == 16);
    }

    fn allocate() -> (buffer: Vec<UnsafeCell<Option<T>>>) {
        allocate_buffer(16)
    }
}

/// Marker type for buffers of capacity 32.
#[derive(Copy, Clone, Debug)]
pub struct B32 {}

impl Sealed for B32 {

}

impl<T> Buffer<T> for B32 {
    const CAPACITY: UnsignedShort = 32;

    const MASK: UnsignedShort = 31;

    open spec fn size() -> nat {
        32
    }

    proof fn size_is_capacity() {
        lemma2_to64();
        assert(pow2(5) == 32);
    }

    fn allocate() -> (buffer: Vec<UnsafeCell<Option<T>>>) {
        allocate_buffer(32)
    }
}

/// Marker type for buffers of capacity 64.
#[derive(Copy, Clone, Debug)]
pub struct B64 {}

impl Sealed for B64 {

}

impl<T> Buffer<T> for B64 {
    const CAPACITY: UnsignedShort = 64;

    const MASK: UnsignedShort = 63;

    open spec fn size() -> nat {
        64
    }

    proof fn size_is_capacity() {
        lemma2_to64();
        assert(pow2(6) == 64);
    }

    fn allocate() -> (buffer: Vec<UnsafeCell<Option<T>>>) {
        allocate_buffer(64)
    }
}

/// Marker type for buffers of capacity 128.
#[derive(Copy, Clone, Debug)]
pub struct B128 {}

impl Sealed for B128 {

}

impl<T> Buffer<T> for B128 {
    const CAPACITY: UnsignedShort = 128;

    const MASK: UnsignedShort = 127;

    open spec fn size() -> nat {
        128
    }

    proof fn size_is_capacity() {
        lemma2_to64();
        assert(pow2(7) == 128);
    }

    fn allocate() -> (buffer: Vec<UnsafeCell<Option<T>>>) {
        allocate_buffer(128)
    }
}

/// Marker type for buffers of capacity 256.
#[derive(Copy, Clone, Debug)]
pub struct B256 {}

impl Sealed for B256 {

}

impl<T> Buffer<T> for B256 {
    const CAPACITY: UnsignedShort = 256;

    const MASK: UnsignedShort = 255;

    open spec fn size() -> nat {
        256
    }

    proof fn size_is_capacity() {
        lemma2_to64();
        assert(pow2(8) == 256);
    }

    fn allocate() -> (buffer: Vec<UnsafeCell<Option<T>>>) {
        allocate_buffer(256)
    }
}

/// Marker type for buffers of capacity 512.
#[derive(Copy, Clone, Debug)]
pub struct B512 {}

impl Sealed for B512 {

}

impl<T> Buffer<T> for B512 {
    const CAPACITY: UnsignedShort = 512;

    const MASK: UnsignedShort = 511;

    open spec fn size() -> nat {
        512
    }

    proof fn size_is_capacity() {
        lemma2_to64();
        assert(pow2(9) == 512);
    }

    fn allocate() -> (buffer: Vec<UnsafeCell<Option<T>>>) {
        allocate_buffer(512)
    }
}

/// Marker type for buffers of capacity 1024.
#[derive(Copy, Clone, Debug)]
pub struct B1024 {}

impl Sealed for B1024 {

}

impl<T> Buffer<T> for B1024 {
    const CAPACITY: UnsignedShort = 1024;

    const MASK: UnsignedShort = 1023;

    open spec fn size() -> nat {
        1024
    }

    proof fn size_is_capacity() {
        lemma2_to64();
        assert(pow2(10) == 1024);
    }

    fn allocate() -> (buffer: Vec<UnsafeCell<Option<T>>>) {
        allocate_buffer(1024)
    }
}

/// Marker type for buffers of capacity 2048.
#[derive(Copy, Clone, Debug)]
pub struct B2048 {}

impl Sealed for B2048 {

}

impl<T> Buffer<T> for B2048 {
    const CAPACITY: UnsignedShort = 2048;

    const MASK: UnsignedShort = 2047;

    open spec fn size() -> nat {
        2048
    }

    proof fn size_is_capacity() {
        lemma2_to64();
        assert(pow2(11) == 2048);
    }

    fn allocate() -> (buffer: Vec<UnsafeCell<Option<T>>>) {
        allocate_buffer(2048)
    }
}

/// Marker type for buffers of capacity 4096.
#[derive(Copy, Clone, Debug)]
pub struct B4096 {}

impl Sealed for B4096 {

}

impl<T> Buffer<T> for B4096 {
    const CAPACITY: UnsignedShort = 4096;

    const MASK: UnsignedShort = 4095;

    open spec fn size() -> nat {
        4096
    }

    proof fn size_is_capacity() {
        lemma2_to64();
        assert(pow2(12) == 4096);
    }

    fn allocate() -> (buffer: Vec<UnsafeCell<Option<T>>>) {
        allocate_buffer(4096)
    }
}

/// Marker type for buffers of capacity 8192.
#[derive(Copy, Clone, Debug)]
pub struct B8192 {}

impl Sealed for B8192 {

}

impl<T> Buffer<T> for B8192 {
    const CAPACITY: UnsignedShort = 8192;

    const MASK: UnsignedShort = 8191;

    open spec fn size() -> nat {
        8192
    }

    proof fn size_is_capacity() {
        lemma2_to64();
        assert(pow2(13) == 8192);
    }

    fn allocate() -> (buffer: Vec<UnsafeCell<Option<T>>>) {
        allocate_buffer(8192)
    }
}

/// Marker type for buffers of capacity 16384.
#[derive(Copy, Clone, Debug)]
pub struct B16384 {}

impl Sealed for B16384 {

}

impl<T> Buffer<T> for B16384 {
    const CAPACITY: UnsignedShort = 16384;

    const MASK: UnsignedShort = 16383;

    open spec fn size() -> nat {
        16384
    }

    proof fn size_is_capacity() {
        lemma2_to64();
        assert(pow2(14) == 16384);
    }

    fn allocate() -> (buffer: Vec<UnsafeCell<Option<T>>>) {
        allocate_buffer(16384)
    }
}

/// Marker type for buffers of capacity 32768.
#[derive(Copy, Clone, Debug)]
pub struct B32768 {}

impl Sealed for B32768 {

}

impl<T> Buffer<T> for B32768 {
    const CAPACITY: UnsignedShort = 32768;

    const MASK: UnsignedShort = 32767;

    open spec fn size() -> nat {
        32768
    }

    proof fn size_is_capacity() {
        lemma2_to64();
        assert(pow2(15) == 32768);
    }

    fn allocate() -> (buffer: Vec<UnsafeCell<Option<T>>>) {
        allocate_buffer(32768)
    }
}

} // verus!
