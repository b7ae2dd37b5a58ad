//! Counters on cache lines of their own.
//!
//! The counters of a queue are padded with [`CachePadded`] so that updating one
//! of them does not invalidate the cache line of another.
use cache_padded::CachePadded;
use vstd::prelude::*;

use crate::config::{UnsignedLong, UnsignedShort};

verus! {

/// `cache_padded::CachePadded`, a value padded to the length of a cache line.
#[verifier::external_type_specification]
#[verifier::external_body]
#[verifier::reject_recursive_types(T)]
pub struct ExCachePadded<T>(CachePadded<T>);

/// The value in a padded long integer.
pub uninterp spec fn padded_long(padded: CachePadded<UnsignedLong>) -> UnsignedLong;

/// The value in a padded short integer.
pub uninterp spec fn padded_short(padded: CachePadded<UnsignedShort>) -> UnsignedShort;

/// `CachePadded::new` at a long integer: the padded value is the one given.
#[verifier::external_body]
pub(crate) fn pad_long(value: UnsignedLong) -> (padded: CachePadded<UnsignedLong>)
    ensures
        padded_long(padded) == value,
{
    CachePadded::new(value)
}

/// `CachePadded::deref` at a long integer: gives the padded value.
#[verifier::external_body]
pub(crate) fn load_long(padded: &CachePadded<UnsignedLong>) -> (value: UnsignedLong)
    ensures
        value == padded_long(*padded),
{
    **padded
}

/// `CachePadded::new` at a short integer: the padded value is the one given.
#[verifier::external_body]
pub(crate) fn pad_short(value: UnsignedShort) -> (padded: CachePadded<UnsignedShort>)
    ensures
        padded_short(padded) == value,
{
    CachePadded::new(value)
}

/// `CachePadded::deref` at a short integer: gives the padded value.
#[verifier::external_body]
pub(crate) fn load_short(padded: &CachePadded<UnsignedShort>) -> (value: UnsignedShort)
    ensures
        value == padded_short(*padded),
{
    **padded
}

} // verus!
