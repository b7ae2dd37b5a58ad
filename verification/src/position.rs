//! Arithmetic of buffer positions.
//!
//! A position is a counter that wraps around at 2^32. The least significant
//! bits of a position are the index of its slot in the buffer, whose length is
//! a power of two.
use vstd::arithmetic::div_mod::{lemma_fundamental_div_mod, lemma_mod_mod};
use vstd::arithmetic::power2::{
    lemma2_to64, lemma_pow2_adds, lemma_pow2_pos, lemma_pow2_strictly_increases, lemma_pow2_unfold,
    pow2,
};
use vstd::bits::{lemma_u32_low_bits_mask_is_mod, low_bits_mask};
use vstd::prelude::*;

use crate::config::{UnsignedShort, MAX_CAPACITY};

verus! {

/// The position that a count of steps from position 0 leads to.
#[verifier::opaque]
pub open spec fn wrap(x: int) -> int {
    x % 0x1_0000_0000
}

/// A position is less than 2^32, and counts less than that are not wrapped.
pub proof fn lemma_wrap_range(x: int)
    ensures
        0 <= wrap(x) < 0x1_0000_0000,
        0 <= x < 0x1_0000_0000 ==> wrap(x) == x,
{
    reveal(wrap);
}

/// Walking the distance between two positions leads from one to the other.
pub proof fn lemma_wrap_distance(from: int, to: int)
    requires
        0 <= to < 0x1_0000_0000,
    ensures
        wrap(from + wrap(to - from)) == to,
{
    reveal(wrap);
}

/// Wrapping before or after further steps is the same.
pub proof fn lemma_wrap_add(x: int, n: int)
    ensures
        wrap(wrap(x) + n) == wrap(x + n),
{
    reveal(wrap);
}

/// The distance between two positions, given their distances from a third one.
pub proof fn lemma_wrap_between(x: int, m: int, n: int)
    requires
        0 <= n - m < 0x1_0000_0000,
    ensures
        wrap(wrap(x + n) - wrap(x + m)) == n - m,
{
    reveal(wrap);
}

/// Returns the position `n` steps behind a position.
pub fn advance(position: UnsignedShort, n: UnsignedShort) -> (advanced: UnsignedShort)
    ensures
        advanced == wrap(position + n),
{
    reveal(wrap);
    position.wrapping_add(n)
}

/// Returns the number of steps from a position to another one.
pub fn distance(from: UnsignedShort, to: UnsignedShort) -> (steps: UnsignedShort)
    ensures
        steps == wrap(to - from),
        steps == 0 <==> from == to,
{
    reveal(wrap);
    to.wrapping_sub(from)
}

/// The decision to move out the next booked item, given its position and the
/// position behind the last one.
///
/// Returns the position of the item after that and whether this item was the last
/// one, or `None` if no item is left.
pub fn drain_step(position: UnsignedShort, end: UnsignedShort) -> (step: Option<
    (UnsignedShort, bool),
>)
    ensures
        step is None <==> position == end,
        step matches Some((next, last)) ==> {
            &&& next == wrap(position + 1)
            &&& last == (next == end)
        },
{
    if position == end {
        return None;
    }
    let next: UnsignedShort = advance(position, 1);
    Some((next, next == end))
}

/// A length that a buffer can have: a power of two, 2^31 at most.
pub open spec fn is_capacity(n: int) -> bool {
    exists|e: nat| e < 32 && n == #[trigger] pow2(e)
}

/// The smallest power of two that is not less than `n`.
pub open spec fn capacity_for(n: nat) -> nat
    decreases n,
{
    if n <= 1 {
        1
    } else {
        2 * capacity_for(((n + 1) / 2) as nat)
    }
}

/// A capacity is at least 1 and at most 2^31.
pub proof fn lemma_capacity_bounds(cap: int)
    requires
        is_capacity(cap),
    ensures
        1 <= cap <= 0x8000_0000,
{
    let e = choose|e: nat| e < 32 && cap == #[trigger] pow2(e);
    lemma_pow2_pos(e);
    lemma2_to64();
    if e < 31 {
        lemma_pow2_strictly_increases(e, 31);
    }
}

/// Wrapping a count does not change the slot that it designates.
pub proof fn lemma_wrap_slot(x: int, cap: int)
    requires
        is_capacity(cap),
    ensures
        wrap(x) % cap == x % cap,
{
    reveal(wrap);
    let e = choose|e: nat| e < 32 && cap == #[trigger] pow2(e);
    lemma2_to64();
    lemma_pow2_adds(e, (32 - e) as nat);
    lemma_pow2_pos(e);
    lemma_pow2_pos((32 - e) as nat);
    lemma_mod_mod(x, cap, pow2((32 - e) as nat) as int);
}

/// Masking a position gives the index of its slot.
pub proof fn lemma_mask_is_mod(position: u32, mask: u32)
    requires
        is_capacity(mask + 1),
    ensures
        (position & mask) == position as int % (mask + 1),
{
    let e = choose|e: nat| e < 32 && mask + 1 == #[trigger] pow2(e);
    lemma_capacity_bounds(mask + 1);
    lemma_u32_low_bits_mask_is_mod(position, e);
    assert(low_bits_mask(e) as u32 == mask);
    assert((pow2(e) as u32) as int == mask + 1);
}

/// Two offsets within one turn of the buffer designate different slots.
pub proof fn lemma_slots_differ(head: int, i: int, j: int, cap: int)
    requires
        0 <= i < cap,
        0 <= j < cap,
        (head + i) % cap == (head + j) % cap,
    ensures
        i == j,
{
    let a = (head + i) / cap;
    let b = (head + j) / cap;
    lemma_fundamental_div_mod(head + i, cap);
    lemma_fundamental_div_mod(head + j, cap);
    assert(i - j == cap * (a - b)) by (nonlinear_arith)
        requires
            head + i == cap * a + (head + i) % cap,
            head + j == cap * b + (head + j) % cap,
            (head + i) % cap == (head + j) % cap,
    ;
    assert(a == b) by (nonlinear_arith)
        requires
            i - j == cap * (a - b),
            -cap < i - j < cap,
            cap > 0,
    ;
}

/// A power of two that `n` fits in, half of which it does not fit in, is the
/// capacity for `n`.
proof fn lemma_capacity_for(n: nat, e: nat)
    requires
        n <= pow2(e),
        e == 0 || pow2((e - 1) as nat) < n,
    ensures
        capacity_for(n) == pow2(e),
    decreases e,
{
    lemma2_to64();
    if e > 0 {
        lemma_pow2_unfold(e);
        lemma_pow2_pos((e - 1) as nat);
        if e > 1 {
            lemma_pow2_unfold((e - 1) as nat);
        }
        lemma_capacity_for(((n + 1) / 2) as nat, (e - 1) as nat);
    }
}

/// Returns the smallest power of two that is not less than `n`.
pub fn next_power_of_two(n: usize) -> (capacity: usize)
    requires
        n <= MAX_CAPACITY,
    ensures
        capacity == capacity_for(n as nat),
        is_capacity(capacity as int),
{
    let mut capacity: usize = 1;
    let ghost mut e: nat = 0;
    proof {
        lemma2_to64();
    }
    while capacity < n
        invariant
            n <= MAX_CAPACITY,
            e < 32,
            capacity == pow2(e),
            e == 0 || pow2((e - 1) as nat) < n,
        decreases 32 - e,
    {
        proof {
            lemma2_to64();
            lemma_pow2_unfold(e + 1);
        }
        capacity = capacity * 2;
        proof {
            e = e + 1;
        }
    }
    proof {
        lemma_capacity_for(n as nat, e);
    }
    capacity
}

/// The capacity for a number is the smallest power of two that is not less.
pub proof fn capacity_is_smallest_power_of_two(n: nat)
    ensures
        n <= capacity_for(n),
        exists|e: nat| capacity_for(n) == #[trigger] pow2(e),
        forall|e: nat| n <= #[trigger] pow2(e) ==> capacity_for(n) <= pow2(e),
    decreases n,
{
    lemma2_to64();
    if n <= 1 {
        assert(capacity_for(n) == pow2(0));
        assert forall|e: nat| capacity_for(n) <= #[trigger] pow2(e) by {
            lemma_pow2_pos(e);
        }
    } else {
        let half = ((n + 1) / 2) as nat;
        capacity_is_smallest_power_of_two(half);
        let h = choose|h: nat| capacity_for(half) == #[trigger] pow2(h);
        lemma_pow2_unfold(h + 1);
        assert(capacity_for(n) == pow2(h + 1));
        assert forall|e: nat| n <= #[trigger] pow2(e) implies capacity_for(n) <= pow2(e) by {
            assert(e > 0);
            lemma_pow2_unfold(e);
            assert(half <= pow2((e - 1) as nat));
        }
    }
}

/// Two numbers less than 2^32 apart that have the same position are equal.
pub proof fn lemma_same_position(a: int, b: int)
    requires
        wrap(a) == wrap(b),
        -0x1_0000_0000 < a - b < 0x1_0000_0000,
    ensures
        a == b,
{
    reveal(wrap);
}

/// The distance of two numbers less than 2^32 apart, from their positions.
pub proof fn lemma_position_distance(from: int, to: int)
    requires
        0 <= to - from < 0x1_0000_0000,
    ensures
        wrap(wrap(to) - wrap(from)) == to - from,
{
    reveal(wrap);
}

/// Positions within one turn of each other have different slots.
pub proof fn lemma_distinct_slots(base: int, p: int, q: int, cap: int)
    requires
        base <= p < base + cap,
        base <= q < base + cap,
        p != q,
    ensures
        p % cap != q % cap,
{
    if p % cap == q % cap {
        assert(base + (p - base) == p);
        assert(base + (q - base) == q);
        lemma_slots_differ(base, p - base, q - base, cap);
    }
}

} // verus!
