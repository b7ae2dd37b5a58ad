//! Bulk transfer of stolen items between ring buffers.
use vstd::arithmetic::div_mod::{
    lemma_add_mod_noop, lemma_mod_add_multiples_vanish, lemma_mod_bound, lemma_mod_twice,
    lemma_small_mod,
};
use vstd::prelude::*;

use crate::cell::UnsafeCell;
use crate::config::UnsignedShort;
use crate::model::{max, min};
use crate::position::{
    is_capacity, lemma_capacity_bounds, lemma_mask_is_mod, lemma_slots_differ, lemma_wrap_distance,
    lemma_wrap_slot, wrap,
};
use crate::ring::{lemma_turn_update, ring_wf, slots, take_content, turn};

verus! {

/// A run of `len` slots from an index on does not pass the end of the buffer.
pub open spec fn contiguous(cap: int, index: int, len: int) -> bool {
    index % cap + len <= cap
}

/// Splits a transfer of `n` items at the points where the source or the
/// destination range wraps around.
///
/// The result `(lo, hi)` defines up to 3 chunks, `0..lo`, `lo..hi` and `hi..n`,
/// that are contiguous on both sides at once.
pub fn chunk_bounds(cap: usize, src_idx: usize, dcap: usize, dst_idx: usize, n: usize) -> (bounds: (
    usize,
    usize,
))
    requires
        src_idx < cap,
        dst_idx < dcap,
        n <= cap,
        n <= dcap,
    ensures
        bounds.0 == min(
            min((cap - src_idx) as nat, n as nat),
            min((dcap - dst_idx) as nat, n as nat),
        ),
        bounds.0 <= bounds.1 <= n,
        bounds.1 == max(
            min((cap - src_idx) as nat, n as nat),
            min((dcap - dst_idx) as nat, n as nat),
        ),
        contiguous(cap as int, src_idx as int, bounds.0 as int),
        contiguous(dcap as int, dst_idx as int, bounds.0 as int),
        bounds.0 < bounds.1 ==> contiguous(cap as int, src_idx + bounds.0, bounds.1 - bounds.0),
        bounds.0 < bounds.1 ==> contiguous(dcap as int, dst_idx + bounds.0, bounds.1 - bounds.0),
        bounds.1 < n ==> contiguous(cap as int, src_idx + bounds.1, n - bounds.1),
        bounds.1 < n ==> contiguous(dcap as int, dst_idx + bounds.1, n - bounds.1),
{
    let s: usize = if cap - src_idx <= n {
        cap - src_idx
    } else {
        n
    };
    let d: usize = if dcap - dst_idx <= n {
        dcap - dst_idx
    } else {
        n
    };
    let (lo, hi): (usize, usize) = if s <= d {
        (s, d)
    } else {
        (d, s)
    };
    proof {
        lemma_run(cap as int, src_idx as int, 0, lo as int);
        lemma_run(dcap as int, dst_idx as int, 0, lo as int);
        if lo < hi {
            lemma_run(cap as int, src_idx as int, lo as int, hi as int);
            lemma_run(dcap as int, dst_idx as int, lo as int, hi as int);
        }
        if hi < n {
            lemma_run(cap as int, src_idx as int, hi as int, n as int);
            lemma_run(dcap as int, dst_idx as int, hi as int, n as int);
        }
    }
    (lo, hi)
}

/// A run of slots that does not straddle the end of the buffer is contiguous.
proof fn lemma_run(cap: int, index: int, start: int, end: int)
    requires
        0 <= index < cap,
        0 <= start <= end <= cap,
        start < end || start == 0,
        end <= cap - index || start >= cap - index,
    ensures
        contiguous(cap, index + start, end - start),
{
    if start < cap - index {
        lemma_small_mod((index + start) as nat, cap as nat);
    } else {
        lemma_mod_add_multiples_vanish(index + start - cap, cap);
        lemma_small_mod((index + start - cap) as nat, cap as nat);
    }
}

/// The slot of an offset within a contiguous run.
proof fn lemma_run_slot(cap: int, position: int, start: int, i: int, len: int)
    requires
        cap > 0,
        0 <= i < len,
        contiguous(cap, position % cap + start, len),
    ensures
        0 <= (position % cap + start) % cap + i < cap,
        (position % cap + start) % cap + i == (position + (start + i)) % cap,
{
    let base = (position % cap + start) % cap;
    lemma_mod_bound(position % cap + start, cap);
    lemma_add_mod_noop(position, start, cap);
    lemma_add_mod_noop(position % cap, start, cap);
    lemma_mod_twice(position, cap);
    assert(base == (position + start) % cap);
    lemma_add_mod_noop(position + start, i, cap);
    lemma_add_mod_noop(base, i, cap);
    lemma_mod_twice(position + start, cap);
    lemma_small_mod((base + i) as nat, cap as nat);
    assert(position + start + i == position + (start + i));
}

/// What is left of a turn of the source buffer after the offsets `start..end`
/// were moved out.
pub open spec fn vacated<T>(before: Seq<Option<T>>, start: int, end: int) -> Seq<Option<T>> {
    Seq::new(
        before.len(),
        |k: int|
            if start <= k < end {
                None
            } else {
                before[k]
            },
    )
}

/// What a turn of the destination buffer is after the offsets `start..end` were
/// moved in from a turn of the source buffer.
pub open spec fn received<T>(
    before: Seq<Option<T>>,
    src: Seq<Option<T>>,
    start: int,
    end: int,
) -> Seq<Option<T>> {
    Seq::new(
        before.len(),
        |k: int|
            if start <= k < end {
                src[k]
            } else {
                before[k]
            },
    )
}

/// Moves the chunk `start..end` of a transfer.
fn move_chunk<T>(
    src_buffer: &mut Vec<UnsafeCell<Option<T>>>,
    src_mask: UnsignedShort,
    src_pos: UnsignedShort,
    dst_buffer: &mut Vec<UnsafeCell<Option<T>>>,
    dst_mask: UnsignedShort,
    dst_pos: UnsignedShort,
    start: usize,
    end: usize,
)
    requires
        ring_wf(old(src_buffer)@, src_mask),
        ring_wf(old(dst_buffer)@, dst_mask),
        start <= end <= src_mask + 1,
        end <= dst_mask + 1,
        start < end ==> contiguous(
            src_mask + 1,
            src_pos as int % (src_mask + 1) + start,
            end - start,
        ),
        start < end ==> contiguous(
            dst_mask + 1,
            dst_pos as int % (dst_mask + 1) + start,
            end - start,
        ),
    ensures
        ring_wf(final(src_buffer)@, src_mask),
        ring_wf(final(dst_buffer)@, dst_mask),
        turn(slots(final(src_buffer)@), src_pos as int) == vacated(
            turn(slots(old(src_buffer)@), src_pos as int),
            start as int,
            end as int,
        ),
        turn(slots(final(dst_buffer)@), dst_pos as int) == received(
            turn(slots(old(dst_buffer)@), dst_pos as int),
            turn(slots(old(src_buffer)@), src_pos as int),
            start as int,
            end as int,
        ),
{
    let ghost src_turn = turn(slots(src_buffer@), src_pos as int);
    let ghost dst_turn = turn(slots(dst_buffer@), dst_pos as int);
    let ghost cap = src_mask + 1;
    let ghost dcap = dst_mask + 1;
    proof {
        assert(vacated(src_turn, start as int, start as int) =~= src_turn);
        assert(received(dst_turn, src_turn, start as int, start as int) =~= dst_turn);
    }
    if start == end {
        return ;
    }
    proof {
        lemma_capacity_bounds(cap);
        lemma_capacity_bounds(dcap);
        lemma_mask_is_mod(src_pos, src_mask);
        lemma_mask_is_mod(dst_pos, dst_mask);
        lemma_mod_bound(src_pos as int, cap);
        lemma_mod_bound(dst_pos as int, dcap);
    }
    let src_chunk: usize = wrap_index((src_pos & src_mask) as usize, start, src_mask);
    let dst_chunk: usize = wrap_index((dst_pos & dst_mask) as usize, start, dst_mask);
    let len: usize = end - start;
    let mut i: usize = 0;
    while i < len
        invariant
            i <= len,
            len == end - start,
            cap == src_mask + 1,
            dcap == dst_mask + 1,
            end <= cap,
            end <= dcap,
            src_chunk == (src_pos as int % cap + start) % cap,
            dst_chunk == (dst_pos as int % dcap + start) % dcap,
            contiguous(cap, src_pos as int % cap + start, len as int),
            contiguous(dcap, dst_pos as int % dcap + start, len as int),
            ring_wf(src_buffer@, src_mask),
            ring_wf(dst_buffer@, dst_mask),
            src_turn.len() == cap,
            dst_turn.len() == dcap,
            turn(slots(src_buffer@), src_pos as int) == vacated(
                src_turn,
                start as int,
                start + i,
            ),
            turn(slots(dst_buffer@), dst_pos as int) == received(
                dst_turn,
                src_turn,
                start as int,
                start + i,
            ),
        decreases len - i,
    {
        let ghost src_slots = slots(src_buffer@);
        let ghost dst_slots = slots(dst_buffer@);
        let ghost k = start + i;
        proof {
            lemma_run_slot(cap, src_pos as int, start as int, i as int, len as int);
            lemma_run_slot(dcap, dst_pos as int, start as int, i as int, len as int);
            lemma_turn_update(src_slots, src_pos as int, k, None);
            assert(turn(src_slots, src_pos as int)[k] == src_turn[k]);
            lemma_turn_update(dst_slots, dst_pos as int, k, src_turn[k]);
        }
        let slot: Option<T> = src_buffer[src_chunk + i].with_mut(take_content);
        dst_buffer[dst_chunk + i] = UnsafeCell::new(slot);
        proof {
            assert(slots(src_buffer@) =~= src_slots.update((src_pos + k) % cap, None));
            assert(slots(dst_buffer@) =~= dst_slots.update((dst_pos + k) % dcap, src_turn[k]));
            assert(turn(slots(src_buffer@), src_pos as int) =~= vacated(
                src_turn,
                start as int,
                k + 1,
            ));
            assert(turn(slots(dst_buffer@), dst_pos as int) =~= received(
                dst_turn,
                src_turn,
                start as int,
                k + 1,
            ));
        }
        i = i + 1;
    }
}

/// The index `start` slots behind `index`, which wraps around at most once.
fn wrap_index(index: usize, start: usize, mask: UnsignedShort) -> (wrapped: usize)
    requires
        is_capacity(mask + 1),
        index <= mask,
        start <= mask,
    ensures
        wrapped == (index + start) % (mask + 1),
{
    proof {
        lemma_capacity_bounds(mask + 1);
        lemma_mask_is_mod((index + start) as u32, mask);
    }
    ((index as UnsignedShort + start as UnsignedShort) & mask) as usize
}

/// Moves `count` items from position `src_pos` of a ring buffer to position
/// `dst_pos` of another ring buffer.
///
/// Splitting both ring ranges at the union of their wrap points yields at most
/// 3 chunks that are contiguous on both sides at once. The items are relocated,
/// not copied: the source slots are empty afterwards.
pub fn transfer_items<T>(
    src_buffer: &mut Vec<UnsafeCell<Option<T>>>,
    src_mask: UnsignedShort,
    src_pos: UnsignedShort,
    dst_buffer: &mut Vec<UnsafeCell<Option<T>>>,
    dst_mask: UnsignedShort,
    dst_pos: UnsignedShort,
    count: UnsignedShort,
)
    requires
        ring_wf(old(src_buffer)@, src_mask),
        ring_wf(old(dst_buffer)@, dst_mask),
        count <= src_mask + 1,
        count <= dst_mask + 1,
    ensures
        ring_wf(final(src_buffer)@, src_mask),
        ring_wf(final(dst_buffer)@, dst_mask),
        turn(slots(final(src_buffer)@), src_pos as int) == vacated(
            turn(slots(old(src_buffer)@), src_pos as int),
            0,
            count as int,
        ),
        turn(slots(final(dst_buffer)@), dst_pos as int) == received(
            turn(slots(old(dst_buffer)@), dst_pos as int),
            turn(slots(old(src_buffer)@), src_pos as int),
            0,
            count as int,
        ),
{
    proof {
        lemma_capacity_bounds(src_mask + 1);
        lemma_capacity_bounds(dst_mask + 1);
        lemma_mask_is_mod(src_pos, src_mask);
        lemma_mask_is_mod(dst_pos, dst_mask);
        lemma_mod_bound(src_pos as int, src_mask + 1);
        lemma_mod_bound(dst_pos as int, dst_mask + 1);
    }
    let ghost src_turn = turn(slots(src_buffer@), src_pos as int);
    let ghost dst_turn = turn(slots(dst_buffer@), dst_pos as int);
    let src_idx: usize = (src_pos & src_mask) as usize;
    let dst_idx: usize = (dst_pos & dst_mask) as usize;
    let n: usize = count as usize;
    let (lo, hi): (usize, usize) = chunk_bounds(
        src_mask as usize + 1,
        src_idx,
        dst_mask as usize + 1,
        dst_idx,
        n,
    );
    move_chunk(src_buffer, src_mask, src_pos, dst_buffer, dst_mask, dst_pos, 0, lo);
    move_chunk(src_buffer, src_mask, src_pos, dst_buffer, dst_mask, dst_pos, lo, hi);
    move_chunk(src_buffer, src_mask, src_pos, dst_buffer, dst_mask, dst_pos, hi, n);
    proof {
        assert(turn(slots(src_buffer@), src_pos as int) =~= vacated(src_turn, 0, count as int));
        assert(turn(slots(dst_buffer@), dst_pos as int) =~= received(
            dst_turn,
            src_turn,
            0,
            count as int,
        ));
    }
}

/// What a turn of a buffer is after the offsets `start..end` were moved `d`
/// slots further in the same buffer.
pub open spec fn relocated<T>(before: Seq<Option<T>>, d: int, start: int, end: int) -> Seq<
    Option<T>,
> {
    Seq::new(
        before.len(),
        |k: int|
            if start <= k < end {
                None
            } else if d + start <= k < d + end {
                before[k - d]
            } else {
                before[k]
            },
    )
}

/// The source and destination ranges of a transfer within one buffer have no
/// slot in common.
pub proof fn self_steal_ranges_are_disjoint(
    cap: int,
    src_pos: int,
    d: int,
    count: int,
    i: int,
    j: int,
)
    requires
        is_capacity(cap),
        count <= d,
        d + count <= cap,
        0 <= i < count,
        0 <= j < count,
    ensures
        (src_pos + i) % cap != (wrap(src_pos + d) + j) % cap,
{
    lemma_shifted_slot(cap, src_pos, d, j);
    if (src_pos + i) % cap == (src_pos + (d + j)) % cap {
        lemma_slots_differ(src_pos, i, d + j, cap);
    }
}

/// Where an offset from the destination position lies, seen from the source
/// position.
proof fn lemma_shifted_slot(cap: int, src_pos: int, d: int, j: int)
    requires
        is_capacity(cap),
    ensures
        (wrap(src_pos + d) + j) % cap == (src_pos + (d + j)) % cap,
{
    lemma_capacity_bounds(cap);
    lemma_wrap_slot(src_pos + d, cap);
    lemma_add_mod_noop(wrap(src_pos + d), j, cap);
    lemma_add_mod_noop(src_pos + d, j, cap);
    assert(src_pos + d + j == src_pos + (d + j));
}

/// Moves the chunk `start..end` of a transfer within one buffer.
fn move_chunk_within<T>(
    buffer: &mut Vec<UnsafeCell<Option<T>>>,
    mask: UnsignedShort,
    src_pos: UnsignedShort,
    dst_pos: UnsignedShort,
    count: UnsignedShort,
    start: usize,
    end: usize,
)
    requires
        ring_wf(old(buffer)@, mask),
        start <= end <= count,
        count <= wrap(dst_pos - src_pos),
        wrap(dst_pos - src_pos) + count <= mask + 1,
        start < end ==> contiguous(mask + 1, src_pos as int % (mask + 1) + start, end - start),
        start < end ==> contiguous(mask + 1, dst_pos as int % (mask + 1) + start, end - start),
    ensures
        ring_wf(final(buffer)@, mask),
        turn(slots(final(buffer)@), src_pos as int) == relocated(
            turn(slots(old(buffer)@), src_pos as int),
            wrap(dst_pos - src_pos),
            start as int,
            end as int,
        ),
{
    let ghost before = turn(slots(buffer@), src_pos as int);
    let ghost cap = mask + 1;
    let ghost d = wrap(dst_pos - src_pos);
    proof {
        assert(relocated(before, d, start as int, start as int) =~= before);
    }
    if start == end {
        return ;
    }
    proof {
        lemma_capacity_bounds(cap);
        lemma_mask_is_mod(src_pos, mask);
        lemma_mask_is_mod(dst_pos, mask);
        lemma_mod_bound(src_pos as int, cap);
        lemma_mod_bound(dst_pos as int, cap);
        lemma_wrap_distance(src_pos as int, dst_pos as int);
    }
    let src_chunk: usize = wrap_index((src_pos & mask) as usize, start, mask);
    let dst_chunk: usize = wrap_index((dst_pos & mask) as usize, start, mask);
    let len: usize = end - start;
    let mut i: usize = 0;
    while i < len
        invariant
            i <= len,
            len == end - start,
            cap == mask + 1,
            wrap(src_pos + d) == dst_pos,
            end <= count <= d,
            d + count <= cap,
            src_chunk == (src_pos as int % cap + start) % cap,
            dst_chunk == (dst_pos as int % cap + start) % cap,
            contiguous(cap, src_pos as int % cap + start, len as int),
            contiguous(cap, dst_pos as int % cap + start, len as int),
            ring_wf(buffer@, mask),
            before.len() == cap,
            turn(slots(buffer@), src_pos as int) == relocated(before, d, start as int, start + i),
        decreases len - i,
    {
        let ghost now = slots(buffer@);
        let ghost k = start + i;
        proof {
            lemma_run_slot(cap, src_pos as int, start as int, i as int, len as int);
            lemma_run_slot(cap, dst_pos as int, start as int, i as int, len as int);
            lemma_shifted_slot(cap, src_pos as int, d, k);
            lemma_turn_update(now, src_pos as int, k, None);
            lemma_turn_update(
                now.update((src_pos + k) % cap, None),
                src_pos as int,
                d + k,
                before[k],
            );
            assert(turn(now, src_pos as int)[k] == before[k]);
        }
        let slot: Option<T> = buffer[src_chunk + i].with_mut(take_content);
        buffer[dst_chunk + i] = UnsafeCell::new(slot);
        proof {
            assert(slots(buffer@) =~= now.update((src_pos + k) % cap, None).update(
                (src_pos + (d + k)) % cap,
                before[k],
            ));
            assert(turn(slots(buffer@), src_pos as int) =~= relocated(
                before,
                d,
                start as int,
                k + 1,
            ));
        }
        i = i + 1;
    }
}

/// Moves `count` items from position `src_pos` to position `dst_pos` of the
/// same ring buffer.
///
/// The items must be live and there must be room for them behind `dst_pos`, so
/// that the source and destination slots are disjoint.
pub fn transfer_items_within<T>(
    buffer: &mut Vec<UnsafeCell<Option<T>>>,
    mask: UnsignedShort,
    src_pos: UnsignedShort,
    dst_pos: UnsignedShort,
    count: UnsignedShort,
)
    requires
        ring_wf(old(buffer)@, mask),
        count <= wrap(dst_pos - src_pos),
        wrap(dst_pos - src_pos) + count <= mask + 1,
    ensures
        ring_wf(final(buffer)@, mask),
        turn(slots(final(buffer)@), src_pos as int) == relocated(
            turn(slots(old(buffer)@), src_pos as int),
            wrap(dst_pos - src_pos),
            0,
            count as int,
        ),
{
    proof {
        lemma_capacity_bounds(mask + 1);
        lemma_mask_is_mod(src_pos, mask);
        lemma_mask_is_mod(dst_pos, mask);
        lemma_mod_bound(src_pos as int, mask + 1);
        lemma_mod_bound(dst_pos as int, mask + 1);
    }
    let ghost before = turn(slots(buffer@), src_pos as int);
    let ghost d = wrap(dst_pos - src_pos);
    let cap: usize = mask as usize + 1;
    let src_idx: usize = (src_pos & mask) as usize;
    let dst_idx: usize = (dst_pos & mask) as usize;
    let n: usize = count as usize;
    let (lo, hi): (usize, usize) = chunk_bounds(cap, src_idx, cap, dst_idx, n);
    move_chunk_within(buffer, mask, src_pos, dst_pos, count, 0, lo);
    move_chunk_within(buffer, mask, src_pos, dst_pos, count, lo, hi);
    move_chunk_within(buffer, mask, src_pos, dst_pos, count, hi, n);
    proof {
        assert(turn(slots(buffer@), src_pos as int) =~= relocated(before, d, 0, count as int));
    }
}

} // verus!
