//! Slots of a ring buffer.
use vstd::arithmetic::div_mod::{
    lemma_add_mod_noop, lemma_mod_add_multiples_vanish, lemma_mod_bound,
};
use vstd::prelude::*;

use crate::cell::UnsafeCell;
use crate::config::UnsignedShort;
use crate::position::{
    is_capacity, lemma_capacity_bounds, lemma_distinct_slots, lemma_mask_is_mod, lemma_slots_differ,
    lemma_wrap_slot, wrap,
};

verus! {

/// What the slots of a buffer hold, by index.
pub open spec fn slots<T>(buffer: Seq<UnsafeCell<Option<T>>>) -> Seq<Option<T>> {
    buffer.map_values(|cell: UnsafeCell<Option<T>>| cell@)
}

/// One turn round the buffer: what the slots hold, from the slot at position
/// `head` on.
pub open spec fn turn<T>(slots: Seq<Option<T>>, head: int) -> Seq<Option<T>> {
    Seq::new(slots.len(), |k: int| slots[(head + k) % (slots.len() as int)])
}

/// A buffer and the mask that maps positions to its slots.
pub open spec fn ring_wf<T>(buffer: Seq<UnsafeCell<Option<T>>>, mask: UnsignedShort) -> bool {
    &&& buffer.len() == mask + 1
    &&& is_capacity(mask + 1)
}

/// Writing to the slot `k` steps from the head changes that slot alone.
pub proof fn lemma_turn_update<T>(slots: Seq<Option<T>>, head: int, k: int, slot: Option<T>)
    requires
        0 <= k < slots.len(),
    ensures
        0 <= (head + k) % (slots.len() as int) < slots.len(),
        turn(slots.update((head + k) % (slots.len() as int), slot), head) == turn(
            slots,
            head,
        ).update(k, slot),
{
    let cap = slots.len() as int;
    let i = (head + k) % cap;
    lemma_mod_bound(head + k, cap);
    let updated = turn(slots.update(i, slot), head);
    assert forall|j: int| 0 <= j < cap implies updated[j] == turn(slots, head).update(
        k,
        slot,
    )[j] by {
        lemma_mod_bound(head + j, cap);
        if (head + j) % cap == i {
            lemma_slots_differ(head, j, k, cap);
        }
    }
    assert(updated =~= turn(slots, head).update(k, slot));
}

/// A turn that starts `d` steps further is the same turn, rotated.
pub proof fn lemma_turn_rotate<T>(slots: Seq<Option<T>>, head: int, d: int)
    requires
        is_capacity(slots.len() as int),
        0 <= d <= slots.len(),
    ensures
        turn(slots, wrap(head + d)) == turn(slots, head).skip(d) + turn(slots, head).take(d),
{
    let cap = slots.len() as int;
    let t = turn(slots, head);
    let r = turn(slots, wrap(head + d));
    lemma_capacity_bounds(cap);
    assert forall|k: int| 0 <= k < cap implies r[k] == (t.skip(d) + t.take(d))[k] by {
        lemma_add_mod_noop(wrap(head + d), k, cap);
        lemma_wrap_slot(head + d, cap);
        lemma_add_mod_noop(head + d, k, cap);
        assert(r[k] == slots[(head + d + k) % cap]);
        if d + k >= cap {
            lemma_mod_add_multiples_vanish(head + d + k - cap, cap);
            assert((head + (d + k - cap)) % cap == (head + d + k) % cap);
        } else {
            assert((head + (d + k)) % cap == (head + d + k) % cap);
        }
    }
    assert(r =~= t.skip(d) + t.take(d));
}

/// The position `k` steps from the head designates slot `k` of the turn.
pub proof fn lemma_turn_slot<T>(slots: Seq<Option<T>>, head: int, k: int, position: int)
    requires
        is_capacity(slots.len() as int),
        0 <= k < slots.len(),
        position == wrap(head + k),
    ensures
        position % (slots.len() as int) == (head + k) % (slots.len() as int),
        slots[position % (slots.len() as int)] == turn(slots, head)[k],
{
    lemma_wrap_slot(head + k, slots.len() as int);
}

/// Takes the content of a slot and leaves the slot empty.
pub fn take_content<T>(slot: &mut Option<T>) -> (content: Option<T>)
    ensures
        content == *old(slot),
        *final(slot) is None,
{
    slot.take()
}

/// Takes the item out of the slot at a position.
///
/// The position is mapped to a buffer index using a modulo operation.
pub fn read_slot<T>(
    buffer: &mut Vec<UnsafeCell<Option<T>>>,
    mask: UnsignedShort,
    position: UnsignedShort,
) -> (item: T)
    requires
        ring_wf(old(buffer)@, mask),
        slots(old(buffer)@)[position as int % (mask + 1)] is Some,
    ensures
        ring_wf(final(buffer)@, mask),
        slots(old(buffer)@)[position as int % (mask + 1)] == Some(item),
        slots(final(buffer)@) == slots(old(buffer)@).update(position as int % (mask + 1), None),
{
    proof {
        lemma_mask_is_mod(position, mask);
        lemma_mod_bound(position as int, mask + 1);
    }
    let index: usize = (position & mask) as usize;
    let slot: Option<T> = buffer[index].with_mut(take_content);
    assert(slots(buffer@) =~= slots(old(buffer)@).update(position as int % (mask + 1), None));
    slot.unwrap()
}

/// Puts an item into the slot at a position.
///
/// The position is mapped to a buffer index using a modulo operation.
pub fn write_slot<T>(
    buffer: &mut Vec<UnsafeCell<Option<T>>>,
    mask: UnsignedShort,
    position: UnsignedShort,
    item: T,
)
    requires
        ring_wf(old(buffer)@, mask),
    ensures
        ring_wf(final(buffer)@, mask),
        slots(final(buffer)@) == slots(old(buffer)@).update(
            position as int % (mask + 1),
            Some(item),
        ),
{
    proof {
        lemma_mask_is_mod(position, mask);
        lemma_mod_bound(position as int, mask + 1);
    }
    let index: usize = (position & mask) as usize;
    buffer[index] = UnsafeCell::new(Some(item));
    assert(slots(buffer@) =~= slots(old(buffer)@).update(position as int % (mask + 1), Some(item)));
}

/// A write to the slot of one position does not change the slot of another one
/// that is less than a turn away.
pub proof fn lemma_slot_kept<T>(
    slots: Seq<Option<T>>,
    written: int,
    slot: Option<T>,
    base: int,
    p: int,
)
    requires
        is_capacity(slots.len() as int),
        base <= written < base + slots.len(),
        base <= p < base + slots.len(),
        p != written,
    ensures
        slots.update(written % (slots.len() as int), slot)[p % (slots.len() as int)] == slots[p % (
        slots.len() as int)],
{
    let cap = slots.len() as int;
    lemma_capacity_bounds(cap);
    lemma_distinct_slots(base, written, p, cap);
    lemma_mod_bound(p, cap);
    lemma_mod_bound(written, cap);
}

} // verus!
