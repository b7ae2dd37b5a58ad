//! # LIFO, bounded, work-stealing queue.
use cache_padded::CachePadded;
use core::marker::PhantomData;
use vstd::prelude::*;
use vstd::std_specs::cmp::PartialEqSpecImpl;
use vstd::std_specs::iter::IteratorSpec;

use crate::buffers::Buffer;
use crate::cell::UnsafeCell;
use crate::config::{UnsignedLong, UnsignedShort, MAX_CAPACITY};
use crate::model::{
    is_index, lemma_book, lemma_booked, lemma_complete, lemma_created, lemma_held_turn, lemma_items,
    lemma_move_out, lemma_pop_back, lemma_push, lemma_receive, lemma_relocate, lemma_shape,
    lemma_steal, lemma_steal_but_last, lemma_vacate, min, queue_view, queue_wf, steal_count, stolen,
    stolen_but_last, transferred, QueueView,
};
use crate::padded::{load_long, load_short, pad_long, pad_short, padded_long, padded_short};
use crate::position::{
    advance, capacity_for, distance, drain_step, is_capacity, lemma_capacity_bounds,
    lemma_wrap_add, lemma_wrap_between, lemma_wrap_distance, lemma_wrap_range, lemma_wrap_slot,
    next_power_of_two, wrap,
};
use crate::ring::{lemma_slot_kept, read_slot, ring_wf, slots, turn, write_slot};
use crate::transfer::{transfer_items, transfer_items_within};
use crate::{allocate_buffer, high, low, pack, unpack, StealError};

verus! {

/// The position of the tail, given the counts of push and of pop operations.
pub open spec fn tail_position(pop_count_and_head: UnsignedLong, push_count: UnsignedShort) -> int {
    wrap(push_count - high(pop_count_and_head))
}

/// What is decided on a push: it goes ahead unless the queue is full, at the
/// position of the tail, and then moves the push count by one.
pub open spec fn push_decision(
    push_count: UnsignedShort,
    pop_count_and_head: UnsignedLong,
    head: UnsignedShort,
    capacity: UnsignedShort,
    step: Option<(UnsignedShort, UnsignedShort)>,
) -> bool {
    let tail = tail_position(pop_count_and_head, push_count);
    match step {
        Some((position, next_push_count)) => {
            &&& wrap(tail - head) < capacity
            &&& position == tail
            &&& next_push_count == wrap(push_count + 1)
        },
        None => wrap(tail - head) >= capacity,
    }
}

/// What is decided on a pop: it claims the item before the tail, if there is one,
/// and then moves the pop count by one.
pub open spec fn pop_decision(
    pop_count_and_head: UnsignedLong,
    push_count: UnsignedShort,
    step: Option<(UnsignedShort, UnsignedLong)>,
) -> bool {
    let tail = tail_position(pop_count_and_head, push_count);
    match step {
        Some((position, next)) => {
            &&& tail != low(pop_count_and_head)
            &&& position == wrap(tail - 1)
            &&& high(next) == wrap(high(pop_count_and_head) + 1)
            &&& low(next) == low(pop_count_and_head)
        },
        None => tail == low(pop_count_and_head),
    }
}

/// The decision to push an item, given the counters and the capacity of the
/// queue.
///
/// Returns the position of the item and the push count that makes the item
/// visible, or `None` if the queue is full. Slots of items that are being stolen
/// are in use.
pub fn push_step(
    push_count: UnsignedShort,
    pop_count_and_head: UnsignedLong,
    head: UnsignedShort,
    capacity: UnsignedShort,
) -> (step: Option<(UnsignedShort, UnsignedShort)>)
    ensures
        push_decision(push_count, pop_count_and_head, head, capacity, step),
{
    let pop_count: UnsignedShort = unpack(pop_count_and_head).0;
    let tail: UnsignedShort = distance(pop_count, push_count);
    // Check that the buffer is not full.
    if distance(head, tail) >= capacity {
        return None;
    }
    Some((tail, advance(push_count, 1)))
}

/// One attempt to pop an item, given the counters of the queue.
///
/// Returns the position of the item and the pop count and head that claim it, or
/// `None` if the queue is empty.
pub fn pop_step(pop_count_and_head: UnsignedLong, push_count: UnsignedShort) -> (step: Option<
    (UnsignedShort, UnsignedLong),
>)
    ensures
        pop_decision(pop_count_and_head, push_count, step),
{
    let (pop_count, head): (UnsignedShort, UnsignedShort) = unpack(pop_count_and_head);
    let tail: UnsignedShort = distance(pop_count, push_count);
    // Check if the queue is empty.
    if tail == head {
        return None;
    }
    Some((distance(1, tail), pack(advance(pop_count, 1), head)))
}

/// Items booked for stealing.
#[derive(Debug)]
pub struct Booking {
    /// Position of the first booked item.
    pub head: UnsignedShort,
    /// Position behind the last booked item.
    pub new_head: UnsignedShort,
    /// Number of booked items, at least equal to 1.
    pub count: UnsignedShort,
    /// Pop count and head that book the items.
    pub next: UnsignedLong,
}

/// The outcome of an attempt to book `count` items in a queue with the given pop
/// count and head: the booking moves the head only.
pub open spec fn booked(
    pop_count_and_head: UnsignedLong,
    count: nat,
    step: Result<Booking, StealError>,
) -> bool {
    match step {
        Ok(booking) => {
            &&& count > 0
            &&& booking.count == count
            &&& booking.head == low(pop_count_and_head)
            &&& booking.new_head == wrap(low(pop_count_and_head) + count)
            &&& high(booking.next) == high(pop_count_and_head)
            &&& low(booking.next) == booking.new_head
        },
        Err(e) => count == 0 && e == StealError::Empty,
    }
}

/// The number of available items, given the counters of the queue.
pub open spec fn available(pop_count_and_head: UnsignedLong, push_count: UnsignedShort) -> int {
    wrap(tail_position(pop_count_and_head, push_count) - low(pop_count_and_head))
}

/// One attempt to book items for stealing, given the counters of the queue.
///
/// The number of items is specified by a closure which takes as argument the
/// total count of available items.
///
/// # Errors
///
/// An error is returned if no item can be stolen, either because the queue is
/// empty, there is no room or the closure returns 0, or if a concurrent
/// stealing operation is ongoing.
pub fn book_step<C: FnMut(usize) -> usize>(
    old_head: UnsignedShort,
    pop_count_and_head: UnsignedLong,
    push_count: UnsignedShort,
    mut count_fn: C,
    max_count: UnsignedShort,
) -> (step: Result<Booking, StealError>)
    requires
        old_head == low(pop_count_and_head) && available(pop_count_and_head, push_count) != 0
            ==> count_fn.requires((available(pop_count_and_head, push_count) as usize,)),
    ensures
        old_head != low(pop_count_and_head) ==> step == Err::<Booking, StealError>(
            StealError::Busy,
        ),
        old_head == low(pop_count_and_head) && available(pop_count_and_head, push_count) == 0
            ==> step == Err::<Booking, StealError>(StealError::Empty),
        old_head == low(pop_count_and_head) && available(pop_count_and_head, push_count) != 0
            ==> exists|wanted: usize| #[trigger]
            count_fn.ensures((available(pop_count_and_head, push_count) as usize,), wanted)
                && booked(
                pop_count_and_head,
                steal_count(
                    wanted as nat,
                    max_count as nat,
                    available(pop_count_and_head, push_count) as nat,
                ),
                step,
            ),
{
    let (pop_count, head): (UnsignedShort, UnsignedShort) = unpack(pop_count_and_head);
    // Bail out if both heads differ because it means another stealing operation
    // is concurrently ongoing.
    if old_head != head {
        return Err(StealError::Busy);
    }
    let tail: UnsignedShort = distance(pop_count, push_count);
    let item_count: UnsignedShort = distance(head, tail);
    // `item_count` is tested now because `count_fn` may expect `item_count>0`.
    if item_count == 0 {
        return Err(StealError::Empty);
    }
    let wanted: usize = count_fn(item_count as usize);
    let max: UnsignedShort = if max_count < item_count {
        max_count
    } else {
        item_count
    };
    let count: UnsignedShort = if wanted < max as usize {
        wanted as UnsignedShort
    } else {
        max
    };
    // If the head were updated with `count=0`, it would not change, so other
    // stealers would not detect that stealing is ongoing.
    if count == 0 {
        return Err(StealError::Empty);
    }
    let new_head: UnsignedShort = advance(head, count);
    Ok(Booking { head, new_head, count, next: pack(pop_count, new_head) })
}

/// The number of free slots in a queue, given its counters and capacity.
///
/// Slots of items that are being stolen are not free.
pub fn spare_step(
    push_count: UnsignedShort,
    pop_count_and_head: UnsignedLong,
    head: UnsignedShort,
    capacity: UnsignedShort,
) -> (spare: UnsignedShort)
    requires
        wrap(tail_position(pop_count_and_head, push_count) - head) <= capacity,
    ensures
        spare == capacity - wrap(tail_position(pop_count_and_head, push_count) - head),
{
    let pop_count: UnsignedShort = unpack(pop_count_and_head).0;
    let tail: UnsignedShort = distance(pop_count, push_count);
    capacity - distance(head, tail)
}

/// A push goes ahead at each of the free slots that [`spare_step`] tells, one after
/// the other.
pub proof fn spare_slots_can_be_written(
    push_count: UnsignedShort,
    pop_count_and_head: UnsignedLong,
    head: UnsignedShort,
    capacity: UnsignedShort,
    k: int,
)
    requires
        capacity <= 0x8000_0000,
        wrap(tail_position(pop_count_and_head, push_count) - head) <= capacity,
        0 <= k < capacity - wrap(tail_position(pop_count_and_head, push_count) - head),
    ensures
        push_decision(
            wrap(push_count + k) as UnsignedShort,
            pop_count_and_head,
            head,
            capacity,
            Some(
                (
                    wrap(tail_position(pop_count_and_head, push_count) + k) as UnsignedShort,
                    wrap(push_count + k + 1) as UnsignedShort,
                ),
            ),
        ),
{
    let tail = tail_position(pop_count_and_head, push_count);
    lemma_wrap_range(push_count + k);
    lemma_wrap_range(push_count + k + 1);
    lemma_wrap_range(tail + k);
    lemma_wrap_add(push_count + k, 1);
    assert(wrap(wrap(push_count + k) - high(pop_count_and_head)) == wrap(tail + k)) by {
        lemma_wrap_add(push_count + k, -high(pop_count_and_head));
        lemma_wrap_add(push_count - high(pop_count_and_head), k);
    }
    assert(wrap(wrap(tail + k) - head) == wrap(tail - head) + k) by {
        lemma_wrap_add(tail + k, -(head as int));
        lemma_wrap_add(tail - head, k);
        lemma_wrap_range(tail - head);
        lemma_wrap_range(wrap(tail - head) + k);
    }
}

/// Whether no item is available, given the counters of the queue.
pub fn empty_step(pop_count_and_head: UnsignedLong, push_count: UnsignedShort) -> (empty: bool)
    ensures
        empty == (tail_position(pop_count_and_head, push_count) == low(pop_count_and_head)),
{
    let (pop_count, head): (UnsignedShort, UnsignedShort) = unpack(pop_count_and_head);
    distance(pop_count, push_count) == head
}

/// The items that are left in a queue, given its counters: the position of the
/// first one and their number. Items that were booked for stealing are not left.
pub fn drop_step(pop_count_and_head: UnsignedLong, push_count: UnsignedShort) -> (range: (
    UnsignedShort,
    UnsignedShort,
))
    ensures
        range.0 == low(pop_count_and_head),
        range.1 == available(pop_count_and_head, push_count),
{
    let (pop_count, head): (UnsignedShort, UnsignedShort) = unpack(pop_count_and_head);
    (head, distance(head, distance(pop_count, push_count)))
}

/// A double-ended LIFO queue.
///
/// The queue tracks its tail and head position within a ring buffer with
/// wrap-around integers, where the least significant bits specify the actual
/// buffer index. All positions have bit widths that are intentionally larger
/// than necessary for buffer indexing because:
/// - an extra bit is needed to disambiguate between empty and full buffers when
///   the start and end position of the buffer are equal,
/// - the pop count and the head in `pop_count_and_head` are also used as
///   long-cycle counters to prevent ABA issues in the pop CAS and in the
///   stealer CAS.
///
/// The position of the tail can be at any moment determined by subtracting 2
/// counters: the push operations counter and the pop operations counter.
#[derive(Debug)]
pub struct Queue<T> {
    /// Total number of push operations.
    push_count: CachePadded<UnsignedShort>,
    /// Total number of pop operations, packed together with the position of the
    /// head that a stealer will set once stealing is complete. This head
    /// position always coincides with the `head` field below if the last
    /// stealing operation has completed.
    pop_count_and_head: CachePadded<UnsignedLong>,
    /// Position of the queue head, updated after completion of each stealing
    /// operation.
    head: CachePadded<UnsignedShort>,
    /// Queue items.
    buffer: Vec<UnsafeCell<Option<T>>>,
    /// Mask for the buffer index.
    mask: UnsignedShort,
}

impl<T> Queue<T> {
    spec fn old_head(self) -> int {
        padded_short(self.head) as int
    }

    spec fn new_head(self) -> int {
        low(padded_long(self.pop_count_and_head))
    }

    spec fn tail(self) -> int {
        tail_position(padded_long(self.pop_count_and_head), padded_short(self.push_count))
    }

    spec fn held_len(self) -> int {
        wrap(self.new_head() - self.old_head())
    }

    spec fn len(self) -> int {
        wrap(self.tail() - self.new_head())
    }

    spec fn sizes(self) -> (int, int, int) {
        (self.old_head(), self.held_len(), self.len())
    }

    /// The invariant of the queue.
    pub closed spec fn wf(self) -> bool {
        &&& ring_wf(self.buffer@, self.mask)
        &&& queue_wf(slots(self.buffer@), self.old_head(), self.held_len(), self.len())
    }

    /// The content of the queue.
    pub closed spec fn view(self) -> QueueView<T> {
        queue_view(slots(self.buffer@), self.old_head(), self.held_len(), self.len())
    }

    /// The sizes of the queue.
    proof fn lemma_shape(self)
        requires
            self.wf(),
        ensures
            is_capacity(self.mask + 1),
            1 <= self.mask + 1 <= 0x8000_0000,
            self.old_head() == wrap(self.old_head()),
            self.new_head() == wrap(self.old_head() + self.held_len()),
            self.tail() == wrap(self.old_head() + self.held_len() + self.len()),
            wrap(self.tail() - self.old_head()) == self.held_len() + self.len(),
            self.held_len() == 0 <==> self.new_head() == self.old_head(),
            self.len() == 0 <==> self.tail() == self.new_head(),
            self@.wf(),
            self@.capacity == self.mask + 1,
            self@.head == self.old_head(),
            self@.held.len() == self.held_len(),
            self@.items.len() == self.len(),
    {
        lemma_shape(slots(self.buffer@), self.old_head(), self.held_len(), self.len());
        reveal(low);
        lemma_wrap_range(self.old_head());
        lemma_wrap_between(self.old_head(), 0, self.held_len() + self.len());
        lemma_wrap_range(0);
        lemma_wrap_range(self.new_head());
        lemma_wrap_range(
            padded_short(self.push_count) - high(padded_long(self.pop_count_and_head)),
        );
        lemma_wrap_distance(self.old_head(), self.new_head());
        lemma_wrap_distance(self.new_head(), self.tail());
        lemma_wrap_add(self.old_head() + self.held_len(), self.len());
    }

    /// The sizes of a queue with the given positions.
    proof fn lemma_sizes(self, head: int, held_len: int, len: int)
        requires
            self.old_head() == wrap(head),
            self.new_head() == wrap(head + held_len),
            self.tail() == wrap(head + held_len + len),
            0 <= held_len,
            0 <= len,
            held_len + len <= 0x8000_0000,
        ensures
            self.held_len() == held_len,
            self.len() == len,
    {
        lemma_wrap_between(head, 0, held_len);
        lemma_wrap_between(head, held_len, held_len + len);
    }

    /// The tail moves along with the push count and against the pop count.
    proof fn lemma_tail(self, before: Self, pushed: int, popped: int)
        requires
            padded_short(self.push_count) == wrap(padded_short(before.push_count) + pushed),
            high(padded_long(self.pop_count_and_head)) == wrap(
                high(padded_long(before.pop_count_and_head)) + popped,
            ),
        ensures
            self.tail() == wrap(before.tail() + pushed - popped),
    {
        reveal(wrap);
    }

    /// The counts are positions.
    proof fn lemma_pop_count(self)
        ensures
            high(padded_long(self.pop_count_and_head)) == wrap(
                high(padded_long(self.pop_count_and_head)),
            ),
            padded_short(self.push_count) == wrap(padded_short(self.push_count) as int),
    {
        reveal(high);
        reveal(wrap);
    }

    /// The push count that leads to a tail.
    proof fn lemma_push_count(self, tail: int, pop_count: int)
        requires
            padded_short(self.push_count) == wrap(tail + pop_count),
            high(padded_long(self.pop_count_and_head)) == pop_count,
            0 <= tail < 0x1_0000_0000,
        ensures
            self.tail() == tail,
    {
        reveal(wrap);
    }

    /// Creates a new queue.
    pub fn new(min_capacity: usize) -> (queue: Self)
        requires
            min_capacity <= MAX_CAPACITY,
        ensures
            queue.wf(),
            queue@ == QueueView::<T>::created(capacity_for(min_capacity as nat)),
    {
        let capacity: usize = next_power_of_two(min_capacity);
        proof {
            lemma_capacity_bounds(capacity as int);
        }
        Self::from_buffer(allocate_buffer(capacity), (capacity - 1) as UnsignedShort)
    }

    /// Creates a new queue with a buffer of fixed size.
    pub fn with_buffer<B: Buffer<T>>() -> (queue: Self)
        ensures
            queue.wf(),
            queue@ == QueueView::<T>::created(B::size()),
    {
        proof {
            B::size_is_capacity();
        }
        Self::from_buffer(B::allocate(), B::MASK)
    }

    /// Creates a new queue with a buffer of empty slots.
    fn from_buffer(buffer: Vec<UnsafeCell<Option<T>>>, mask: UnsignedShort) -> (queue: Self)
        requires
            buffer@.len() == mask + 1,
            is_capacity(mask + 1),
            forall|i: int| 0 <= i < buffer@.len() ==> (#[trigger] buffer@[i])@ is None,
        ensures
            queue.wf(),
            queue@ == QueueView::<T>::created((mask + 1) as nat),
    {
        proof {
            lemma_capacity_bounds(mask + 1);
            lemma_created(slots(buffer@));
        }
        let queue: Self = Queue {
            push_count: pad_short(0),
            pop_count_and_head: pad_long(0),
            head: pad_short(0),
            buffer,
            mask,
        };
        proof {
            reveal(high);
            reveal(low);
            lemma_wrap_range(0);
        }
        queue
    }

    /// Capacity of the queue.
    pub fn capacity(&self) -> (capacity: UnsignedShort)
        requires
            self.wf(),
        ensures
            capacity == self@.capacity,
    {
        proof {
            self.lemma_shape();
        }
        self.mask.wrapping_add(1)
    }

    /// Returns the number of items that can be pushed onto the queue.
    pub fn spare_capacity(&self) -> (spare: UnsignedShort)
        requires
            self.wf(),
        ensures
            spare == self@.spare(),
    {
        proof {
            self.lemma_shape();
        }
        spare_step(
            load_short(&self.push_count),
            load_long(&self.pop_count_and_head),
            load_short(&self.head),
            self.capacity(),
        )
    }

    /// Returns true if no item is available.
    pub fn is_empty(&self) -> (empty: bool)
        requires
            self.wf(),
        ensures
            empty == (self@.items.len() == 0),
    {
        proof {
            self.lemma_shape();
        }
        empty_step(load_long(&self.pop_count_and_head), load_short(&self.push_count))
    }

    /// Reads the item at the given position.
    ///
    /// The position is automatically mapped to a valid buffer index using a
    /// modulo operation.
    fn read_at(&mut self, position: UnsignedShort) -> (item: T)
        requires
            ring_wf(old(self).buffer@, old(self).mask),
            slots(old(self).buffer@)[position as int % (old(self).mask + 1)] is Some,
        ensures
            slots(old(self).buffer@)[position as int % (old(self).mask + 1)] == Some(item),
            slots(final(self).buffer@) == slots(old(self).buffer@).update(
                position as int % (old(self).mask + 1),
                None,
            ),
            ring_wf(final(self).buffer@, final(self).mask),
            final(self).push_count == old(self).push_count,
            final(self).pop_count_and_head == old(self).pop_count_and_head,
            final(self).head == old(self).head,
            final(self).mask == old(self).mask,
    {
        read_slot(&mut self.buffer, self.mask, position)
    }

    /// Writes an item at the given position.
    ///
    /// The position is automatically mapped to a valid buffer index using a
    /// modulo operation.
    fn write_at(&mut self, position: UnsignedShort, item: T)
        requires
            ring_wf(old(self).buffer@, old(self).mask),
        ensures
            slots(final(self).buffer@) == slots(old(self).buffer@).update(
                position as int % (old(self).mask + 1),
                Some(item),
            ),
            ring_wf(final(self).buffer@, final(self).mask),
            final(self).push_count == old(self).push_count,
            final(self).pop_count_and_head == old(self).pop_count_and_head,
            final(self).head == old(self).head,
            final(self).mask == old(self).mask,
    {
        write_slot(&mut self.buffer, self.mask, position, item);
    }

    /// Attempts to push one item at the tail of the queue.
    ///
    /// # Errors
    ///
    /// This will fail if the queue is full, in which case the item is returned
    /// as the error field.
    pub fn push(&mut self, item: T) -> (result: Result<(), T>)
        requires
            old(self).wf(),
        ensures
            final(self).wf(),
            result is Ok <==> old(self)@.spare() > 0,
            result is Ok ==> final(self)@ == old(self)@.push(item),
            result matches Err(returned) ==> returned == item && final(self)@ == old(self)@,
    {
        proof {
            self.lemma_shape();
        }
        match push_step(
            load_short(&self.push_count),
            load_long(&self.pop_count_and_head),
            load_short(&self.head),
            self.capacity(),
        ) {
            None => Err(item),
            Some((tail, next_push_count)) => {
                proof {
                    lemma_push(
                        slots(self.buffer@),
                        self.old_head(),
                        self.held_len(),
                        self.len(),
                        item,
                        tail as int,
                    );
                }
                // Store the item.
                self.write_at(tail, item);
                // Make the item visible by incrementing the push count.
                self.push_count = pad_short(next_push_count);
                proof {
                    let (head, held_len, len) = old(self).sizes();
                    old(self).lemma_pop_count();
                    self.lemma_tail(*old(self), 1, 0);
                    lemma_wrap_add(head + held_len + len, 1);
                    self.lemma_sizes(head, held_len, len + 1);
                }
                Ok(())
            },
        }
    }

    /// Attempts to pop one item from the tail of the queue.
    ///
    /// This returns None if the queue is empty.
    pub fn pop(&mut self) -> (popped: Option<T>)
        requires
            old(self).wf(),
        ensures
            final(self).wf(),
            popped is None <==> old(self)@.items.len() == 0,
            popped is None ==> final(self)@ == old(self)@,
            popped matches Some(item) ==> item == old(self)@.items.last() && final(self)@ == old(
                self,
            )@.pop_back(),
    {
        proof {
            self.lemma_shape();
        }
        match pop_step(load_long(&self.pop_count_and_head), load_short(&self.push_count)) {
            None => None,
            Some((position, next)) => {
                proof {
                    lemma_wrap_add(self.old_head() + self.held_len() + self.len(), -1);
                    lemma_pop_back(
                        slots(self.buffer@),
                        self.old_head(),
                        self.held_len(),
                        self.len(),
                        position as int,
                    );
                }
                self.pop_count_and_head = pad_long(next);
                let item: T = self.read_at(position);
                proof {
                    let (head, held_len, len) = old(self).sizes();
                    old(self).lemma_pop_count();
                    self.lemma_tail(*old(self), 0, 1);
                    self.lemma_sizes(head, held_len, len - 1);
                }
                Some(item)
            },
        }
    }

    /// Attempts to push the content of an iterator at the tail of the queue.
    ///
    /// It is the responsibility of the caller to ensure that there is enough
    /// spare capacity to accommodate all iterator items, for instance by
    /// calling [`Queue::spare_capacity`] beforehand. Otherwise, the iterator
    /// is dropped while still holding the items in excess.
    pub fn extend<I: Iterator<Item = T>>(&mut self, iter: I)
        requires
            old(self).wf(),
        ensures
            final(self).wf(),
            // The items are those that calls of `next` returned, from one state of the iterator
            // to the next. Unless there is no more room, the last call returned None.
            exists|taken: Seq<T>, states: Seq<I>|
                #![trigger taken.len(), states.len()]
                {
                    &&& taken.len() <= old(self)@.spare()
                    &&& states.len() == taken.len() + 1
                    &&& states[0] == iter
                    &&& forall|k: int|
                        #[trigger] is_index(taken, k) ==> exists|call: &mut I|
                            *call == states[k] && *final(call) == states[k + 1]
                                && #[trigger] call_ensures(I::next, (call,), Some(taken[k]))
                    &&& taken.len() < old(self)@.spare() ==> exists|call: &mut I|
                        *call == states.last() && #[trigger] call_ensures(
                            I::next,
                            (call,),
                            None::<T>,
                        )
                    &&& final(self)@ == old(self)@.append(taken)
                },
            iter.obeys_prophetic_iter_laws() ==> final(self)@ == old(self)@.append(
                iter.remaining().take(min(old(self)@.spare(), iter.remaining().len()) as int),
            ),
    {
        let mut iter: I = iter;
        self.extend_from(&mut iter);
    }

    /// Attempts to push the content of a borrowed iterator at the tail of the
    /// queue.
    ///
    /// Items in excess of the spare capacity are not taken: the iterator still
    /// holds them.
    pub fn extend_from<I: Iterator<Item = T>>(&mut self, iter: &mut I)
        requires
            old(self).wf(),
        ensures
            final(self).wf(),
            // The items are those that calls of `next` returned, from one state of the iterator
            // to the next. Unless there is no more room, the last call returned None.
            exists|taken: Seq<T>, states: Seq<I>|
                #![trigger taken.len(), states.len()]
                {
                    &&& taken.len() <= old(self)@.spare()
                    &&& states.len() == taken.len() + 1
                    &&& states[0] == *old(iter)
                    &&& forall|k: int|
                        #[trigger] is_index(taken, k) ==> exists|call: &mut I|
                            *call == states[k] && *final(call) == states[k + 1]
                                && #[trigger] call_ensures(I::next, (call,), Some(taken[k]))
                    &&& if taken.len() < old(self)@.spare() {
                        exists|call: &mut I|
                            *call == states.last() && *final(call) == *final(iter)
                                && #[trigger] call_ensures(I::next, (call,), None::<T>)
                    } else {
                        *final(iter) == states.last()
                    }
                    &&& final(self)@ == old(self)@.append(taken)
                },
            (*final(iter)).obeys_prophetic_iter_laws() == (*old(
                iter,
            )).obeys_prophetic_iter_laws(),
            (*old(iter)).obeys_prophetic_iter_laws() ==> {
                let all = (*old(iter)).remaining();
                let m = min(old(self)@.spare(), all.len()) as int;
                &&& final(self)@ == old(self)@.append(all.take(m))
                &&& (*final(iter)).remaining() == all.skip(m)
            },
    {
        proof {
            self.lemma_shape();
        }
        let ghost head = self.old_head();
        let ghost held_len = self.held_len();
        let ghost len = self.len();
        let ghost cap = self.mask + 1;
        let ghost mut taken: Seq<T> = Seq::empty();
        // The iterator before each call of `next` that returned an item, and now.
        let ghost mut states: Seq<I> = seq![*iter];
        let push_count: UnsignedShort = load_short(&self.push_count);
        let pop_count: UnsignedShort = unpack(load_long(&self.pop_count_and_head)).0;
        let mut tail: UnsignedShort = distance(pop_count, push_count);
        let max_tail: UnsignedShort = advance(load_short(&self.head), self.capacity());
        let ghost all = (*iter).remaining();
        let ghost obeys = (*iter).obeys_prophetic_iter_laws();
        proof {
            assert(old(self)@.append(taken) =~= old(self)@);
        }
        loop
            invariant_except_break
                obeys ==> taken.len() <= all.len() && taken == all.take(taken.len() as int)
                    && (*iter).remaining() == all.skip(taken.len() as int),
                states.last() == *iter,
            invariant
                cap == self.mask + 1,
                1 <= cap <= 0x8000_0000,
                self.push_count == old(self).push_count,
                self.pop_count_and_head == old(self).pop_count_and_head,
                self.head == old(self).head,
                head == self.old_head(),
                held_len == self.held_len(),
                len == self.len(),
                max_tail == wrap(head + cap),
                tail == wrap(head + held_len + len + taken.len()),
                ring_wf(self.buffer@, self.mask),
                queue_wf(slots(self.buffer@), head, held_len, len + taken.len()),
                queue_view(slots(self.buffer@), head, held_len, len + taken.len()) == old(
                    self,
                )@.append(taken),
                old(self)@.spare() == cap - held_len - len,
                (*iter).obeys_prophetic_iter_laws() == obeys,
                taken.len() <= old(self)@.spare(),
                states.len() == taken.len() + 1,
                states[0] == *old(iter),
                forall|k: int|
                    #[trigger] is_index(taken, k) ==> exists|call: &mut I|
                        *call == states[k] && *final(call) == states[k + 1]
                            && #[trigger] call_ensures(I::next, (call,), Some(taken[k])),
            ensures
                if taken.len() < old(self)@.spare() {
                    exists|call: &mut I|
                        *call == states.last() && *final(call) == *iter
                            && #[trigger] call_ensures(I::next, (call,), None::<T>)
                } else {
                    *iter == states.last()
                },
                obeys ==> taken == all.take(min(old(self)@.spare(), all.len()) as int)
                    && (*iter).remaining() == all.skip(min(old(self)@.spare(), all.len()) as int),
            decreases cap - held_len - len - taken.len(),
        {
            proof {
                lemma_shape(slots(self.buffer@), head, held_len, (len + taken.len()) as int);
            }
            // Check whether the buffer is full.
            proof {
                lemma_wrap_between(head, held_len + len + taken.len(), cap);
                lemma_wrap_range(0);
            }
            if tail == max_tail {
                break;
            }
            let ghost before = *iter;
            match iter.next() {
                None => {
                    break;
                },
                Some(item) => {
                    proof {
                        lemma_push(
                            slots(self.buffer@),
                            head,
                            held_len,
                            len + taken.len(),
                            item,
                            tail as int,
                        );
                        assert(old(self)@.append(taken).push(item) =~= old(self)@.append(
                            taken.push(item),
                        ));
                        if obeys {
                            assert(taken.push(item) =~= all.take((taken.len() + 1) as int));
                        }
                        assert(exists|call: &mut I|
                            *call == before && *final(call) == *iter
                                && #[trigger] call_ensures(I::next, (call,), Some(item)));
                        assert forall|k: int|
                            #[trigger] is_index(taken.push(item), k) implies exists|call: &mut I|
                            *call == states.push(*iter)[k] && *final(call) == states.push(
                                *iter,
                            )[k + 1]
                                && #[trigger] call_ensures(
                                I::next,
                                (call,),
                                Some(taken.push(item)[k]),
                            ) by {
                            if k < taken.len() {
                                assert(is_index(taken, k));
                                let call = choose|call: &mut I|
                                    *call == states[k] && *final(call) == states[k + 1]
                                        && #[trigger] call_ensures(
                                        I::next,
                                        (call,),
                                        Some(taken[k]),
                                    );
                                assert(call_ensures(I::next, (call,), Some(taken.push(item)[k])));
                            } else {
                                let call = choose|call: &mut I|
                                    *call == before && *final(call) == *iter
                                        && #[trigger] call_ensures(I::next, (call,), Some(item));
                                assert(call_ensures(I::next, (call,), Some(taken.push(item)[k])));
                            }
                        }
                        taken = taken.push(item);
                        states = states.push(*iter);
                    }
                    // Store the item.
                    self.write_at(tail, item);
                    tail = advance(tail, 1);
                    proof {
                        lemma_wrap_add(head + held_len + len + (taken.len() - 1), 1);
                    }
                },
            }
        }
        // Make the items visible by incrementing the push count.
        self.push_count = pad_short(advance(tail, pop_count));
        proof {
            lemma_shape(slots(self.buffer@), head, held_len, len + taken.len());
            self.lemma_push_count(tail as int, pop_count as int);
            lemma_wrap_range(head);
            self.lemma_sizes(head, held_len, (len + taken.len()) as int);
        }
    }

    /// Attempts to book `N` items for stealing where `N` is specified by a
    /// closure which takes as argument the total count of available items.
    ///
    /// In case of success, the returned triplet is the *current* head, the
    /// *next* head and an item count at least equal to 1.
    ///
    /// # Errors
    ///
    /// An error is returned in the following cases:
    /// 1) no item could be stolen, either because the queue is empty or because
    ///    `N` is 0,
    /// 2) a concurrent stealing operation is ongoing.
    pub fn book_items<C: FnMut(usize) -> usize>(
        &mut self,
        count_fn: C,
        max_count: UnsignedShort,
    ) -> (result: Result<(UnsignedShort, UnsignedShort, UnsignedShort), StealError>)
        requires
            old(self).wf(),
            old(self)@.can_ask(count_fn),
        ensures
            final(self).wf(),
            exists|wanted: usize| #[trigger]
                old(self)@.asked(count_fn, wanted) && match old(self)@.booking(
                    wanted as nat,
                    max_count as nat,
                ) {
                    Ok(count) => {
                        &&& result matches Ok((position, end, booked))
                        &&& position == old(self)@.head
                        &&& end == wrap(old(self)@.head + count)
                        &&& booked == count
                        &&& final(self)@ == old(self)@.book(count as int)
                    },
                    Err(e) => {
                        &&& result == Err::<(UnsignedShort, UnsignedShort, UnsignedShort), StealError>(
                            e,
                        )
                        &&& final(self)@ == old(self)@
                    },
                },
    {
        proof {
            self.lemma_shape();
        }
        let step: Result<Booking, StealError> = book_step(
            load_short(&self.head),
            load_long(&self.pop_count_and_head),
            load_short(&self.push_count),
            count_fn,
            max_count,
        );
        let ghost ready = !self@.busy() && self@.items.len() > 0;
        let ghost wanted: usize = if ready {
            choose|wanted: usize| #[trigger]
                count_fn.ensures((self.len() as usize,), wanted) && booked(
                    padded_long(self.pop_count_and_head),
                    steal_count(wanted as nat, max_count as nat, self.len() as nat),
                    step,
                )
        } else {
            0
        };
        proof {
            assert(self@.asked(count_fn, wanted));
        }
        match step {
            Ok(booking) => {
                proof {
                    self.lemma_shape();
                    lemma_book(
                        slots(self.buffer@),
                        self.old_head(),
                        self.len(),
                        booking.count as int,
                    );
                }
                self.pop_count_and_head = pad_long(booking.next);
                proof {
                    old(self).lemma_pop_count();
                    self.lemma_tail(*old(self), 0, 0);
                    let (head, _, len) = old(self).sizes();
                    self.lemma_sizes(head, booking.count as int, len - booking.count);
                }
                Ok((booking.head, booking.new_head, booking.count))
            },
            Err(e) => Err(e),
        }
    }

    /// Moves the item out of the held slot at a position.
    pub fn move_out(&mut self, position: UnsignedShort) -> (item: T)
        requires
            old(self).wf(),
            wrap(position - old(self)@.head) < old(self)@.held.len(),
            old(self)@.held[wrap(position - old(self)@.head)] is Some,
        ensures
            final(self).wf(),
            old(self)@.held[wrap(position - old(self)@.head)] == Some(item),
            final(self)@ == old(self)@.move_out(wrap(position - old(self)@.head)),
    {
        proof {
            self.lemma_shape();
            lemma_wrap_range(position - self.old_head());
            lemma_wrap_distance(self.old_head(), position as int);
            lemma_move_out(
                slots(self.buffer@),
                self.old_head(),
                self.held_len(),
                self.len(),
                wrap(position - self.old_head()),
                position as int,
            );
        }
        self.read_at(position)
    }

    /// Signals that the stealing operation has completed.
    pub fn complete(&mut self)
        requires
            old(self).wf(),
            old(self)@.moved_out(),
        ensures
            final(self).wf(),
            final(self)@ == old(self)@.complete(),
    {
        proof {
            self.lemma_shape();
            lemma_complete(
                slots(self.buffer@),
                self.old_head(),
                self.held_len(),
                self.len(),
            );
        }
        // Update the head position.
        self.head = pad_short(unpack(load_long(&self.pop_count_and_head)).1);
        proof {
            let (head, held_len, len) = old(self).sizes();
            self.lemma_sizes(head + held_len, 0, len);
        }
    }

    /// Moves the `count` oldest held items to the tail of another queue.
    pub fn transfer(&mut self, dest: &mut Queue<T>, count: UnsignedShort)
        requires
            old(self).wf(),
            old(dest).wf(),
            old(self)@.holds(count as nat),
            count <= old(dest)@.spare(),
        ensures
            final(self).wf(),
            final(dest).wf(),
            final(self)@ == old(self)@.vacate(count as nat),
            final(dest)@ == old(dest)@.append(old(self)@.held_items(count as nat)),
    {
        proof {
            self.lemma_shape();
            dest.lemma_shape();
        }
        let old_head: UnsignedShort = load_short(&self.head);
        let dest_push_count: UnsignedShort = load_short(&dest.push_count);
        let dest_pop_count: UnsignedShort = unpack(load_long(&dest.pop_count_and_head)).0;
        let dest_tail: UnsignedShort = distance(dest_pop_count, dest_push_count);
        let ghost src_turn = turn(slots(self.buffer@), self.old_head());
        proof {
            lemma_held_turn(
                slots(self.buffer@),
                self.old_head(),
                self.held_len(),
                self.len(),
                count as nat,
            );
        }
        transfer_items(
            &mut self.buffer,
            self.mask,
            old_head,
            &mut dest.buffer,
            dest.mask,
            dest_tail,
            count,
        );
        proof {
            lemma_vacate(
                slots(old(self).buffer@),
                slots(self.buffer@),
                self.old_head(),
                self.held_len(),
                self.len(),
                count as nat,
            );
            lemma_receive(
                slots(old(dest).buffer@),
                slots(dest.buffer@),
                dest.old_head(),
                dest.held_len(),
                dest.len(),
                dest_tail as int,
                src_turn,
                count as nat,
            );
        }
        // Make the moved items visible by updating the destination tail position.
        dest.push_count = pad_short(advance(dest_push_count, count));
        proof {
            old(dest).lemma_pop_count();
            dest.lemma_tail(*old(dest), count as int, 0);
            let (head, held_len, len) = old(dest).sizes();
            lemma_wrap_add(head + held_len + len, count as int);
            dest.lemma_sizes(head, held_len, len + count);
        }
    }

    /// Moves the `count` oldest held items to the tail of the same queue.
    pub fn transfer_within(&mut self, count: UnsignedShort)
        requires
            old(self).wf(),
            old(self)@.holds(count as nat),
            count <= old(self)@.spare(),
        ensures
            final(self).wf(),
            final(self)@ == old(self)@.vacate(count as nat).append(
                old(self)@.held_items(count as nat),
            ),
    {
        proof {
            self.lemma_shape();
        }
        let old_head: UnsignedShort = load_short(&self.head);
        let push_count: UnsignedShort = load_short(&self.push_count);
        let pop_count: UnsignedShort = unpack(load_long(&self.pop_count_and_head)).0;
        let tail: UnsignedShort = distance(pop_count, push_count);
        transfer_items_within(&mut self.buffer, self.mask, old_head, tail, count);
        proof {
            lemma_relocate(
                slots(old(self).buffer@),
                slots(self.buffer@),
                self.old_head(),
                self.held_len(),
                self.len(),
                count as nat,
            );
        }
        // Make the moved items visible by updating the tail position.
        self.push_count = pad_short(advance(push_count, count));
        proof {
            old(self).lemma_pop_count();
            self.lemma_tail(*old(self), count as int, 0);
            let (head, held_len, len) = old(self).sizes();
            lemma_wrap_add(head + held_len + len, count as int);
            self.lemma_sizes(head, held_len, len + count);
        }
    }

    /// Takes the queue apart and returns the items that are left in it, oldest first.
    ///
    /// These are the items that are dropped with the queue: each of them once, and
    /// none that was popped or booked for stealing before.
    pub fn drop(self) -> (left: Vec<T>)
        requires
            self.wf(),
        ensures
            left@ == self@.items,
    {
        proof {
            self.lemma_shape();
            lemma_items(slots(self.buffer@), self.old_head(), self.held_len(), self.len());
        }
        let ghost cap = self.mask + 1;
        let (head, count): (UnsignedShort, UnsignedShort) = drop_step(
            load_long(&self.pop_count_and_head),
            load_short(&self.push_count),
        );
        let mut queue: Self = self;
        let mut left: Vec<T> = Vec::new();
        let mut offset: UnsignedShort = 0;
        while offset < count
            invariant
                offset <= count,
                count == self@.items.len(),
                count <= cap,
                cap == queue.mask + 1,
                ring_wf(queue.buffer@, queue.mask),
                left@ == self@.items.take(offset as int),
                forall|k: int|
                    offset <= k < count ==> slots(queue.buffer@)[wrap(head + k) % cap] == Some(
                        #[trigger] self@.items[k],
                    ),
            decreases count - offset,
        {
            let ghost before = slots(queue.buffer@);
            assert(before[wrap(head + offset) % cap] == Some(self@.items[offset as int]));
            let item: T = queue.read_at(advance(head, offset));
            left.push(item);
            proof {
                assert forall|k: int| offset + 1 <= k < count implies slots(
                    queue.buffer@,
                )[wrap(head + k) % cap] == Some(#[trigger] self@.items[k]) by {
                    lemma_wrap_slot(head + offset, cap);
                    lemma_wrap_slot(head + k, cap);
                    lemma_slot_kept(before, head + offset, None, head as int, head + k);
                }
                assert(self@.items.take(offset + 1) =~= self@.items.take(offset as int).push(
                    self@.items[offset as int],
                ));
            }
            offset = offset + 1;
        }
        assert(self@.items.take(count as int) =~= self@.items);
        left
    }
}

/// The queues of a set of workers.
///
/// [`Worker`] and [`Stealer`] are handles of a queue in a pool. Each operation
/// is given the pool that holds the queues it works on. The lifetime `'id` stands
/// for one pool: it is different for each pool that [`with_pool`] makes, so that a
/// handle fits the pool of its queue only, and handles of two pools never meet.
#[derive(Debug)]
pub struct Pool<'id, T> {
    queues: Vec<Queue<T>>,
    _pool: PhantomData<&'id mut &'id ()>,
}

impl<'id, T> Pool<'id, T> {
    /// The invariant of the pool.
    pub closed spec fn wf(self) -> bool {
        forall|i: int| 0 <= i < self.queues@.len() ==> (#[trigger] self.queues@[i]).wf()
    }

    /// The contents of the queues.
    pub closed spec fn view(self) -> Seq<QueueView<T>> {
        self.queues@.map_values(|queue: Queue<T>| queue@)
    }

    /// Moves the `count` oldest held items of a queue to the tail of another
    /// queue or of the same.
    fn transfer(&mut self, src: usize, dest: usize, count: UnsignedShort)
        requires
            old(self).wf(),
            src < old(self)@.len(),
            dest < old(self)@.len(),
            old(self)@[src as int].holds(count as nat),
            count <= old(self)@[dest as int].spare(),
        ensures
            final(self).wf(),
            final(self)@ == transferred(old(self)@, src as int, dest as int, count as nat),
    {
        if src == dest {
            self.queues[src].transfer_within(count);
        } else if src < dest {
            let (left, right): (&mut [Queue<T>], &mut [Queue<T>]) =
                self.queues.as_mut_slice().split_at_mut(dest);
            left[src].transfer(&mut right[0], count);
        } else {
            let (left, right): (&mut [Queue<T>], &mut [Queue<T>]) =
                self.queues.as_mut_slice().split_at_mut(src);
            right[0].transfer(&mut left[dest], count);
        }
        proof {
            assert(self@ =~= transferred(old(self)@, src as int, dest as int, count as nat));
        }
    }

    /// Books items of a queue for stealing.
    fn book_items<C: FnMut(usize) -> usize>(
        &mut self,
        id: usize,
        count_fn: C,
        max_count: UnsignedShort,
    ) -> (result: Result<(UnsignedShort, UnsignedShort, UnsignedShort), StealError>)
        requires
            old(self).wf(),
            id < old(self)@.len(),
            old(self)@[id as int].can_ask(count_fn),
        ensures
            final(self).wf(),
            exists|wanted: usize| #[trigger]
                old(self)@[id as int].asked(count_fn, wanted) && match old(
                    self,
                )@[id as int].booking(wanted as nat, max_count as nat) {
                    Ok(count) => {
                        &&& result matches Ok((position, end, booked))
                        &&& position == old(self)@[id as int].head
                        &&& end == wrap(old(self)@[id as int].head + count)
                        &&& booked == count
                        &&& final(self)@ == old(self)@.update(
                            id as int,
                            old(self)@[id as int].book(count as int),
                        )
                    },
                    Err(e) => {
                        &&& result == Err::<(UnsignedShort, UnsignedShort, UnsignedShort), StealError>(
                            e,
                        )
                        &&& final(self)@ == old(self)@
                    },
                },
    {
        let result: Result<(UnsignedShort, UnsignedShort, UnsignedShort), StealError> =
            self.queues[id].book_items(count_fn, max_count);
        proof {
            assert(self@ =~= old(self)@.update(id as int, self@[id as int]));
        }
        result
    }

    /// Moves the item out of the held slot of a queue at a position.
    fn move_out(&mut self, id: usize, position: UnsignedShort) -> (item: T)
        requires
            old(self).wf(),
            id < old(self)@.len(),
            wrap(position - old(self)@[id as int].head) < old(self)@[id as int].held.len(),
            old(self)@[id as int].held[wrap(position - old(self)@[id as int].head)] is Some,
        ensures
            final(self).wf(),
            ({
                let queue = old(self)@[id as int];
                let k = wrap(position - queue.head);
                &&& queue.held[k] == Some(item)
                &&& final(self)@ == old(self)@.update(id as int, queue.move_out(k))
            }),
    {
        let item: T = self.queues[id].move_out(position);
        proof {
            assert(self@ =~= old(self)@.update(id as int, self@[id as int]));
        }
        item
    }

    /// Signals that the stealing operation of a queue has completed.
    fn complete(&mut self, id: usize)
        requires
            old(self).wf(),
            id < old(self)@.len(),
            old(self)@[id as int].moved_out(),
        ensures
            final(self).wf(),
            final(self)@ == old(self)@.update(id as int, old(self)@[id as int].complete()),
    {
        self.queues[id].complete();
        proof {
            assert(self@ =~= old(self)@.update(id as int, self@[id as int]));
        }
    }

    /// Every queue of a pool is within its capacity, which is a power of two.
    pub proof fn queues_are_well_formed(self)
        requires
            self.wf(),
        ensures
            forall|i: int|
                0 <= i < self@.len() ==> (#[trigger] self@[i]).wf() && self@[i].capacity
                    <= 0x8000_0000,
    {
        assert forall|i: int| 0 <= i < self@.len() implies (#[trigger] self@[i]).wf()
            && self@[i].capacity <= 0x8000_0000 by {
            self.queues@[i].lemma_shape();
        }
    }
}

/// Calls `f` with a pool without queues and returns what it returns.
pub fn with_pool<T, R, F: for<'id> FnOnce(Pool<'id, T>) -> R>(f: F) -> (r: R)
    requires
        forall|pool: Pool<T>|
            pool.wf() && pool@ == Seq::<QueueView<T>>::empty() ==> #[trigger] f.requires((pool,)),
    ensures
        exists|pool: Pool<T>|
            pool.wf() && pool@ == Seq::<QueueView<T>>::empty() && #[trigger] f.ensures((pool,), r),
{
    let pool: Pool<T> = Pool { queues: Vec::new(), _pool: PhantomData };
    proof {
        assert(pool@ =~= Seq::<QueueView<T>>::empty());
    }
    f(pool)
}

/// Handle for single-threaded LIFO push and pop operations.
#[derive(Debug)]
pub struct Worker<'id, T> {
    stealer: Stealer<'id, T>,
}

impl<'id, T> Worker<'id, T> {
    /// The index of the queue in its pool.
    pub closed spec fn id(&self) -> int {
        self.stealer.id()
    }

    /// The index of a queue is not negative.
    pub proof fn id_is_an_index(&self)
        ensures
            0 <= self.id(),
    {
    }

    /// Creates a new queue and returns a `Worker` handle.
    ///
    /// **The capacity of a queue is always a power of two**. It is set to the
    /// smallest power of two greater than or equal to the requested minimum
    /// capacity, which cannot be greater than 2^31.
    pub fn new(pool: &mut Pool<'id, T>, min_capacity: usize) -> (worker: Self)
        requires
            old(pool).wf(),
            min_capacity <= MAX_CAPACITY,
        ensures
            final(pool).wf(),
            worker.id() == old(pool)@.len(),
            final(pool)@ == old(pool)@.push(
                QueueView::<T>::created(capacity_for(min_capacity as nat)),
            ),
    {
        let id: usize = pool.queues.len();
        pool.queues.push(Queue::new(min_capacity));
        proof {
            assert(pool@ =~= old(pool)@.push(
                QueueView::<T>::created(capacity_for(min_capacity as nat)),
            ));
        }
        Worker { stealer: Stealer { id, _pool: PhantomData, _phantom: PhantomData } }
    }

    /// Creates a new queue with a buffer of fixed size and returns a `Worker`
    /// handle.
    pub fn with_buffer<B: Buffer<T>>(pool: &mut Pool<'id, T>) -> (worker: Self)
        requires
            old(pool).wf(),
        ensures
            final(pool).wf(),
            worker.id() == old(pool)@.len(),
            final(pool)@ == old(pool)@.push(QueueView::<T>::created(B::size())),
    {
        let id: usize = pool.queues.len();
        pool.queues.push(Queue::with_buffer::<B>());
        proof {
            assert(pool@ =~= old(pool)@.push(QueueView::<T>::created(B::size())));
        }
        Worker { stealer: Stealer { id, _pool: PhantomData, _phantom: PhantomData } }
    }

    /// Creates a new `Stealer` handle associated to this `Worker`.
    ///
    /// An arbitrary number of `Stealer` handles can be created, either using
    /// this method or cloning an existing `Stealer` handle.
    pub fn stealer(&self) -> (stealer: Stealer<'id, T>)
        ensures
            stealer.id() == self.id(),
    {
        self.stealer.clone()
    }

    /// Returns a reference to the `Stealer` handle associated to this `Worker`.
    pub fn stealer_ref(&self) -> (stealer: &Stealer<'id, T>)
        ensures
            stealer.id() == self.id(),
    {
        &self.stealer
    }

    /// Returns the capacity of the queue.
    pub fn capacity(&self, pool: &Pool<'id, T>) -> (capacity: usize)
        requires
            pool.wf(),
            self.id() < pool@.len(),
        ensures
            capacity == pool@[self.id()].capacity,
    {
        pool.queues[self.stealer.id].capacity() as usize
    }

    /// Returns the number of items that can be successfully pushed onto the
    /// queue.
    ///
    /// Items that are being stolen still take up capacity.
    pub fn spare_capacity(&self, pool: &Pool<'id, T>) -> (spare: usize)
        requires
            pool.wf(),
            self.id() < pool@.len(),
        ensures
            spare == pool@[self.id()].spare(),
    {
        pool.queues[self.stealer.id].spare_capacity() as usize
    }

    /// Returns true if the queue is empty.
    ///
    /// If `is_empty()` returns true, a subsequent call to `pop()` will fail.
    pub fn is_empty(&self, pool: &Pool<'id, T>) -> (empty: bool)
        requires
            pool.wf(),
            self.id() < pool@.len(),
        ensures
            empty == (pool@[self.id()].items.len() == 0),
    {
        pool.queues[self.stealer.id].is_empty()
    }

    /// Attempts to push one item at the tail of the queue.
    ///
    /// # Errors
    ///
    /// This will fail if the queue is full, in which case the item is returned
    /// as the error field.
    pub fn push(&self, pool: &mut Pool<'id, T>, item: T) -> (result: Result<(), T>)
        requires
            old(pool).wf(),
            self.id() < old(pool)@.len(),
        ensures
            final(pool).wf(),
            result is Ok <==> old(pool)@[self.id()].spare() > 0,
            result is Ok ==> final(pool)@ == old(pool)@.update(
                self.id(),
                old(pool)@[self.id()].push(item),
            ),
            result matches Err(returned) ==> returned == item && final(pool)@ == old(pool)@,
    {
        let result: Result<(), T> = pool.queues[self.stealer.id].push(item);
        proof {
            assert(pool@ =~= old(pool)@.update(self.id(), pool@[self.id()]));
        }
        result
    }

    /// Attempts to push the content of an iterator at the tail of the queue.
    ///
    /// It is the responsibility of the caller to ensure that there is enough
    /// spare capacity to accommodate all iterator items, for instance by
    /// calling [`Worker::spare_capacity`] beforehand. Otherwise, the iterator
    /// is dropped while still holding the items in excess.
    pub fn extend<I: Iterator<Item = T>>(&self, pool: &mut Pool<'id, T>, iter: I)
        requires
            old(pool).wf(),
            self.id() < old(pool)@.len(),
        ensures
            final(pool).wf(),
            // The items are those that calls of `next` returned, from one state of the iterator
            // to the next. Unless there is no more room, the last call returned None.
            exists|taken: Seq<T>, states: Seq<I>|
                #![trigger taken.len(), states.len()]
                {
                    &&& taken.len() <= old(pool)@[self.id()].spare()
                    &&& states.len() == taken.len() + 1
                    &&& states[0] == iter
                    &&& forall|k: int|
                        #[trigger] is_index(taken, k) ==> exists|call: &mut I|
                            *call == states[k] && *final(call) == states[k + 1]
                                && #[trigger] call_ensures(I::next, (call,), Some(taken[k]))
                    &&& taken.len() < old(pool)@[self.id()].spare() ==> exists|call: &mut I|
                        *call == states.last() && #[trigger] call_ensures(
                            I::next,
                            (call,),
                            None::<T>,
                        )
                    &&& final(pool)@ == old(pool)@.update(
                        self.id(),
                        old(pool)@[self.id()].append(taken),
                    )
                },
            iter.obeys_prophetic_iter_laws() ==> final(pool)@ == old(pool)@.update(
                self.id(),
                old(pool)@[self.id()].append(
                    iter.remaining().take(
                        min(old(pool)@[self.id()].spare(), iter.remaining().len()) as int,
                    ),
                ),
            ),
    {
        let mut iter: I = iter;
        self.extend_from(pool, &mut iter);
    }

    /// Attempts to push the content of a borrowed iterator at the tail of the
    /// queue.
    ///
    /// Items in excess of the spare capacity are not taken: the iterator still
    /// holds them.
    pub fn extend_from<I: Iterator<Item = T>>(&self, pool: &mut Pool<'id, T>, iter: &mut I)
        requires
            old(pool).wf(),
            self.id() < old(pool)@.len(),
        ensures
            final(pool).wf(),
            // The items are those that calls of `next` returned, from one state of the iterator
            // to the next. Unless there is no more room, the last call returned None.
            exists|taken: Seq<T>, states: Seq<I>|
                #![trigger taken.len(), states.len()]
                {
                    &&& taken.len() <= old(pool)@[self.id()].spare()
                    &&& states.len() == taken.len() + 1
                    &&& states[0] == *old(iter)
                    &&& forall|k: int|
                        #[trigger] is_index(taken, k) ==> exists|call: &mut I|
                            *call == states[k] && *final(call) == states[k + 1]
                                && #[trigger] call_ensures(I::next, (call,), Some(taken[k]))
                    &&& if taken.len() < old(pool)@[self.id()].spare() {
                        exists|call: &mut I|
                            *call == states.last() && *final(call) == *final(iter)
                                && #[trigger] call_ensures(I::next, (call,), None::<T>)
                    } else {
                        *final(iter) == states.last()
                    }
                    &&& final(pool)@ == old(pool)@.update(
                        self.id(),
                        old(pool)@[self.id()].append(taken),
                    )
                },
            (*final(iter)).obeys_prophetic_iter_laws() == (*old(
                iter,
            )).obeys_prophetic_iter_laws(),
            (*old(iter)).obeys_prophetic_iter_laws() ==> {
                let all = (*old(iter)).remaining();
                let m = min(old(pool)@[self.id()].spare(), all.len()) as int;
                &&& final(pool)@ == old(pool)@.update(
                    self.id(),
                    old(pool)@[self.id()].append(all.take(m)),
                )
                &&& (*final(iter)).remaining() == all.skip(m)
            },
    {
        pool.queues[self.stealer.id].extend_from(iter);
        proof {
            assert(pool@ =~= old(pool)@.update(self.id(), pool@[self.id()]));
        }
    }

    /// Attempts to pop one item from the tail of the queue.
    ///
    /// This returns None if the queue is empty.
    pub fn pop(&self, pool: &mut Pool<'id, T>) -> (popped: Option<T>)
        requires
            old(pool).wf(),
            self.id() < old(pool)@.len(),
        ensures
            final(pool).wf(),
            popped is None <==> old(pool)@[self.id()].items.len() == 0,
            popped is None ==> final(pool)@ == old(pool)@,
            popped matches Some(item) ==> {
                &&& item == old(pool)@[self.id()].items.last()
                &&& final(pool)@ == old(pool)@.update(
                    self.id(),
                    old(pool)@[self.id()].pop_back(),
                )
            },
    {
        let popped: Option<T> = pool.queues[self.stealer.id].pop();
        proof {
            assert(pool@ =~= old(pool)@.update(self.id(), pool@[self.id()]));
        }
        popped
    }

    /// Whether a drain of the `count` oldest items has just started, in a pool that
    /// held the given queues before.
    pub open spec fn drains(
        &self,
        queues: Seq<QueueView<T>>,
        count: nat,
        pool: Pool<'id, T>,
        drain: Drain<'id, T>,
    ) -> bool {
        &&& pool.wf()
        &&& pool@ == queues.update(self.id(), queues[self.id()].book(count as int))
        &&& drain.id() == self.id()
        &&& drain.valid(pool@)
        &&& drain.remaining(pool@) == queues[self.id()].items.take(count as int)
    }

    /// Whether a drain that asks `count_fn` how many items to steal can have started
    /// this way.
    pub open spec fn can_drain<C: FnMut(usize) -> usize>(
        &self,
        queues: Seq<QueueView<T>>,
        count_fn: C,
        pool: Pool<'id, T>,
        drain: Drain<'id, T>,
    ) -> bool {
        exists|wanted: usize| #[trigger]
            queues[self.id()].asked(count_fn, wanted) && {
                &&& queues[self.id()].booking(wanted as nat, u32::MAX as nat) matches Ok(count)
                &&& self.drains(queues, count, pool, drain)
            }
    }

    /// Steals items from the head of the queue, one by one: calls `f` with the pool
    /// and a handle that moves the items out, and returns what it returns.
    ///
    /// The handle steals up to `N` items, where `N` is specified by a closure which
    /// takes as argument the total count of items available for stealing. Upon
    /// success, the number of items ultimately stolen can be from 1 to `N`,
    /// depending on the number of available items. Items that `f` has not moved out
    /// are dropped when it returns, which ends the stealing operation.
    ///
    /// # Beware
    ///
    /// All items stolen by the handle should be moved out as soon as possible,
    /// because until then or until the handle is dropped, all other stealing
    /// operations on the queue will fail with [`StealError::Busy`].
    ///
    /// # Errors
    ///
    /// An error is returned, and `f` is not called, in the following cases:
    /// 1) no item was stolen, either because the queue is empty or `N` is 0,
    /// 2) a concurrent stealing operation is ongoing.
    pub fn drain<
        R,
        C: FnMut(usize) -> usize,
        F: FnOnce(&mut Pool<'id, T>, &mut Drain<'id, T>) -> R,
    >(&self, pool: &mut Pool<'id, T>, count_fn: C, f: F) -> (result: Result<R, StealError>)
        requires
            old(pool).wf(),
            self.id() < old(pool)@.len(),
            old(pool)@[self.id()].can_ask(count_fn),
            forall|p: &mut Pool<'id, T>, d: &mut Drain<'id, T>|
                self.can_drain(old(pool)@, count_fn, *p, *d) ==> #[trigger] f.requires((p, d)),
            forall|p: &mut Pool<'id, T>, d: &mut Drain<'id, T>, r: R|
                self.can_drain(old(pool)@, count_fn, *p, *d) && #[trigger] f.ensures((p, d), r)
                    ==> {
                    &&& (*final(p)).wf()
                    &&& (*final(d)).valid((*final(p))@)
                },
        ensures
            final(pool).wf(),
            exists|wanted: usize| #[trigger]
                old(pool)@[self.id()].asked(count_fn, wanted) && match old(
                    pool,
                )@[self.id()].booking(wanted as nat, u32::MAX as nat) {
                    Ok(count) => exists|p: &mut Pool<'id, T>, d: &mut Drain<'id, T>, r: R|
                        {
                            &&& self.drains(old(pool)@, count, *p, *d)
                            &&& #[trigger] f.ensures((p, d), r)
                            &&& result matches Ok(returned)
                            &&& returned == r
                            &&& final(pool)@ == (*final(d)).ended((*final(p))@)
                        },
                    Err(e) => {
                        &&& result matches Err(error)
                        &&& error == e
                        &&& final(pool)@ == old(pool)@
                    },
                },
    {
        match self.start_drain(pool, count_fn) {
            Ok(drain) => {
                let mut drain: Drain<'id, T> = drain;
                let r: R = f(&mut *pool, &mut drain);
                drain.drop(pool);
                Ok(r)
            },
            Err(e) => Err(e),
        }
    }

    /// Starts a drain.
    fn start_drain<C: FnMut(usize) -> usize>(
        &self,
        pool: &mut Pool<'id, T>,
        count_fn: C,
    ) -> (result: Result<Drain<'id, T>, StealError>)
        requires
            old(pool).wf(),
            self.id() < old(pool)@.len(),
            old(pool)@[self.id()].can_ask(count_fn),
        ensures
            final(pool).wf(),
            exists|wanted: usize| #[trigger]
                old(pool)@[self.id()].asked(count_fn, wanted) && match old(
                    pool,
                )@[self.id()].booking(wanted as nat, u32::MAX as nat) {
                    Ok(count) => {
                        &&& result matches Ok(drain)
                        &&& self.drains(old(pool)@, count, *final(pool), drain)
                    },
                    Err(e) => {
                        &&& result matches Err(error)
                        &&& error == e
                        &&& final(pool)@ == old(pool)@
                    },
                },
    {
        proof {
            pool.queues_are_well_formed();
        }
        match pool.book_items(self.stealer.id, count_fn, UnsignedShort::MAX) {
            Ok((old_head, new_head, count)) => {
                let drain: Drain<'id, T> = Drain {
                    id: self.stealer.id,
                    current: old_head,
                    end: new_head,
                    _pool: PhantomData,
                    _phantom: PhantomData,
                };
                proof {
                    lemma_wrap_range(old_head as int);
                    lemma_wrap_between(old_head as int, 0, count as int);
                    assert(drain.remaining(pool@) =~= old(pool)@[self.id()].items.take(
                        count as int,
                    ));
                }
                Ok(drain)
            },
            Err(e) => Err(e),
        }
    }
}

/// A draining handle of a queue.
///
/// This handle is created by [`Worker::drain`], which drops it at the end. See its
/// documentation for more.
#[derive(Debug)]
pub struct Drain<'id, T> {
    id: usize,
    current: UnsignedShort,
    end: UnsignedShort,
    _pool: PhantomData<&'id mut &'id ()>,
    _phantom: PhantomData<T>,
}

impl<'id, T> Drain<'id, T> {
    /// The index of the queue in its pool.
    pub closed spec fn id(&self) -> int {
        self.id as int
    }

    /// The index of a queue is not negative.
    pub proof fn id_is_an_index(&self)
        ensures
            0 <= self.id(),
    {
    }

    /// The number of items that are yet to be moved out.
    pub closed spec fn left(&self) -> nat {
        wrap(self.end - self.current) as nat
    }

    /// The position behind the last item that the drain steals.
    pub closed spec fn end(&self) -> int {
        self.end as int
    }

    /// Whether the drain has moved out all its items, or else is the ongoing
    /// stealing operation of its queue.
    pub open spec fn valid(&self, queues: Seq<QueueView<T>>) -> bool {
        &&& 0 <= self.id() < queues.len()
        &&& self.left() > 0 ==> {
            let queue = queues[self.id()];
            &&& wrap(queue.head + queue.held.len()) == self.end()
            &&& self.left() <= queue.held.len()
            &&& queue.draining((queue.held.len() - self.left()) as nat, queue.held.len())
        }
    }

    /// The items that are yet to be moved out.
    pub open spec fn remaining(&self, queues: Seq<QueueView<T>>) -> Seq<T> {
        let held = queues[self.id()].held;
        Seq::new(self.left(), |k: int| held[held.len() - self.left() + k]->0)
    }

    /// What the positions of the drain say of its progress.
    proof fn lemma_positions(self, head: int, total: int)
        requires
            0 <= total < 0x1_0000_0000,
            self.left() <= total,
            wrap(head + total) == self.end(),
        ensures
            wrap(self.current - head) == total - self.left(),
    {
        reveal(wrap);
    }

    /// A step of the current position is one item less.
    proof fn lemma_step(self, next: Self)
        requires
            self.left() > 0,
            next.current == wrap(self.current + 1),
            next.end == self.end,
        ensures
            next.left() == self.left() - 1,
    {
        reveal(wrap);
    }

    /// No item is left once the end is reached.
    proof fn lemma_end(self)
        ensures
            self.current == self.end <==> self.left() == 0,
    {
        reveal(wrap);
    }

    /// Moves the next item out of the queue.
    ///
    /// This returns None once all stolen items have been moved out. The stealing
    /// operation is complete as soon as the last one is.
    pub fn next(&mut self, pool: &mut Pool<'id, T>) -> (next: Option<T>)
        requires
            old(pool).wf(),
            old(self).valid(old(pool)@),
        ensures
            final(pool).wf(),
            final(self).valid(final(pool)@),
            final(self).id() == old(self).id(),
            next is None <==> old(self).remaining(old(pool)@).len() == 0,
            next is None ==> *final(self) == *old(self) && final(pool)@ == old(pool)@,
            next matches Some(item) ==> {
                let queue = old(pool)@[old(self).id()];
                let remaining = old(self).remaining(old(pool)@);
                &&& item == remaining[0]
                &&& final(self).remaining(final(pool)@) == remaining.skip(1)
                &&& final(pool)@ == old(pool)@.update(
                    old(self).id(),
                    if remaining.len() == 1 {
                        queue.complete()
                    } else {
                        queue.move_out(queue.held.len() - remaining.len())
                    },
                )
            },
    {
        proof {
            pool.queues_are_well_formed();
            self.lemma_end();
        }
        match drain_step(self.current, self.end) {
            None => None,
            Some((next, last)) => {
                proof {
                    let queue = pool@[self.id()];
                    assert(queue.wf());
                    self.lemma_positions(queue.head, queue.held.len() as int);
                }
                let item: T = pool.move_out(self.id, self.current);
                self.current = next;
                proof {
                    self.lemma_end();
                    old(self).lemma_step(*self);
                }
                // The head position must be updated immediately when yielding the
                // last item, because `next` may not be called again.
                if last {
                    // Update the head position.
                    pool.complete(self.id);
                }
                proof {
                    assert(pool@ =~= old(pool)@.update(self.id(), pool@[self.id()]));
                    assert(self.remaining(pool@) =~= old(self).remaining(old(pool)@).skip(1));
                }
                Some(item)
            },
        }
    }

    /// Returns the number of items that are yet to be moved out, as lower and
    /// as upper bound.
    pub fn size_hint(&self) -> (hint: (usize, Option<usize>))
        ensures
            hint.0 == self.left(),
            hint.1 == Some(hint.0),
    {
        let sz: usize = distance(self.current, self.end) as usize;
        (sz, Some(sz))
    }

    /// The queues after the items that are yet to be moved out were dropped: the
    /// stealing operation has ended.
    pub open spec fn ended(&self, queues: Seq<QueueView<T>>) -> Seq<QueueView<T>> {
        if self.remaining(queues).len() > 0 {
            queues.update(self.id(), queues[self.id()].complete())
        } else {
            queues
        }
    }

    /// Drops all items that are yet to be moved out, so that subsequent stealing
    /// operations can succeed.
    ///
    /// This is what happens at the end of [`Worker::drain`] at the latest.
    pub fn drop(&mut self, pool: &mut Pool<'id, T>)
        requires
            old(pool).wf(),
            old(self).valid(old(pool)@),
        ensures
            final(pool).wf(),
            final(self).valid(final(pool)@),
            final(self).id() == old(self).id(),
            final(self).remaining(final(pool)@).len() == 0,
            final(pool)@ == old(self).ended(old(pool)@),
    {
        loop
            invariant
                pool.wf(),
                self.valid(pool@),
                self.id() == old(self).id(),
                self.ended(pool@) == old(self).ended(old(pool)@),
            ensures
                self.remaining(pool@).len() == 0,
            decreases self.remaining(pool@).len(),
        {
            let ghost before = pool@;
            match self.next(pool) {
                None => {
                    break;
                },
                Some(_) => {
                    proof {
                        let id = self.id();
                        assert(pool@.update(id, pool@[id].complete()) =~= before.update(
                            id,
                            pool@[id].complete(),
                        ));
                    }
                },
            }
        }
    }
}

/// Handle for multi-threaded stealing operations.
#[derive(Debug)]
pub struct Stealer<'id, T> {
    id: usize,
    _pool: PhantomData<&'id mut &'id ()>,
    _phantom: PhantomData<T>,
}

impl<'id, T> Stealer<'id, T> {
    /// The index of the queue in its pool.
    pub closed spec fn id(&self) -> int {
        self.id as int
    }

    /// The index of a queue is not negative.
    pub proof fn id_is_an_index(&self)
        ensures
            0 <= self.id(),
    {
    }

    /// Attempts to steal items from the head of the queue and move them to the
    /// tail of another queue.
    ///
    /// Up to `N` items are moved to the destination queue, where `N` is
    /// specified by a closure which takes as argument the total count of items
    /// available for stealing. Upon success, the number of items ultimately
    /// transferred to the destination queue can be from 1 to `N`, depending on
    /// the number of available items and the capacity of the destination queue;
    /// the count of transferred items is returned as the success payload.
    ///
    /// # Errors
    ///
    /// An error is returned in the following cases:
    /// 1) no item was stolen, either because the queue is empty, the
    ///    destination is full or `N` is 0,
    /// 2) a concurrent stealing operation is ongoing.
    pub fn steal<C: FnMut(usize) -> usize>(
        &self,
        pool: &mut Pool<'id, T>,
        dest: &Worker<'id, T>,
        count_fn: C,
    ) -> (result: Result<usize, StealError>)
        requires
            old(pool).wf(),
            self.id() < old(pool)@.len(),
            dest.id() < old(pool)@.len(),
            old(pool)@[self.id()].can_ask(count_fn),
        ensures
            final(pool).wf(),
            exists|wanted: usize| #[trigger]
                old(pool)@[self.id()].asked(count_fn, wanted) && match old(
                    pool,
                )@[self.id()].booking(wanted as nat, old(pool)@[dest.id()].spare()) {
                    Ok(count) => {
                        &&& result == Ok::<usize, StealError>(count as usize)
                        &&& final(pool)@ == stolen(
                            old(pool)@,
                            self.id(),
                            dest.id(),
                            count as int,
                        )
                    },
                    Err(e) => {
                        &&& result == Err::<usize, StealError>(e)
                        &&& final(pool)@ == old(pool)@
                    },
                },
    {
        let src_id: usize = self.id;
        let dest_id: usize = dest.stealer.id;
        proof {
            pool.queues_are_well_formed();
        }
        // Compute the free capacity of the destination queue.
        let dest_free_capacity: UnsignedShort = pool.queues[dest_id].spare_capacity();
        match pool.book_items(src_id, count_fn, dest_free_capacity) {
            Ok((_, _, transfer_count)) => {
                proof {
                    lemma_booked(
                        old(pool)@,
                        self.id(),
                        dest.id(),
                        transfer_count as nat,
                        transfer_count as nat,
                    );
                    lemma_steal(old(pool)@, self.id(), dest.id(), transfer_count as nat);
                }
                // Move the items to the destination queue.
                pool.transfer(src_id, dest_id, transfer_count);
                // Update the head position.
                pool.complete(src_id);
                Ok(transfer_count as usize)
            },
            Err(e) => Err(e),
        }
    }

    /// Attempts to steal items from the head of the queue, returning one of
    /// them directly and moving the others to the tail of another queue.
    ///
    /// Up to `N` items are stolen (including the one returned directly), where
    /// `N` is specified by a closure which takes as argument the total count of
    /// items available for stealing. Upon success, one item is returned and
    /// from 0 to `N-1` items are moved to the destination queue, depending on
    /// the number of available items and the capacity of the destination queue;
    /// the number of transferred items is returned as the second field of the
    /// success value.
    ///
    /// The returned item is the most recent one among the stolen items.
    ///
    /// # Errors
    ///
    /// An error is returned in the following cases:
    /// 1) no item was stolen, either because the queue is empty or `N` is 0,
    /// 2) a concurrent stealing operation is ongoing.
    ///
    /// Failure to transfer any item to the destination queue is not considered
    /// an error as long as one element could be returned directly. This can
    /// occur if the destination queue is full, if the source queue has only one
    /// item or if `N` is 1.
    pub fn steal_and_pop<C: FnMut(usize) -> usize>(
        &self,
        pool: &mut Pool<'id, T>,
        dest: &Worker<'id, T>,
        count_fn: C,
    ) -> (result: Result<(T, usize), StealError>)
        requires
            old(pool).wf(),
            self.id() < old(pool)@.len(),
            dest.id() < old(pool)@.len(),
            old(pool)@[self.id()].can_ask(count_fn),
        ensures
            final(pool).wf(),
            exists|wanted: usize| #[trigger]
                old(pool)@[self.id()].asked(count_fn, wanted) && match old(
                    pool,
                )@[self.id()].booking(wanted as nat, old(pool)@[dest.id()].spare() + 1) {
                    Ok(count) => {
                        &&& result matches Ok((item, transferred))
                        &&& item == old(pool)@[self.id()].items[count - 1]
                        &&& transferred == count - 1
                        &&& final(pool)@ == stolen_but_last(
                            old(pool)@,
                            self.id(),
                            dest.id(),
                            count as int,
                        )
                    },
                    Err(e) => {
                        &&& result matches Err(error)
                        &&& error == e
                        &&& final(pool)@ == old(pool)@
                    },
                },
    {
        let src_id: usize = self.id;
        let dest_id: usize = dest.stealer.id;
        proof {
            pool.queues_are_well_formed();
        }
        // Compute the free capacity of the destination queue.
        let dest_free_capacity: UnsignedShort = pool.queues[dest_id].spare_capacity();
        assert(pool@[dest_id as int].wf());
        match pool.book_items(src_id, count_fn, dest_free_capacity + 1) {
            Ok((old_head, _, count)) => {
                let transfer_count: UnsignedShort = count - 1;
                proof {
                    lemma_booked(
                        old(pool)@,
                        self.id(),
                        dest.id(),
                        count as nat,
                        transfer_count as nat,
                    );
                    lemma_steal_but_last(old(pool)@, self.id(), dest.id(), count as nat);
                    lemma_wrap_range(old_head as int);
                    lemma_wrap_between(old_head as int, 0, transfer_count as int);
                }
                // Move all items but the last to the destination queue.
                pool.transfer(src_id, dest_id, transfer_count);
                // Read the last item.
                let last_item: T = pool.move_out(src_id, advance(old_head, transfer_count));
                // Update the head position.
                pool.complete(src_id);
                Ok((last_item, transfer_count as usize))
            },
            Err(e) => Err(e),
        }
    }
}

impl<'id, T> Clone for Stealer<'id, T> {
    fn clone(&self) -> (stealer: Self)
        ensures
            stealer == *self,
    {
        Stealer { id: self.id, _pool: PhantomData, _phantom: PhantomData }
    }
}

impl<'id, T> PartialEq for Stealer<'id, T> {
    /// Two stealers are equal if they point to the same queue.
    fn eq(&self, other: &Self) -> (equal: bool) {
        self.id == other.id
    }
}

impl<'id, T> PartialEqSpecImpl for Stealer<'id, T> {
    open spec fn obeys_eq_spec() -> bool {
        true
    }

    open spec fn eq_spec(&self, other: &Self) -> bool {
        self.id() == other.id()
    }
}

impl<'id, T> Eq for Stealer<'id, T> {

}

} // verus!
