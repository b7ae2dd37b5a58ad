//! What the operations do to a queue, slot by slot and item by item.
//!
//! Contracts are written with the transitions of [`QueueView`]. The laws here say
//! what each of them does to the capacity, the head, the held slots and the items
//! of a queue, and what an operation as a whole returns, in terms of rows and
//! numbers alone.
use vstd::arithmetic::power2::pow2;
use vstd::prelude::*;
use vstd::std_specs::cmp::PartialEqSpec;

use crate::model::{
    blank, filled, is_index, max, min, steal_count, stolen, stolen_but_last, transferred, QueueView,
};
use crate::{fifo, lifo, StealError};

verus! {

/// The lesser and the greater of two numbers are those numbers, in order.
pub proof fn min_and_max(a: nat, b: nat)
    ensures
        min(a, b) <= max(a, b),
        min(a, b) + max(a, b) == a + b,
        min(a, b) == a || min(a, b) == b,
{
}

/// A number is an index of a row if the row has a place of that number.
pub proof fn indices<A>(row: Seq<A>, k: int)
    ensures
        is_index(row, k) <==> 0 <= k && k < row.len(),
{
}

/// The number of items that are stolen is at most the number asked for, the room
/// and the number available, and is one of them.
pub proof fn steal_count_is_the_least(wanted: nat, room: nat, available: nat)
    ensures
        steal_count(wanted, room, available) <= wanted,
        steal_count(wanted, room, available) <= room,
        steal_count(wanted, room, available) <= available,
        steal_count(wanted, room, available) == wanted || steal_count(wanted, room, available)
            == room || steal_count(wanted, room, available) == available,
{
}

/// Slots that are filled with items hold them in their order, and blank slots hold
/// nothing.
pub proof fn filled_and_blank_slots<T>(items: Seq<T>, n: nat)
    ensures
        filled(items).len() == items.len(),
        forall|k: int| 0 <= k < items.len() ==> #[trigger] filled(items)[k] == Some(items[k]),
        blank::<T>(n).len() == n,
        forall|k: int| 0 <= k < n ==> #[trigger] blank::<T>(n)[k] == None::<T>,
{
}

/// A new queue has its capacity and is empty. Its first item goes to position 0.
pub proof fn new_queue_is_empty<T>(capacity: nat)
    ensures
        QueueView::<T>::created(capacity).capacity == capacity,
        QueueView::<T>::created(capacity).head == 0,
        QueueView::<T>::created(capacity).held.len() == 0,
        QueueView::<T>::created(capacity).items.len() == 0,
{
}

/// Each slot of a queue is held by a stealing operation, holds an available item or
/// is spare, at any time. A queue is busy while slots are held.
pub proof fn every_slot_is_held_or_filled_or_spare<T>(queue: QueueView<T>)
    requires
        queue.held.len() + queue.items.len() <= queue.capacity,
    ensures
        queue.spare() + queue.held.len() + queue.items.len() == queue.capacity,
        queue.spare() == 0 <==> queue.held.len() + queue.items.len() == queue.capacity,
        queue.busy() <==> queue.held.len() > 0,
{
}

/// What holds of every queue: its slots in use fit its capacity, and its head is a
/// position of 32 bits.
pub proof fn queue_fits_its_capacity<T>(queue: QueueView<T>)
    requires
        queue.wf(),
    ensures
        queue.held.len() + queue.items.len() <= queue.capacity,
        queue.capacity > 0,
        queue.capacity <= 0x8000_0000,
        0 <= queue.head < 0x1_0000_0000,
{
    crate::position::lemma_capacity_bounds(queue.capacity as int);
}

/// In any state of a pool, each slot of each of its queues is held, filled or spare.
pub proof fn fifo_slots_are_held_or_filled_or_spare<'id, T>(pool: fifo::Pool<'id, T>, id: int)
    requires
        pool.wf(),
        0 <= id < pool@.len(),
    ensures
        pool@[id].spare() + pool@[id].held.len() + pool@[id].items.len() == pool@[id].capacity,
        exists|e: nat| e < 32 && pool@[id].capacity == #[trigger] pow2(e),
        0 <= pool@[id].head < 0x1_0000_0000,
{
    pool.queues_are_well_formed();
    assert(pool@[id].wf());
}

/// In any state of a pool, each slot of each of its queues is held, filled or spare.
pub proof fn lifo_slots_are_held_or_filled_or_spare<'id, T>(pool: lifo::Pool<'id, T>, id: int)
    requires
        pool.wf(),
        0 <= id < pool@.len(),
    ensures
        pool@[id].spare() + pool@[id].held.len() + pool@[id].items.len() == pool@[id].capacity,
        exists|e: nat| e < 32 && pool@[id].capacity == #[trigger] pow2(e),
        0 <= pool@[id].head < 0x1_0000_0000,
{
    pool.queues_are_well_formed();
    assert(pool@[id].wf());
}

/// A push adds the item behind all others and changes nothing else.
pub proof fn push_adds_behind<T>(queue: QueueView<T>, item: T)
    ensures
        queue.push(item).items.len() == queue.items.len() + 1,
        queue.push(item).items.last() == item,
        queue.push(item).items.drop_last() == queue.items,
        queue.push(item).held == queue.held,
        queue.push(item).capacity == queue.capacity,
        queue.push(item).head == queue.head,
{
    assert(queue.push(item).items.drop_last() =~= queue.items);
}

/// Appending adds the items behind all others, in their order, and changes nothing
/// else.
pub proof fn append_adds_behind<T>(queue: QueueView<T>, items: Seq<T>)
    ensures
        queue.append(items).items.len() == queue.items.len() + items.len(),
        forall|k: int|
            0 <= k < queue.items.len() ==> #[trigger] queue.append(items).items[k]
                == queue.items[k],
        forall|k: int|
            0 <= k < items.len() ==> queue.append(items).items[queue.items.len() + k]
                == #[trigger] items[k],
        queue.append(items).held == queue.held,
        queue.append(items).capacity == queue.capacity,
        queue.append(items).head == queue.head,
{
}

/// A LIFO pop takes away the newest item and changes nothing else.
pub proof fn pop_back_takes_the_newest<T>(queue: QueueView<T>)
    requires
        queue.items.len() > 0,
    ensures
        queue.pop_back().items.push(queue.items[queue.items.len() - 1]) == queue.items,
        queue.pop_back().held == queue.held,
        queue.pop_back().capacity == queue.capacity,
        queue.pop_back().head == queue.head,
{
    assert(queue.pop_back().items.push(queue.items[queue.items.len() - 1]) =~= queue.items);
}

/// A FIFO pop takes away the oldest item. Its slot is free again, unless a stealing
/// operation is ongoing: then it is held, with nothing in it, until that has ended.
pub proof fn pop_front_takes_the_oldest<T>(queue: QueueView<T>)
    requires
        queue.items.len() > 0,
    ensures
        seq![queue.items[0]] + queue.pop_front().items == queue.items,
        queue.pop_front().capacity == queue.capacity,
        queue.held.len() == 0 ==> {
            &&& queue.pop_front().held.len() == 0
            &&& queue.pop_front().head == (queue.head + 1) % 0x1_0000_0000
        },
        queue.held.len() > 0 ==> {
            &&& queue.pop_front().held.drop_last() == queue.held
            &&& queue.pop_front().held.len() == queue.held.len() + 1
            &&& queue.pop_front().held.last() == None::<T>
            &&& queue.pop_front().head == queue.head
        },
{
    reveal(crate::position::wrap);
    assert(seq![queue.items[0]] + queue.pop_front().items =~= queue.items);
    if queue.held.len() > 0 {
        assert(queue.pop_front().held.drop_last() =~= queue.held);
    } else {
        assert(queue.pop_front().held =~= queue.held);
    }
}

/// The closure of a stealing operation is asked only where the queue is not busy and
/// not empty, with the number of available items. What counts as its answer is what
/// it returned, and it need accept no other argument.
pub proof fn closure_is_asked_for_the_available_items<T, C: FnMut(usize) -> usize>(
    queue: QueueView<T>,
    count_fn: C,
    wanted: usize,
)
    ensures
        queue.held.len() == 0 && queue.items.len() > 0 ==> {
            &&& queue.asked(count_fn, wanted) <==> count_fn.ensures(
                (queue.items.len() as usize,),
                wanted,
            )
            &&& queue.can_ask(count_fn) <==> count_fn.requires((queue.items.len() as usize,))
        },
        queue.held.len() > 0 || queue.items.len() == 0 ==> queue.can_ask(count_fn),
{
}

/// A stealing operation is refused as busy if another one is ongoing. Otherwise it
/// takes as many items as are asked for, limited by the room and by the number of
/// available items only, and is refused as empty if that is none.
pub proof fn booking_takes_all_that_it_may<T>(queue: QueueView<T>, wanted: nat, room: nat)
    ensures
        queue.held.len() > 0 ==> queue.booking(wanted, room) == Err::<nat, StealError>(
            StealError::Busy,
        ),
        queue.held.len() == 0 && (wanted == 0 || room == 0 || queue.items.len() == 0)
            ==> queue.booking(wanted, room) == Err::<nat, StealError>(StealError::Empty),
        queue.held.len() == 0 && wanted > 0 && room > 0 && queue.items.len() > 0 ==> {
            &&& queue.booking(wanted, room) matches Ok(count)
            &&& count <= wanted && count <= room && count <= queue.items.len()
            &&& count == wanted || count == room || count == queue.items.len()
        },
{
}

/// Booking moves the oldest items, in their order, from the available items to the
/// held slots, and changes nothing else.
pub proof fn booking_holds_the_oldest<T>(queue: QueueView<T>, count: int)
    requires
        0 <= count <= queue.items.len(),
    ensures
        queue.book(count).held.len() == count,
        forall|k: int|
            0 <= k < count ==> #[trigger] queue.book(count).held[k] == Some(queue.items[k]),
        queue.book(count).items.len() == queue.items.len() - count,
        forall|k: int|
            0 <= k < queue.items.len() - count ==> #[trigger] queue.book(count).items[k]
                == queue.items[count + k],
        queue.book(count).capacity == queue.capacity,
        queue.book(count).head == queue.head,
{
}

/// Taking the oldest items leaves the others, in their order. The head moves on by
/// as many positions.
pub proof fn taking_the_oldest_leaves_the_others<T>(queue: QueueView<T>, count: int)
    requires
        0 <= count <= queue.items.len(),
    ensures
        queue.items.take(count) + queue.take_oldest(count).items == queue.items,
        queue.take_oldest(count).held == queue.held,
        queue.take_oldest(count).capacity == queue.capacity,
        queue.take_oldest(count).head == (queue.head + count) % 0x1_0000_0000,
{
    reveal(crate::position::wrap);
    assert(queue.items.take(count) + queue.take_oldest(count).items =~= queue.items);
}

/// Moving an item out empties its slot, which stays held, and changes nothing else.
pub proof fn moving_out_empties_one_slot<T>(queue: QueueView<T>, k: int)
    requires
        0 <= k < queue.held.len(),
    ensures
        queue.move_out(k).held.len() == queue.held.len(),
        queue.move_out(k).held[k] == None::<T>,
        forall|j: int|
            0 <= j < queue.held.len() && j != k ==> #[trigger] queue.move_out(k).held[j]
                == queue.held[j],
        queue.move_out(k).items == queue.items,
        queue.move_out(k).capacity == queue.capacity,
        queue.move_out(k).head == queue.head,
{
}

/// Vacating empties the oldest held slots and changes nothing else. What was in them
/// are the held items, in their order.
pub proof fn vacating_empties_the_oldest_slots<T>(queue: QueueView<T>, n: nat)
    requires
        n <= queue.held.len(),
    ensures
        queue.vacate(n).held.len() == queue.held.len(),
        forall|k: int| 0 <= k < n ==> #[trigger] queue.vacate(n).held[k] == None::<T>,
        forall|k: int|
            n <= k < queue.held.len() ==> #[trigger] queue.vacate(n).held[k] == queue.held[k],
        queue.vacate(n).items == queue.items,
        queue.vacate(n).capacity == queue.capacity,
        queue.vacate(n).head == queue.head,
        queue.held_items(n).len() == n,
        queue.holds(n) <==> (forall|k: int| 0 <= k < n ==> (#[trigger] queue.held[k]) is Some),
        queue.holds(n) ==> forall|k: int|
            0 <= k < n ==> Some(#[trigger] queue.held_items(n)[k]) == queue.held[k],
{
}

/// A stealing operation can be completed once no held slot holds an item. All its
/// slots are free then, and the available items are the same.
pub proof fn completion_frees_all_held_slots<T>(queue: QueueView<T>)
    ensures
        queue.moved_out() <==> (forall|k: int|
            0 <= k < queue.held.len() ==> (#[trigger] queue.held[k]) == None::<T>),
        queue.complete().held.len() == 0,
        queue.complete().items == queue.items,
        queue.complete().capacity == queue.capacity,
        queue.complete().head == (queue.head + queue.held.len()) % 0x1_0000_0000,
{
    reveal(crate::position::wrap);
}

/// A drain is ongoing while the slots of its items that are yet to be moved out are
/// the ones that hold an item.
pub proof fn draining_holds_what_is_left<T>(queue: QueueView<T>, done: nat, total: nat)
    ensures
        queue.draining(done, total) <==> {
            &&& done < total
            &&& total <= queue.held.len()
            &&& forall|k: int| done <= k < total ==> (#[trigger] queue.held[k]) is Some
            &&& forall|k: int| 0 <= k < done ==> (#[trigger] queue.held[k]) is None
            &&& forall|k: int|
                total <= k < queue.held.len() ==> (#[trigger] queue.held[k]) is None
        },
{
}

/// A steal moves the oldest items of one queue behind all items of another, in their
/// order. All other queues, and what is held, are the same.
pub proof fn steal_moves_the_oldest_in_order<T>(
    queues: Seq<QueueView<T>>,
    src: int,
    dest: int,
    count: int,
)
    requires
        0 <= src < queues.len(),
        0 <= dest < queues.len(),
        0 <= count <= queues[src].items.len(),
    ensures
        ({
            let after = stolen(queues, src, dest, count);
            let moved = queues[src].items.take(count);
            &&& after.len() == queues.len()
            &&& src != dest ==> {
                &&& moved + after[src].items == queues[src].items
                &&& after[dest].items == queues[dest].items + moved
                &&& after[dest].head == queues[dest].head
            }
            &&& src == dest ==> moved + after[src].items == queues[src].items + moved
            &&& after[src].head == (queues[src].head + count) % 0x1_0000_0000
            &&& forall|i: int|
                0 <= i < queues.len() ==> (#[trigger] after[i]).held == queues[i].held
            &&& forall|i: int|
                0 <= i < queues.len() ==> (#[trigger] after[i]).capacity == queues[i].capacity
            &&& forall|i: int|
                0 <= i < queues.len() && i != src && i != dest ==> (#[trigger] after[i])
                    == queues[i]
        }),
{
    reveal(crate::position::wrap);
    let after = stolen(queues, src, dest, count);
    let moved = queues[src].items.take(count);
    if src != dest {
        assert(moved + after[src].items =~= queues[src].items);
    } else {
        assert(moved + after[src].items =~= queues[src].items + moved);
    }
}

/// A steal with a direct return moves the oldest items of one queue but the last one
/// behind all items of another, in their order. All other queues, and what is held,
/// are the same.
pub proof fn steal_and_pop_moves_the_oldest_in_order<T>(
    queues: Seq<QueueView<T>>,
    src: int,
    dest: int,
    count: int,
)
    requires
        0 <= src < queues.len(),
        0 <= dest < queues.len(),
        0 < count <= queues[src].items.len(),
    ensures
        ({
            let after = stolen_but_last(queues, src, dest, count);
            let taken = queues[src].items.take(count);
            let moved = queues[src].items.take(count - 1);
            &&& after.len() == queues.len()
            &&& moved.push(queues[src].items[count - 1]) == taken
            &&& src != dest ==> {
                &&& taken + after[src].items == queues[src].items
                &&& after[dest].items == queues[dest].items + moved
                &&& after[dest].head == queues[dest].head
            }
            &&& src == dest ==> taken + after[src].items == queues[src].items + moved
            &&& after[src].head == (queues[src].head + count) % 0x1_0000_0000
            &&& forall|i: int|
                0 <= i < queues.len() ==> (#[trigger] after[i]).held == queues[i].held
            &&& forall|i: int|
                0 <= i < queues.len() ==> (#[trigger] after[i]).capacity == queues[i].capacity
            &&& forall|i: int|
                0 <= i < queues.len() && i != src && i != dest ==> (#[trigger] after[i])
                    == queues[i]
        }),
{
    reveal(crate::position::wrap);
    let after = stolen_but_last(queues, src, dest, count);
    let taken = queues[src].items.take(count);
    let moved = queues[src].items.take(count - 1);
    assert(moved.push(queues[src].items[count - 1]) =~= taken);
    if src != dest {
        assert(taken + after[src].items =~= queues[src].items);
    } else {
        assert(taken + after[src].items =~= queues[src].items + moved);
    }
}

/// A transfer moves the items of the oldest held slots of one queue behind all items
/// of another, in their order, and empties those slots.
pub proof fn transfer_moves_held_items_in_order<T>(
    queues: Seq<QueueView<T>>,
    src: int,
    dest: int,
    count: nat,
)
    requires
        0 <= src < queues.len(),
        0 <= dest < queues.len(),
        count <= queues[src].held.len(),
    ensures
        ({
            let after = transferred(queues, src, dest, count);
            let n = queues[dest].items.len() as int;
            &&& after.len() == queues.len()
            &&& after[dest].items.len() == n + count
            &&& forall|k: int|
                0 <= k < n ==> #[trigger] after[dest].items[k] == queues[dest].items[k]
            &&& forall|k: int|
                0 <= k < count ==> after[dest].items[n + k] == (#[trigger] queues[src].held[k])->0
            &&& after[src].held.len() == queues[src].held.len()
            &&& forall|k: int|
                0 <= k < count ==> #[trigger] after[src].held[k] == None::<T>
            &&& forall|k: int|
                count <= k < queues[src].held.len() ==> #[trigger] after[src].held[k]
                    == queues[src].held[k]
            &&& src != dest ==> {
                &&& after[src].items == queues[src].items
                &&& after[dest].held == queues[dest].held
            }
            &&& forall|i: int|
                0 <= i < queues.len() ==> (#[trigger] after[i]).head == queues[i].head
            &&& forall|i: int|
                0 <= i < queues.len() ==> (#[trigger] after[i]).capacity == queues[i].capacity
            &&& forall|i: int|
                0 <= i < queues.len() && i != src && i != dest ==> (#[trigger] after[i])
                    == queues[i]
        }),
{
}

/// A steal that asks its closure takes exactly the least of what the closure
/// answered, of the room in the destination and of the available items. Those items
/// are the oldest ones, and they end up behind the items of the destination, which can
/// be the same queue.
pub proof fn steal_takes_what_the_closure_answered<T, C: FnMut(usize) -> usize>(
    queues: Seq<QueueView<T>>,
    src: int,
    dest: int,
    count_fn: C,
    wanted: usize,
)
    requires
        0 <= src < queues.len(),
        0 <= dest < queues.len(),
        queues[src].held.len() == 0,
        queues[src].items.len() > 0,
        queues[dest].held.len() + queues[dest].items.len() <= queues[dest].capacity,
        queues[src].asked(count_fn, wanted),
    ensures
        count_fn.ensures((queues[src].items.len() as usize,), wanted),
        ({
            let n = queues[src].items.len();
            let room = queues[dest].capacity - queues[dest].held.len() - queues[dest].items.len();
            let least = if wanted <= room && wanted <= n {
                wanted as int
            } else if room <= n {
                room
            } else {
                n as int
            };
            match queues[src].booking(wanted as nat, queues[dest].spare()) {
                Ok(count) => {
                    let after = stolen(queues, src, dest, count as int);
                    &&& count == least
                    &&& src != dest ==> after[src].items.len() == n - least
                    &&& src != dest ==> after[dest].items.len() == queues[dest].items.len() + least
                    &&& src == dest ==> after[src].items.len() == n
                    &&& forall|k: int|
                        0 <= k < least ==> after[dest].items[after[dest].items.len() - least + k]
                            == #[trigger] queues[src].items[k]
                    &&& forall|k: int|
                        0 <= k < n - least ==> #[trigger] after[src].items[k]
                            == queues[src].items[least + k]
                },
                Err(e) => least == 0 && e == StealError::Empty,
            }
        }),
{
}

/// A steal with a direct return that asks its closure takes exactly the least of what
/// the closure answered, of one more than the room in the destination and of the
/// available items. It returns the last of them, and the others end up behind the
/// items of the destination, in their order, which can be the same queue.
pub proof fn steal_and_pop_takes_what_the_closure_answered<T, C: FnMut(usize) -> usize>(
    queues: Seq<QueueView<T>>,
    src: int,
    dest: int,
    count_fn: C,
    wanted: usize,
)
    requires
        0 <= src < queues.len(),
        0 <= dest < queues.len(),
        queues[src].held.len() == 0,
        queues[src].items.len() > 0,
        queues[dest].held.len() + queues[dest].items.len() <= queues[dest].capacity,
        queues[src].asked(count_fn, wanted),
    ensures
        count_fn.ensures((queues[src].items.len() as usize,), wanted),
        ({
            let n = queues[src].items.len();
            let room = queues[dest].capacity - queues[dest].held.len() - queues[dest].items.len()
                + 1;
            let least = if wanted <= room && wanted <= n {
                wanted as int
            } else if room <= n {
                room
            } else {
                n as int
            };
            match queues[src].booking(wanted as nat, queues[dest].spare() + 1) {
                Ok(count) => {
                    let after = stolen_but_last(queues, src, dest, count as int);
                    &&& count == least
                    &&& src != dest ==> after[src].items.len() == n - least
                    &&& src != dest ==> after[dest].items.len() == queues[dest].items.len() + least
                        - 1
                    &&& src == dest ==> after[src].items.len() == n - 1
                    &&& forall|k: int|
                        0 <= k < least - 1 ==> after[dest].items[after[dest].items.len() - least + 1
                            + k] == #[trigger] queues[src].items[k]
                    &&& forall|k: int|
                        0 <= k < n - least ==> #[trigger] after[src].items[k]
                            == queues[src].items[least + k]
                },
                Err(e) => least == 0 && wanted == 0 && e == StealError::Empty,
            }
        }),
{
}

/// A drain has just started if the oldest items, and no others, are held and are what
/// it is yet to move out, while the others are available and no other queue has
/// changed.
pub proof fn fifo_drain_starts_with_the_oldest_items<'id, T>(
    worker: fifo::Worker<'id, T>,
    queues: Seq<QueueView<T>>,
    count: nat,
    pool: fifo::Pool<'id, T>,
    drain: fifo::Drain<'id, T>,
)
    requires
        0 <= worker.id() < queues.len(),
        count <= queues[worker.id()].items.len(),
    ensures
        worker.drains(queues, count, pool, drain) <==> {
            let before = queues[worker.id()];
            let after = pool@[worker.id()];
            &&& pool.wf()
            &&& pool@.len() == queues.len()
            &&& forall|i: int|
                0 <= i < queues.len() && i != worker.id() ==> #[trigger] pool@[i] == queues[i]
            &&& after.capacity == before.capacity
            &&& after.head == before.head
            &&& after.held.len() == count
            &&& forall|k: int| 0 <= k < count ==> #[trigger] after.held[k] == Some(before.items[k])
            &&& drain.id() == worker.id()
            &&& drain.valid(pool@)
            &&& drain.remaining(pool@).len() == count
            &&& drain.remaining(pool@) + after.items == before.items
        },
{
    let before = queues[worker.id()];
    let after = pool@[worker.id()];
    let remaining = drain.remaining(pool@);
    if worker.drains(queues, count, pool, drain) {
        assert(remaining + after.items =~= before.items);
    }
    if remaining.len() == count && remaining + after.items == before.items {
        assert(remaining =~= before.items.take(count as int)) by {
            assert forall|k: int| 0 <= k < count implies remaining[k] == before.items[k] by {
                assert((remaining + after.items)[k] == remaining[k]);
            }
        }
        assert(after.items =~= before.items.skip(count as int)) by {
            assert forall|k: int| 0 <= k < after.items.len() implies after.items[k]
                == before.items[count + k] by {
                assert((remaining + after.items)[count + k] == after.items[k]);
            }
        }
        if after.held.len() == count && (forall|k: int|
            0 <= k < count ==> #[trigger] after.held[k] == Some(before.items[k])) {
            assert(after.held =~= before.book(count as int).held);
            if pool@.len() == queues.len() && (forall|i: int|
                0 <= i < queues.len() && i != worker.id() ==> #[trigger] pool@[i] == queues[i])
                && after.capacity == before.capacity && after.head == before.head {
                assert(after =~= before.book(count as int));
                assert(pool@ =~= queues.update(worker.id(), before.book(count as int)));
            }
        }
    }
}

/// A drain that has started holds exactly as many items as the closure answered, or
/// all available ones if those are fewer: the oldest ones, in their order. The others
/// stay available.
pub proof fn fifo_drain_takes_what_the_closure_answered<'id, T, C: FnMut(usize) -> usize>(
    worker: fifo::Worker<'id, T>,
    queues: Seq<QueueView<T>>,
    count_fn: C,
    wanted: usize,
    count: nat,
    pool: fifo::Pool<'id, T>,
    drain: fifo::Drain<'id, T>,
)
    requires
        0 <= worker.id() < queues.len(),
        queues[worker.id()].held.len() == 0,
        0 < queues[worker.id()].items.len() <= 0x8000_0000,
        queues[worker.id()].asked(count_fn, wanted),
        queues[worker.id()].booking(wanted as nat, u32::MAX as nat) == Ok::<nat, StealError>(count),
        worker.drains(queues, count, pool, drain),
    ensures
        count_fn.ensures((queues[worker.id()].items.len() as usize,), wanted),
        wanted > 0,
        pool.wf(),
        drain.id() == worker.id(),
        drain.valid(pool@),
        ({
            let before = queues[worker.id()];
            let after = pool@[worker.id()];
            let n = if wanted <= before.items.len() {
                wanted as int
            } else {
                before.items.len() as int
            };
            &&& drain.remaining(pool@).len() == n
            &&& drain.remaining(pool@) + after.items == before.items
            &&& after.held.len() == n
            &&& forall|k: int| 0 <= k < n ==> #[trigger] after.held[k] == Some(before.items[k])
            &&& after.capacity == before.capacity
            &&& after.head == before.head
            &&& pool@.len() == queues.len()
            &&& forall|i: int|
                0 <= i < queues.len() && i != worker.id() ==> #[trigger] pool@[i] == queues[i]
        }),
{
    let before = queues[worker.id()];
    assert(drain.remaining(pool@) + pool@[worker.id()].items =~= before.items);
}

/// A drain starts only where the queue is not busy and not empty, and then with the
/// items that an answer of the counting closure asks for.
pub proof fn fifo_drain_starts_as_the_closure_answered<'id, T, C: FnMut(usize) -> usize>(
    worker: fifo::Worker<'id, T>,
    queues: Seq<QueueView<T>>,
    count_fn: C,
    pool: fifo::Pool<'id, T>,
    drain: fifo::Drain<'id, T>,
)
    requires
        queues[worker.id()].items.len() <= 0x8000_0000,
    ensures
        queues[worker.id()].held.len() > 0 || queues[worker.id()].items.len() == 0
            ==> !worker.can_drain(queues, count_fn, pool, drain),
        queues[worker.id()].held.len() == 0 && queues[worker.id()].items.len() > 0 ==> (
        worker.can_drain(queues, count_fn, pool, drain) <==> exists|wanted: usize, count: nat|
            {
                &&& #[trigger] count_fn.ensures((queues[worker.id()].items.len() as usize,), wanted)
                &&& wanted > 0
                &&& count <= wanted && count <= queues[worker.id()].items.len()
                &&& count == wanted || count == queues[worker.id()].items.len()
                &&& #[trigger] worker.drains(queues, count, pool, drain)
            }),
{
    let queue = queues[worker.id()];
    if worker.can_drain(queues, count_fn, pool, drain) {
        let wanted = choose|wanted: usize| #[trigger]
            queue.asked(count_fn, wanted) && {
                &&& queue.booking(wanted as nat, u32::MAX as nat) matches Ok(count)
                &&& worker.drains(queues, count, pool, drain)
            };
        let count = queue.booking(wanted as nat, u32::MAX as nat)->Ok_0;
        assert(count_fn.ensures((queue.items.len() as usize,), wanted));
        assert(worker.drains(queues, count, pool, drain));
    }
    if exists|wanted: usize, count: nat|
        {
            &&& #[trigger] count_fn.ensures((queue.items.len() as usize,), wanted)
            &&& wanted > 0
            &&& count <= wanted && count <= queue.items.len()
            &&& count == wanted || count == queue.items.len()
            &&& #[trigger] worker.drains(queues, count, pool, drain)
        } {
        let (wanted, count) = choose|wanted: usize, count: nat|
            {
                &&& #[trigger] count_fn.ensures((queue.items.len() as usize,), wanted)
                &&& wanted > 0
                &&& count <= wanted && count <= queue.items.len()
                &&& count == wanted || count == queue.items.len()
                &&& #[trigger] worker.drains(queues, count, pool, drain)
            };
        assert(queue.asked(count_fn, wanted));
    }
}

/// A drain that is dropped with items yet to be moved out, however many it has
/// yielded before, ends its stealing operation: the queue holds no slot any more, its
/// available items are the same, and all other slots are spare. No other queue
/// changes, and nothing does where no item is left.
pub proof fn fifo_dropped_drain_frees_the_queue<'id, T>(
    drain: fifo::Drain<'id, T>,
    queues: Seq<QueueView<T>>,
)
    requires
        drain.valid(queues),
        queues[drain.id()].held.len() + queues[drain.id()].items.len()
            <= queues[drain.id()].capacity,
    ensures
        drain.remaining(queues).len() == 0 ==> drain.ended(queues) == queues,
        drain.remaining(queues).len() > 0 ==> {
            let before = queues[drain.id()];
            let after = drain.ended(queues)[drain.id()];
            &&& before.held.len() > 0
            &&& after.held.len() == 0
            &&& !after.busy()
            &&& after.items == before.items
            &&& after.capacity == before.capacity
            &&& after.spare() == before.capacity - before.items.len()
            &&& after.head == (before.head + before.held.len()) % 0x1_0000_0000
        },
        drain.ended(queues).len() == queues.len(),
        forall|i: int|
            0 <= i < queues.len() && i != drain.id() ==> #[trigger] drain.ended(queues)[i]
                == queues[i],
{
    reveal(crate::position::wrap);
}

/// A drain is the ongoing stealing operation of its queue while it has items yet to
/// be moved out. Those are in the slots behind the ones that it has emptied, in their
/// order, and no other held slot has an item in it.
pub proof fn fifo_drain_is_left_with_the_later_items<'id, T>(
    drain: fifo::Drain<'id, T>,
    queues: Seq<QueueView<T>>,
)
    ensures
        drain.valid(queues) <==> {
            let held = queues[drain.id()].held;
            &&& 0 <= drain.id() && drain.id() < queues.len()
            &&& drain.done() <= drain.total()
            &&& drain.done() != drain.total() ==> {
                &&& drain.total() <= held.len()
                &&& queues[drain.id()].head == drain.origin()
                &&& forall|k: int| 0 <= k < drain.done() ==> (#[trigger] held[k]) == None::<T>
                &&& forall|k: int|
                    drain.done() <= k < drain.total() ==> (#[trigger] held[k]) != None::<T>
                &&& forall|k: int|
                    drain.total() <= k < held.len() ==> (#[trigger] held[k]) == None::<T>
            }
        },
        drain.valid(queues) ==> {
            let held = queues[drain.id()].held;
            &&& drain.done() + drain.remaining(queues).len() == drain.total()
            &&& forall|k: int|
                0 <= k < drain.remaining(queues).len() ==> held[drain.done() + k] == Some(
                    #[trigger] drain.remaining(queues)[k],
                )
        },
{
}

/// A drain has just started if the oldest items, and no others, are held and are what
/// it is yet to move out, while the others are available and no other queue has
/// changed.
pub proof fn lifo_drain_starts_with_the_oldest_items<'id, T>(
    worker: lifo::Worker<'id, T>,
    queues: Seq<QueueView<T>>,
    count: nat,
    pool: lifo::Pool<'id, T>,
    drain: lifo::Drain<'id, T>,
)
    requires
        0 <= worker.id() < queues.len(),
        count <= queues[worker.id()].items.len(),
    ensures
        worker.drains(queues, count, pool, drain) <==> {
            let before = queues[worker.id()];
            let after = pool@[worker.id()];
            &&& pool.wf()
            &&& pool@.len() == queues.len()
            &&& forall|i: int|
                0 <= i < queues.len() && i != worker.id() ==> #[trigger] pool@[i] == queues[i]
            &&& after.capacity == before.capacity
            &&& after.head == before.head
            &&& after.held.len() == count
            &&& forall|k: int| 0 <= k < count ==> #[trigger] after.held[k] == Some(before.items[k])
            &&& drain.id() == worker.id()
            &&& drain.valid(pool@)
            &&& drain.remaining(pool@).len() == count
            &&& drain.remaining(pool@) + after.items == before.items
        },
{
    let before = queues[worker.id()];
    let after = pool@[worker.id()];
    let remaining = drain.remaining(pool@);
    if worker.drains(queues, count, pool, drain) {
        assert(remaining + after.items =~= before.items);
    }
    if remaining.len() == count && remaining + after.items == before.items {
        assert(remaining =~= before.items.take(count as int)) by {
            assert forall|k: int| 0 <= k < count implies remaining[k] == before.items[k] by {
                assert((remaining + after.items)[k] == remaining[k]);
            }
        }
        assert(after.items =~= before.items.skip(count as int)) by {
            assert forall|k: int| 0 <= k < after.items.len() implies after.items[k]
                == before.items[count + k] by {
                assert((remaining + after.items)[count + k] == after.items[k]);
            }
        }
        if after.held.len() == count && (forall|k: int|
            0 <= k < count ==> #[trigger] after.held[k] == Some(before.items[k])) {
            assert(after.held =~= before.book(count as int).held);
            if pool@.len() == queues.len() && (forall|i: int|
                0 <= i < queues.len() && i != worker.id() ==> #[trigger] pool@[i] == queues[i])
                && after.capacity == before.capacity && after.head == before.head {
                assert(after =~= before.book(count as int));
                assert(pool@ =~= queues.update(worker.id(), before.book(count as int)));
            }
        }
    }
}

/// A drain that has started holds exactly as many items as the closure answered, or
/// all available ones if those are fewer: the oldest ones, in their order. The others
/// stay available.
pub proof fn lifo_drain_takes_what_the_closure_answered<'id, T, C: FnMut(usize) -> usize>(
    worker: lifo::Worker<'id, T>,
    queues: Seq<QueueView<T>>,
    count_fn: C,
    wanted: usize,
    count: nat,
    pool: lifo::Pool<'id, T>,
    drain: lifo::Drain<'id, T>,
)
    requires
        0 <= worker.id() < queues.len(),
        queues[worker.id()].held.len() == 0,
        0 < queues[worker.id()].items.len() <= 0x8000_0000,
        queues[worker.id()].asked(count_fn, wanted),
        queues[worker.id()].booking(wanted as nat, u32::MAX as nat) == Ok::<nat, StealError>(count),
        worker.drains(queues, count, pool, drain),
    ensures
        count_fn.ensures((queues[worker.id()].items.len() as usize,), wanted),
        wanted > 0,
        pool.wf(),
        drain.id() == worker.id(),
        drain.valid(pool@),
        ({
            let before = queues[worker.id()];
            let after = pool@[worker.id()];
            let n = if wanted <= before.items.len() {
                wanted as int
            } else {
                before.items.len() as int
            };
            &&& drain.remaining(pool@).len() == n
            &&& drain.remaining(pool@) + after.items == before.items
            &&& after.held.len() == n
            &&& forall|k: int| 0 <= k < n ==> #[trigger] after.held[k] == Some(before.items[k])
            &&& after.capacity == before.capacity
            &&& after.head == before.head
            &&& pool@.len() == queues.len()
            &&& forall|i: int|
                0 <= i < queues.len() && i != worker.id() ==> #[trigger] pool@[i] == queues[i]
        }),
{
    let before = queues[worker.id()];
    assert(drain.remaining(pool@) + pool@[worker.id()].items =~= before.items);
}

/// A drain starts only where the queue is not busy and not empty, and then with the
/// items that an answer of the counting closure asks for.
pub proof fn lifo_drain_starts_as_the_closure_answered<'id, T, C: FnMut(usize) -> usize>(
    worker: lifo::Worker<'id, T>,
    queues: Seq<QueueView<T>>,
    count_fn: C,
    pool: lifo::Pool<'id, T>,
    drain: lifo::Drain<'id, T>,
)
    requires
        queues[worker.id()].items.len() <= 0x8000_0000,
    ensures
        queues[worker.id()].held.len() > 0 || queues[worker.id()].items.len() == 0
            ==> !worker.can_drain(queues, count_fn, pool, drain),
        queues[worker.id()].held.len() == 0 && queues[worker.id()].items.len() > 0 ==> (
        worker.can_drain(queues, count_fn, pool, drain) <==> exists|wanted: usize, count: nat|
            {
                &&& #[trigger] count_fn.ensures((queues[worker.id()].items.len() as usize,), wanted)
                &&& wanted > 0
                &&& count <= wanted && count <= queues[worker.id()].items.len()
                &&& count == wanted || count == queues[worker.id()].items.len()
                &&& #[trigger] worker.drains(queues, count, pool, drain)
            }),
{
    let queue = queues[worker.id()];
    if worker.can_drain(queues, count_fn, pool, drain) {
        let wanted = choose|wanted: usize| #[trigger]
            queue.asked(count_fn, wanted) && {
                &&& queue.booking(wanted as nat, u32::MAX as nat) matches Ok(count)
                &&& worker.drains(queues, count, pool, drain)
            };
        let count = queue.booking(wanted as nat, u32::MAX as nat)->Ok_0;
        assert(count_fn.ensures((queue.items.len() as usize,), wanted));
        assert(worker.drains(queues, count, pool, drain));
    }
    if exists|wanted: usize, count: nat|
        {
            &&& #[trigger] count_fn.ensures((queue.items.len() as usize,), wanted)
            &&& wanted > 0
            &&& count <= wanted && count <= queue.items.len()
            &&& count == wanted || count == queue.items.len()
            &&& #[trigger] worker.drains(queues, count, pool, drain)
        } {
        let (wanted, count) = choose|wanted: usize, count: nat|
            {
                &&& #[trigger] count_fn.ensures((queue.items.len() as usize,), wanted)
                &&& wanted > 0
                &&& count <= wanted && count <= queue.items.len()
                &&& count == wanted || count == queue.items.len()
                &&& #[trigger] worker.drains(queues, count, pool, drain)
            };
        assert(queue.asked(count_fn, wanted));
    }
}

/// A drain that is dropped with items yet to be moved out, however many it has
/// yielded before, ends its stealing operation: the queue holds no slot any more, its
/// available items are the same, and all other slots are spare. No other queue
/// changes, and nothing does where no item is left.
pub proof fn lifo_dropped_drain_frees_the_queue<'id, T>(
    drain: lifo::Drain<'id, T>,
    queues: Seq<QueueView<T>>,
)
    requires
        drain.valid(queues),
        queues[drain.id()].held.len() + queues[drain.id()].items.len()
            <= queues[drain.id()].capacity,
    ensures
        drain.remaining(queues).len() == 0 ==> drain.ended(queues) == queues,
        drain.remaining(queues).len() > 0 ==> {
            let before = queues[drain.id()];
            let after = drain.ended(queues)[drain.id()];
            &&& before.held.len() > 0
            &&& after.held.len() == 0
            &&& !after.busy()
            &&& after.items == before.items
            &&& after.capacity == before.capacity
            &&& after.spare() == before.capacity - before.items.len()
            &&& after.head == (before.head + before.held.len()) % 0x1_0000_0000
        },
        drain.ended(queues).len() == queues.len(),
        forall|i: int|
            0 <= i < queues.len() && i != drain.id() ==> #[trigger] drain.ended(queues)[i]
                == queues[i],
{
    reveal(crate::position::wrap);
}

/// A drain is the ongoing stealing operation of its queue while it has items yet to
/// be moved out. Those are in the last held slots, in their order, and the held slots
/// before them are empty.
pub proof fn lifo_drain_is_left_with_the_later_items<'id, T>(
    drain: lifo::Drain<'id, T>,
    queues: Seq<QueueView<T>>,
)
    ensures
        drain.valid(queues) <==> {
            let held = queues[drain.id()].held;
            &&& 0 <= drain.id() && drain.id() < queues.len()
            &&& drain.left() != 0 ==> {
                &&& drain.left() <= held.len()
                &&& (queues[drain.id()].head + held.len()) % 0x1_0000_0000 == drain.end()
                &&& forall|k: int|
                    0 <= k < held.len() - drain.left() ==> (#[trigger] held[k]) == None::<T>
                &&& forall|k: int|
                    held.len() - drain.left() <= k < held.len() ==> (#[trigger] held[k]) != None::<
                        T,
                    >
            }
        },
        drain.remaining(queues).len() == drain.left(),
        drain.valid(queues) ==> {
            let held = queues[drain.id()].held;
            forall|k: int|
                0 <= k < drain.left() ==> held[held.len() - drain.left() + k] == Some(
                    #[trigger] drain.remaining(queues)[k],
                )
        },
{
    reveal(crate::position::wrap);
}

/// Two stealers are equal if and only if their queues are the same.
pub proof fn fifo_stealers_are_equal_if_their_queues_are<'id, T>(
    a: fifo::Stealer<'id, T>,
    b: fifo::Stealer<'id, T>,
)
    ensures
        a.eq_spec(&b) <==> a.id() == b.id(),
        fifo::Stealer::<'id, T>::obeys_eq_spec(),
{
}

/// Two stealers are equal if and only if their queues are the same.
pub proof fn lifo_stealers_are_equal_if_their_queues_are<'id, T>(
    a: lifo::Stealer<'id, T>,
    b: lifo::Stealer<'id, T>,
)
    ensures
        a.eq_spec(&b) <==> a.id() == b.id(),
        lifo::Stealer::<'id, T>::obeys_eq_spec(),
{
}

} // verus!
