//! What each operation on a queue returns and leaves behind.
//!
//! The laws here speak of any call of an operation: of its arguments, of its result
//! and of the rows of slots and items before and after it. What they assume of a
//! queue, that the slots in use fit its capacity, holds in any state of a pool.
use vstd::arithmetic::power2::pow2;
use vstd::prelude::*;
use vstd::std_specs::iter::IteratorSpec;

use crate::buffers::Buffer;
use crate::position::capacity_is_smallest_power_of_two;
use crate::{fifo, lifo, StealError};

verus! {

/// A new FIFO queue is the last one in its pool, is empty and has the smallest power of
/// two as its capacity that the requested one fits in. The other queues stay.
pub proof fn fifo_new_queue<'id, T>(min_capacity: usize)
    ensures
        forall|pool: &mut fifo::Pool<'id, T>, worker: fifo::Worker<'id, T>| #[trigger]
            call_ensures(fifo::Worker::<'id, T>::new, (pool, min_capacity), worker) ==> {
                let created = (*final(pool))@[worker.id()];
                &&& worker.id() == (*pool)@.len()
                &&& (*final(pool))@.len() == (*pool)@.len() + 1
                &&& forall|i: int|
                    0 <= i < (*pool)@.len() ==> #[trigger] (*final(pool))@[i] == (*pool)@[i]
                &&& created.held.len() == 0
                &&& created.items.len() == 0
                &&& created.head == 0
                &&& min_capacity <= created.capacity
                &&& exists|e: nat| created.capacity == #[trigger] pow2(e)
                &&& forall|e: nat|
                    min_capacity <= #[trigger] pow2(e) ==> created.capacity <= pow2(e)
            },
{
    capacity_is_smallest_power_of_two(min_capacity as nat);
}

/// What a FIFO worker tells of its queue: its capacity, whether no item is available, and
/// how many slots are neither held nor filled.
pub proof fn fifo_observers<'id, T>(worker: &fifo::Worker<'id, T>, pool: &fifo::Pool<'id, T>)
    requires
        0 <= worker.id() < pool@.len(),
        pool@[worker.id()].held.len() + pool@[worker.id()].items.len()
            <= pool@[worker.id()].capacity,
    ensures
        forall|capacity: usize| #[trigger]
            call_ensures(fifo::Worker::<'id, T>::capacity, (worker, pool), capacity) ==> capacity
                == pool@[worker.id()].capacity,
        forall|empty: bool| #[trigger]
            call_ensures(fifo::Worker::<'id, T>::is_empty, (worker, pool), empty) ==> (empty <==>
                pool@[worker.id()].items.len() == 0),
        forall|spare: usize| #[trigger]
            call_ensures(fifo::Worker::<'id, T>::spare_capacity, (worker, pool), spare) ==> spare
                + pool@[worker.id()].held.len() + pool@[worker.id()].items.len()
                == pool@[worker.id()].capacity,
{
}

/// A push onto a FIFO queue fails if and only if all slots are held or filled, and then
/// gives the item back and changes nothing. Otherwise the item is the newest one, and
/// nothing else has changed.
pub proof fn fifo_push<'id, T>(worker: &fifo::Worker<'id, T>, item: T)
    ensures
        forall|pool: &mut fifo::Pool<'id, T>, result: Result<(), T>|
            {
                let queue = (*pool)@[worker.id()];
                &&& 0 <= worker.id() < (*pool)@.len()
                &&& queue.held.len() + queue.items.len() <= queue.capacity
                &&& #[trigger] call_ensures(
                    fifo::Worker::<'id, T>::push,
                    (worker, pool, item),
                    result,
                )
            } ==> {
                let before = (*pool)@[worker.id()];
                let after = (*final(pool))@[worker.id()];
                &&& result is Ok <==> before.held.len() + before.items.len() < before.capacity
                &&& result is Ok ==> after.items == before.items.push(item)
                &&& result matches Err(returned) ==> returned == item && after.items == before.items
                &&& after.held == before.held
                &&& after.head == before.head
                &&& after.capacity == before.capacity
                &&& (*final(pool))@.len() == (*pool)@.len()
                &&& forall|i: int|
                    0 <= i < (*pool)@.len() && i != worker.id() ==> #[trigger] (*final(pool))@[i]
                        == (*pool)@[i]
            },
{
}

/// Extending a FIFO queue with a well-behaved iterator adds as many of its items, in
/// their order, as there are slots neither held nor filled, or all of them. Nothing
/// else has changed.
pub proof fn fifo_extend<'id, T, I: Iterator<Item = T>>(worker: &fifo::Worker<'id, T>, iter: I)
    requires
        iter.obeys_prophetic_iter_laws(),
    ensures
        forall|pool: &mut fifo::Pool<'id, T>|
            {
                let queue = (*pool)@[worker.id()];
                &&& 0 <= worker.id() < (*pool)@.len()
                &&& queue.held.len() + queue.items.len() <= queue.capacity
                &&& #[trigger] call_ensures(
                    fifo::Worker::<'id, T>::extend::<I>,
                    (worker, pool, iter),
                    (),
                )
            } ==> {
                let before = (*pool)@[worker.id()];
                let after = (*final(pool))@[worker.id()];
                let room = before.capacity - before.held.len() - before.items.len();
                &&& iter.remaining().len() <= room ==> after.items == before.items
                    + iter.remaining()
                &&& iter.remaining().len() > room ==> after.items == before.items
                    + iter.remaining().take(room)
                &&& after.held == before.held
                &&& after.head == before.head
                &&& after.capacity == before.capacity
                &&& (*final(pool))@.len() == (*pool)@.len()
                &&& forall|i: int|
                    0 <= i < (*pool)@.len() && i != worker.id() ==> #[trigger] (*final(pool))@[i]
                        == (*pool)@[i]
            },
{
}

/// Extending a FIFO queue from a borrowed, well-behaved iterator moves its first items to
/// the queue, in their order. It keeps the others, and there are some only if all slots of
/// the queue are held or filled.
pub proof fn fifo_extend_from<'id, T, I: Iterator<Item = T>>(worker: &fifo::Worker<'id, T>)
    ensures
        forall|pool: &mut fifo::Pool<'id, T>, iter: &mut I|
            {
                let queue = (*pool)@[worker.id()];
                &&& 0 <= worker.id() < (*pool)@.len()
                &&& queue.held.len() + queue.items.len() <= queue.capacity
                &&& (*iter).obeys_prophetic_iter_laws()
                &&& #[trigger] call_ensures(
                    fifo::Worker::<'id, T>::extend_from::<I>,
                    (worker, pool, iter),
                    (),
                )
            } ==> {
                let before = (*pool)@[worker.id()];
                let after = (*final(pool))@[worker.id()];
                let rest = (*final(iter)).remaining();
                &&& (*final(iter)).obeys_prophetic_iter_laws()
                &&& after.items + rest == before.items + (*iter).remaining()
                &&& after.items.len() >= before.items.len()
                &&& after.held.len() + after.items.len() <= after.capacity
                &&& rest.len() > 0 ==> after.held.len() + after.items.len() == after.capacity
                &&& after.held == before.held
                &&& after.head == before.head
                &&& after.capacity == before.capacity
                &&& (*final(pool))@.len() == (*pool)@.len()
                &&& forall|i: int|
                    0 <= i < (*pool)@.len() && i != worker.id() ==> #[trigger] (*final(pool))@[i]
                        == (*pool)@[i]
            },
{
}

/// A stealer is busy if and only if slots of its queue are held. Otherwise it steals as
/// many items as the closure answered to the number of available ones, limited by the
/// room in the destination and by that number alone, and the queue counts as empty if
/// that is none. The stolen items are the oldest ones, and end up behind the items of
/// the destination in their order. An error changes nothing.
pub proof fn fifo_steal<'id, T, C: FnMut(usize) -> usize>(
    stealer: &fifo::Stealer<'id, T>,
    dest: &fifo::Worker<'id, T>,
    count_fn: C,
)
    ensures
        forall|pool: &mut fifo::Pool<'id, T>, result: Result<usize, StealError>|
            {
                let queue = (*pool)@[stealer.id()];
                let target = (*pool)@[dest.id()];
                &&& 0 <= stealer.id() < (*pool)@.len()
                &&& 0 <= dest.id() < (*pool)@.len()
                &&& queue.held.len() + queue.items.len() <= queue.capacity
                &&& queue.capacity <= 0x8000_0000
                &&& target.held.len() + target.items.len() <= target.capacity
                &&& #[trigger] call_ensures(
                    fifo::Stealer::<'id, T>::steal::<C>,
                    (stealer, pool, dest, count_fn),
                    result,
                )
            } ==> {
                let before = (*pool)@[stealer.id()];
                let target = (*pool)@[dest.id()];
                let after = (*final(pool))@[stealer.id()];
                let target_after = (*final(pool))@[dest.id()];
                let n = before.items.len();
                let room = target.capacity - target.held.len() - target.items.len();
                &&& result == Err::<usize, StealError>(StealError::Busy) <==> before.held.len() > 0
                &&& before.held.len() == 0 && n == 0 ==> result == Err::<usize, StealError>(
                    StealError::Empty,
                )
                &&& before.held.len() == 0 && n > 0 ==> exists|wanted: usize|
                    {
                        &&& #[trigger] count_fn.ensures((n as usize,), wanted)
                        &&& wanted == 0 || room == 0 <==> result == Err::<usize, StealError>(
                            StealError::Empty,
                        )
                        &&& result matches Ok(count) ==> {
                            &&& count <= wanted && count <= room && count <= n
                            &&& count == wanted || count == room || count == n
                        }
                    }
                &&& result is Err ==> (*final(pool))@ == (*pool)@
                &&& result matches Ok(count) ==> {
                    let moved = before.items.take(count as int);
                    &&& 0 < count <= n
                    &&& stealer.id() != dest.id() ==> moved + after.items == before.items
                    &&& stealer.id() != dest.id() ==> target_after.items == target.items + moved
                    &&& stealer.id() == dest.id() ==> moved + after.items == before.items + moved
                    &&& after.head == (before.head + count) % 0x1_0000_0000
                    &&& stealer.id() != dest.id() ==> target_after.head == target.head
                }
                &&& after.held == before.held
                &&& target_after.held == target.held
                &&& after.capacity == before.capacity
                &&& target_after.capacity == target.capacity
                &&& (*final(pool))@.len() == (*pool)@.len()
                &&& forall|i: int|
                    0 <= i < (*pool)@.len() && i != stealer.id() && i != dest.id()
                        ==> #[trigger] (*final(pool))@[i] == (*pool)@[i]
            },
{
    reveal(crate::position::wrap);
}

/// A stealer that returns an item directly is busy if and only if slots of its queue are
/// held. Otherwise it steals as many items as the closure answered to the number of
/// available ones, limited by one more than the room in the destination and by that
/// number alone, and the queue counts as empty if that is none. The stolen items are the
/// oldest ones: the last of them is returned and the others end up behind the items of
/// the destination in their order. An error changes nothing.
pub proof fn fifo_steal_and_pop<'id, T, C: FnMut(usize) -> usize>(
    stealer: &fifo::Stealer<'id, T>,
    dest: &fifo::Worker<'id, T>,
    count_fn: C,
)
    ensures
        forall|pool: &mut fifo::Pool<'id, T>, result: Result<(T, usize), StealError>|
            {
                let queue = (*pool)@[stealer.id()];
                let target = (*pool)@[dest.id()];
                &&& 0 <= stealer.id() < (*pool)@.len()
                &&& 0 <= dest.id() < (*pool)@.len()
                &&& queue.held.len() + queue.items.len() <= queue.capacity
                &&& queue.capacity <= 0x8000_0000
                &&& target.held.len() + target.items.len() <= target.capacity
                &&& #[trigger] call_ensures(
                    fifo::Stealer::<'id, T>::steal_and_pop::<C>,
                    (stealer, pool, dest, count_fn),
                    result,
                )
            } ==> {
                let before = (*pool)@[stealer.id()];
                let target = (*pool)@[dest.id()];
                let after = (*final(pool))@[stealer.id()];
                let target_after = (*final(pool))@[dest.id()];
                let n = before.items.len();
                let room = target.capacity - target.held.len() - target.items.len();
                &&& result == Err::<(T, usize), StealError>(StealError::Busy) <==> before.held.len()
                    > 0
                &&& before.held.len() == 0 && n == 0 ==> result == Err::<(T, usize), StealError>(
                    StealError::Empty,
                )
                &&& before.held.len() == 0 && n > 0 ==> exists|wanted: usize|
                    {
                        &&& #[trigger] count_fn.ensures((n as usize,), wanted)
                        &&& wanted == 0 <==> result == Err::<(T, usize), StealError>(
                            StealError::Empty,
                        )
                        &&& result matches Ok((item, count)) ==> {
                            &&& count < wanted && count <= room && count < n
                            &&& count + 1 == wanted || count == room || count + 1 == n
                        }
                    }
                &&& result is Err ==> (*final(pool))@ == (*pool)@
                &&& result matches Ok((item, count)) ==> {
                    let moved = before.items.take(count as int);
                    &&& count < n
                    &&& item == before.items[count as int]
                    &&& stealer.id() != dest.id() ==> moved.push(item) + after.items == before.items
                    &&& stealer.id() != dest.id() ==> target_after.items == target.items + moved
                    &&& stealer.id() == dest.id() ==> moved.push(item) + after.items == before.items
                        + moved
                    &&& after.head == (before.head + count + 1) % 0x1_0000_0000
                    &&& stealer.id() != dest.id() ==> target_after.head == target.head
                }
                &&& after.held == before.held
                &&& target_after.held == target.held
                &&& after.capacity == before.capacity
                &&& target_after.capacity == target.capacity
                &&& (*final(pool))@.len() == (*pool)@.len()
                &&& forall|i: int|
                    0 <= i < (*pool)@.len() && i != stealer.id() && i != dest.id()
                        ==> #[trigger] (*final(pool))@[i] == (*pool)@[i]
            },
{
    reveal(crate::position::wrap);
}

/// A FIFO drain is busy if and only if slots of the queue are held. Otherwise it holds as
/// many items as the closure answered to the number of available ones, or all of them if
/// those are fewer, and the queue counts as empty if that is none. They are the oldest
/// ones, in their order, and the others stay available. What the drain has not moved out
/// at the end is dropped: no slot is held any more and the available items are those that
/// were available before. An error changes nothing.
#[verifier::rlimit(60)]
#[verifier::spinoff_prover]
pub proof fn fifo_drain<
    'id,
    T,
    R,
    C: FnMut(usize) -> usize,
    F: FnOnce(&mut fifo::Pool<'id, T>, &mut fifo::Drain<'id, T>) -> R,
>(worker: &fifo::Worker<'id, T>, count_fn: C, f: F)
    ensures
        forall|pool: &mut fifo::Pool<'id, T>, result: Result<R, StealError>|
            {
                let queue = (*pool)@[worker.id()];
                &&& 0 <= worker.id() < (*pool)@.len()
                &&& queue.held.len() + queue.items.len() <= queue.capacity
                &&& queue.capacity <= 0x8000_0000
                &&& #[trigger] call_ensures(
                    fifo::Worker::<'id, T>::drain::<R, C, F>,
                    (worker, pool, count_fn, f),
                    result,
                )
            } ==> {
                let before = (*pool)@[worker.id()];
                let n = before.items.len();
                &&& result == Err::<R, StealError>(StealError::Busy) <==> before.held.len() > 0
                &&& before.held.len() == 0 && n == 0 ==> result == Err::<R, StealError>(
                    StealError::Empty,
                )
                &&& result is Err ==> (*final(pool))@ == (*pool)@
                &&& before.held.len() == 0 && n > 0 ==> exists|wanted: usize|
                    {
                        &&& #[trigger] count_fn.ensures((n as usize,), wanted)
                        &&& wanted == 0 <==> result == Err::<R, StealError>(StealError::Empty)
                        &&& result matches Ok(returned) ==> exists|
                            p: &mut fifo::Pool<'id, T>,
                            d: &mut fifo::Drain<'id, T>,
                        |
                            {
                                let started = (*p)@[worker.id()];
                                let count = (*d).remaining((*p)@).len();
                                &&& #[trigger] f.ensures((p, d), returned)
                                &&& (*p)@.len() == (*pool)@.len()
                                &&& forall|i: int|
                                    0 <= i < (*pool)@.len() && i != worker.id()
                                        ==> #[trigger] (*p)@[i] == (*pool)@[i]
                                &&& (*d).id() == worker.id()
                                &&& count <= wanted && count <= n
                                &&& count == wanted || count == n
                                &&& (*d).remaining((*p)@) + started.items == before.items
                                &&& started.held.len() == count
                                &&& forall|k: int|
                                    0 <= k < count ==> #[trigger] started.held[k] == Some(
                                        before.items[k],
                                    )
                                &&& started.head == before.head
                                &&& started.capacity == before.capacity
                                &&& (*final(d)).valid((*final(p))@) ==> {
                                    let left = (*final(d)).remaining((*final(p))@);
                                    let last = (*final(p))@[(*final(d)).id()];
                                    let end = (*final(pool))@[(*final(d)).id()];
                                    &&& left.len() == 0 ==> (*final(pool))@ == (*final(p))@
                                    &&& left.len() > 0 ==> {
                                        &&& end.held.len() == 0
                                        &&& end.items == last.items
                                        &&& end.capacity == last.capacity
                                        &&& end.head == (last.head + last.held.len())
                                            % 0x1_0000_0000
                                    }
                                    &&& (*final(pool))@.len() == (*final(p))@.len()
                                    &&& forall|i: int|
                                        0 <= i < (*final(p))@.len() && i != (*final(d)).id()
                                            ==> #[trigger] (*final(pool))@[i] == (*final(p))@[i]
                                }
                            }
                    }
            },
{
    reveal(crate::position::wrap);
}

/// A FIFO drain yields the items that it is yet to move out, one by one in their order.
/// With the last one, no slot of the queue is held any more. Until then all of them are
/// held. The available items stay the same, and nothing changes once no item is left.
pub proof fn fifo_drain_next<'id, T>()
    ensures
        forall|drain: &mut fifo::Drain<'id, T>, pool: &mut fifo::Pool<'id, T>, next: Option<T>|
            {
                &&& (*drain).valid((*pool)@)
                &&& #[trigger] call_ensures(fifo::Drain::<'id, T>::next, (drain, pool), next)
            } ==> {
                let before = (*pool)@[(*drain).id()];
                let after = (*final(pool))@[(*drain).id()];
                let remaining = (*drain).remaining((*pool)@);
                let left = (*final(drain)).remaining((*final(pool))@);
                &&& (*final(drain)).id() == (*drain).id()
                &&& (*final(drain)).valid((*final(pool))@)
                &&& next is None <==> remaining.len() == 0
                &&& next is None ==> (*final(pool))@ == (*pool)@ && left.len() == 0
                &&& next matches Some(item) ==> seq![item] + left == remaining
                &&& remaining.len() == 1 ==> {
                    &&& after.held.len() == 0
                    &&& after.head == (before.head + before.held.len()) % 0x1_0000_0000
                }
                &&& remaining.len() > 1 ==> {
                    &&& after.held.len() == before.held.len()
                    &&& after.head == before.head
                }
                &&& after.items == before.items
                &&& after.capacity == before.capacity
                &&& (*final(pool))@.len() == (*pool)@.len()
                &&& forall|i: int|
                    0 <= i < (*pool)@.len() && i != (*drain).id() ==> #[trigger] (*final(pool))@[i]
                        == (*pool)@[i]
            },
{
    reveal(crate::position::wrap);
}

/// Dropping a FIFO drain with items yet to be moved out, however many it has yielded
/// before, ends its stealing operation: no slot of the queue is held any more and the
/// available items stay the same. Without such items nothing changes.
pub proof fn fifo_drain_drop<'id, T>()
    ensures
        forall|drain: &mut fifo::Drain<'id, T>, pool: &mut fifo::Pool<'id, T>|
            {
                &&& (*drain).valid((*pool)@)
                &&& #[trigger] call_ensures(fifo::Drain::<'id, T>::drop, (drain, pool), ())
            } ==> {
                let before = (*pool)@[(*drain).id()];
                let after = (*final(pool))@[(*drain).id()];
                let remaining = (*drain).remaining((*pool)@);
                &&& (*final(drain)).id() == (*drain).id()
                &&& (*final(drain)).remaining((*final(pool))@).len() == 0
                &&& remaining.len() == 0 ==> (*final(pool))@ == (*pool)@
                &&& remaining.len() > 0 ==> {
                    &&& after.held.len() == 0
                    &&& after.head == (before.head + before.held.len()) % 0x1_0000_0000
                }
                &&& after.items == before.items
                &&& after.capacity == before.capacity
                &&& (*final(pool))@.len() == (*pool)@.len()
                &&& forall|i: int|
                    0 <= i < (*pool)@.len() && i != (*drain).id() ==> #[trigger] (*final(pool))@[i]
                        == (*pool)@[i]
            },
{
    reveal(crate::position::wrap);
}

/// A FIFO drain tells how many items it is yet to move out.
pub proof fn fifo_drain_size_hint<'id, T>(
    drain: &fifo::Drain<'id, T>,
    pool: &fifo::Pool<'id, T>,
    hint: (usize, Option<usize>),
)
    requires
        drain.valid(pool@),
        call_ensures(fifo::Drain::<'id, T>::size_hint, (drain,), hint),
    ensures
        hint.0 == drain.remaining(pool@).len(),
        hint.1 == Some(hint.0),
{
}

/// A FIFO stealer made from a worker, or cloned from a stealer, has the same queue.
pub proof fn fifo_stealers<'id, T>(worker: &fifo::Worker<'id, T>, stealer: &fifo::Stealer<'id, T>)
    ensures
        forall|made: fifo::Stealer<'id, T>| #[trigger]
            call_ensures(fifo::Worker::<'id, T>::stealer, (worker,), made) ==> made.id()
                == worker.id(),
        forall|made: &fifo::Stealer<'id, T>| #[trigger]
            call_ensures(fifo::Worker::<'id, T>::stealer_ref, (worker,), made) ==> made.id()
                == worker.id(),
        forall|made: fifo::Stealer<'id, T>| #[trigger]
            call_ensures(<fifo::Stealer<'id, T> as Clone>::clone, (stealer,), made) ==> made.id()
                == stealer.id(),
{
}

/// A pop from a FIFO queue returns the oldest available item, if there is one. Its slot is
/// held as long as slots before it are, and is spare at once if none is.
pub proof fn fifo_pop<'id, T>(worker: &fifo::Worker<'id, T>)
    ensures
        forall|pool: &mut fifo::Pool<'id, T>, popped: Option<T>|
            {
                &&& 0 <= worker.id() < (*pool)@.len()
                &&& #[trigger] call_ensures(fifo::Worker::<'id, T>::pop, (worker, pool), popped)
            } ==> {
                let before = (*pool)@[worker.id()];
                let after = (*final(pool))@[worker.id()];
                &&& popped is None <==> before.items.len() == 0
                &&& popped is None ==> (*final(pool))@ == (*pool)@
                &&& popped matches Some(item) ==> {
                    &&& seq![item] + after.items == before.items
                    &&& before.held.len() == 0 ==> {
                        &&& after.held.len() == 0
                        &&& after.head == (before.head + 1) % 0x1_0000_0000
                    }
                    &&& before.held.len() > 0 ==> {
                        &&& after.held == before.held.push(None)
                        &&& after.head == before.head
                    }
                }
                &&& after.capacity == before.capacity
                &&& (*final(pool))@.len() == (*pool)@.len()
                &&& forall|i: int|
                    0 <= i < (*pool)@.len() && i != worker.id() ==> #[trigger] (*final(pool))@[i]
                        == (*pool)@[i]
            },
{
    reveal(crate::position::wrap);
}

/// A worker tells whether its queue is that of a stealer.
pub proof fn fifo_is_same_as<'id, T>(
    worker: &fifo::Worker<'id, T>,
    stealer: &fifo::Stealer<'id, T>,
    same: bool,
)
    requires
        call_ensures(fifo::Worker::<'id, T>::is_same_as, (worker, stealer), same),
    ensures
        same <==> worker.id() == stealer.id(),
{
}

/// A new LIFO queue is the last one in its pool, is empty and has the smallest power of
/// two as its capacity that the requested one fits in. The other queues stay.
pub proof fn lifo_new_queue<'id, T>(min_capacity: usize)
    ensures
        forall|pool: &mut lifo::Pool<'id, T>, worker: lifo::Worker<'id, T>| #[trigger]
            call_ensures(lifo::Worker::<'id, T>::new, (pool, min_capacity), worker) ==> {
                let created = (*final(pool))@[worker.id()];
                &&& worker.id() == (*pool)@.len()
                &&& (*final(pool))@.len() == (*pool)@.len() + 1
                &&& forall|i: int|
                    0 <= i < (*pool)@.len() ==> #[trigger] (*final(pool))@[i] == (*pool)@[i]
                &&& created.held.len() == 0
                &&& created.items.len() == 0
                &&& created.head == 0
                &&& min_capacity <= created.capacity
                &&& exists|e: nat| created.capacity == #[trigger] pow2(e)
                &&& forall|e: nat|
                    min_capacity <= #[trigger] pow2(e) ==> created.capacity <= pow2(e)
            },
{
    capacity_is_smallest_power_of_two(min_capacity as nat);
}

/// What a LIFO worker tells of its queue: its capacity, whether no item is available, and
/// how many slots are neither held nor filled.
pub proof fn lifo_observers<'id, T>(worker: &lifo::Worker<'id, T>, pool: &lifo::Pool<'id, T>)
    requires
        0 <= worker.id() < pool@.len(),
        pool@[worker.id()].held.len() + pool@[worker.id()].items.len()
            <= pool@[worker.id()].capacity,
    ensures
        forall|capacity: usize| #[trigger]
            call_ensures(lifo::Worker::<'id, T>::capacity, (worker, pool), capacity) ==> capacity
                == pool@[worker.id()].capacity,
        forall|empty: bool| #[trigger]
            call_ensures(lifo::Worker::<'id, T>::is_empty, (worker, pool), empty) ==> (empty <==>
                pool@[worker.id()].items.len() == 0),
        forall|spare: usize| #[trigger]
            call_ensures(lifo::Worker::<'id, T>::spare_capacity, (worker, pool), spare) ==> spare
                + pool@[worker.id()].held.len() + pool@[worker.id()].items.len()
                == pool@[worker.id()].capacity,
{
}

/// A push onto a LIFO queue fails if and only if all slots are held or filled, and then
/// gives the item back and changes nothing. Otherwise the item is the newest one, and
/// nothing else has changed.
pub proof fn lifo_push<'id, T>(worker: &lifo::Worker<'id, T>, item: T)
    ensures
        forall|pool: &mut lifo::Pool<'id, T>, result: Result<(), T>|
            {
                let queue = (*pool)@[worker.id()];
                &&& 0 <= worker.id() < (*pool)@.len()
                &&& queue.held.len() + queue.items.len() <= queue.capacity
                &&& #[trigger] call_ensures(
                    lifo::Worker::<'id, T>::push,
                    (worker, pool, item),
                    result,
                )
            } ==> {
                let before = (*pool)@[worker.id()];
                let after = (*final(pool))@[worker.id()];
                &&& result is Ok <==> before.held.len() + before.items.len() < before.capacity
                &&& result is Ok ==> after.items == before.items.push(item)
                &&& result matches Err(returned) ==> returned == item && after.items == before.items
                &&& after.held == before.held
                &&& after.head == before.head
                &&& after.capacity == before.capacity
                &&& (*final(pool))@.len() == (*pool)@.len()
                &&& forall|i: int|
                    0 <= i < (*pool)@.len() && i != worker.id() ==> #[trigger] (*final(pool))@[i]
                        == (*pool)@[i]
            },
{
}

/// Extending a LIFO queue with a well-behaved iterator adds as many of its items, in
/// their order, as there are slots neither held nor filled, or all of them. Nothing
/// else has changed.
pub proof fn lifo_extend<'id, T, I: Iterator<Item = T>>(worker: &lifo::Worker<'id, T>, iter: I)
    requires
        iter.obeys_prophetic_iter_laws(),
    ensures
        forall|pool: &mut lifo::Pool<'id, T>|
            {
                let queue = (*pool)@[worker.id()];
                &&& 0 <= worker.id() < (*pool)@.len()
                &&& queue.held.len() + queue.items.len() <= queue.capacity
                &&& #[trigger] call_ensures(
                    lifo::Worker::<'id, T>::extend::<I>,
                    (worker, pool, iter),
                    (),
                )
            } ==> {
                let before = (*pool)@[worker.id()];
                let after = (*final(pool))@[worker.id()];
                let room = before.capacity - before.held.len() - before.items.len();
                &&& iter.remaining().len() <= room ==> after.items == before.items
                    + iter.remaining()
                &&& iter.remaining().len() > room ==> after.items == before.items
                    + iter.remaining().take(room)
                &&& after.held == before.held
                &&& after.head == before.head
                &&& after.capacity == before.capacity
                &&& (*final(pool))@.len() == (*pool)@.len()
                &&& forall|i: int|
                    0 <= i < (*pool)@.len() && i != worker.id() ==> #[trigger] (*final(pool))@[i]
                        == (*pool)@[i]
            },
{
}

/// Extending a LIFO queue from a borrowed, well-behaved iterator moves its first items to
/// the queue, in their order. It keeps the others, and there are some only if all slots of
/// the queue are held or filled.
pub proof fn lifo_extend_from<'id, T, I: Iterator<Item = T>>(worker: &lifo::Worker<'id, T>)
    ensures
        forall|pool: &mut lifo::Pool<'id, T>, iter: &mut I|
            {
                let queue = (*pool)@[worker.id()];
                &&& 0 <= worker.id() < (*pool)@.len()
                &&& queue.held.len() + queue.items.len() <= queue.capacity
                &&& (*iter).obeys_prophetic_iter_laws()
                &&& #[trigger] call_ensures(
                    lifo::Worker::<'id, T>::extend_from::<I>,
                    (worker, pool, iter),
                    (),
                )
            } ==> {
                let before = (*pool)@[worker.id()];
                let after = (*final(pool))@[worker.id()];
                let rest = (*final(iter)).remaining();
                &&& (*final(iter)).obeys_prophetic_iter_laws()
                &&& after.items + rest == before.items + (*iter).remaining()
                &&& after.items.len() >= before.items.len()
                &&& after.held.len() + after.items.len() <= after.capacity
                &&& rest.len() > 0 ==> after.held.len() + after.items.len() == after.capacity
                &&& after.held == before.held
                &&& after.head == before.head
                &&& after.capacity == before.capacity
                &&& (*final(pool))@.len() == (*pool)@.len()
                &&& forall|i: int|
                    0 <= i < (*pool)@.len() && i != worker.id() ==> #[trigger] (*final(pool))@[i]
                        == (*pool)@[i]
            },
{
}

/// A stealer is busy if and only if slots of its queue are held. Otherwise it steals as
/// many items as the closure answered to the number of available ones, limited by the
/// room in the destination and by that number alone, and the queue counts as empty if
/// that is none. The stolen items are the oldest ones, and end up behind the items of
/// the destination in their order. An error changes nothing.
pub proof fn lifo_steal<'id, T, C: FnMut(usize) -> usize>(
    stealer: &lifo::Stealer<'id, T>,
    dest: &lifo::Worker<'id, T>,
    count_fn: C,
)
    ensures
        forall|pool: &mut lifo::Pool<'id, T>, result: Result<usize, StealError>|
            {
                let queue = (*pool)@[stealer.id()];
                let target = (*pool)@[dest.id()];
                &&& 0 <= stealer.id() < (*pool)@.len()
                &&& 0 <= dest.id() < (*pool)@.len()
                &&& queue.held.len() + queue.items.len() <= queue.capacity
                &&& queue.capacity <= 0x8000_0000
                &&& target.held.len() + target.items.len() <= target.capacity
                &&& #[trigger] call_ensures(
                    lifo::Stealer::<'id, T>::steal::<C>,
                    (stealer, pool, dest, count_fn),
                    result,
                )
            } ==> {
                let before = (*pool)@[stealer.id()];
                let target = (*pool)@[dest.id()];
                let after = (*final(pool))@[stealer.id()];
                let target_after = (*final(pool))@[dest.id()];
                let n = before.items.len();
                let room = target.capacity - target.held.len() - target.items.len();
                &&& result == Err::<usize, StealError>(StealError::Busy) <==> before.held.len() > 0
                &&& before.held.len() == 0 && n == 0 ==> result == Err::<usize, StealError>(
                    StealError::Empty,
                )
                &&& before.held.len() == 0 && n > 0 ==> exists|wanted: usize|
                    {
                        &&& #[trigger] count_fn.ensures((n as usize,), wanted)
                        &&& wanted == 0 || room == 0 <==> result == Err::<usize, StealError>(
                            StealError::Empty,
                        )
                        &&& result matches Ok(count) ==> {
                            &&& count <= wanted && count <= room && count <= n
                            &&& count == wanted || count == room || count == n
                        }
                    }
                &&& result is Err ==> (*final(pool))@ == (*pool)@
                &&& result matches Ok(count) ==> {
                    let moved = before.items.take(count as int);
                    &&& 0 < count <= n
                    &&& stealer.id() != dest.id() ==> moved + after.items == before.items
                    &&& stealer.id() != dest.id() ==> target_after.items == target.items + moved
                    &&& stealer.id() == dest.id() ==> moved + after.items == before.items + moved
                    &&& after.head == (before.head + count) % 0x1_0000_0000
                    &&& stealer.id() != dest.id() ==> target_after.head == target.head
                }
                &&& after.held == before.held
                &&& target_after.held == target.held
                &&& after.capacity == before.capacity
                &&& target_after.capacity == target.capacity
                &&& (*final(pool))@.len() == (*pool)@.len()
                &&& forall|i: int|
                    0 <= i < (*pool)@.len() && i != stealer.id() && i != dest.id()
                        ==> #[trigger] (*final(pool))@[i] == (*pool)@[i]
            },
{
    reveal(crate::position::wrap);
}

/// A stealer that returns an item directly is busy if and only if slots of its queue are
/// held. Otherwise it steals as many items as the closure answered to the number of
/// available ones, limited by one more than the room in the destination and by that
/// number alone, and the queue counts as empty if that is none. The stolen items are the
/// oldest ones: the last of them is returned and the others end up behind the items of
/// the destination in their order. An error changes nothing.
pub proof fn lifo_steal_and_pop<'id, T, C: FnMut(usize) -> usize>(
    stealer: &lifo::Stealer<'id, T>,
    dest: &lifo::Worker<'id, T>,
    count_fn: C,
)
    ensures
        forall|pool: &mut lifo::Pool<'id, T>, result: Result<(T, usize), StealError>|
            {
                let queue = (*pool)@[stealer.id()];
                let target = (*pool)@[dest.id()];
                &&& 0 <= stealer.id() < (*pool)@.len()
                &&& 0 <= dest.id() < (*pool)@.len()
                &&& queue.held.len() + queue.items.len() <= queue.capacity
                &&& queue.capacity <= 0x8000_0000
                &&& target.held.len() + target.items.len() <= target.capacity
                &&& #[trigger] call_ensures(
                    lifo::Stealer::<'id, T>::steal_and_pop::<C>,
                    (stealer, pool, dest, count_fn),
                    result,
                )
            } ==> {
                let before = (*pool)@[stealer.id()];
                let target = (*pool)@[dest.id()];
                let after = (*final(pool))@[stealer.id()];
                let target_after = (*final(pool))@[dest.id()];
                let n = before.items.len();
                let room = target.capacity - target.held.len() - target.items.len();
                &&& result == Err::<(T, usize), StealError>(StealError::Busy) <==> before.held.len()
                    > 0
                &&& before.held.len() == 0 && n == 0 ==> result == Err::<(T, usize), StealError>(
                    StealError::Empty,
                )
                &&& before.held.len() == 0 && n > 0 ==> exists|wanted: usize|
                    {
                        &&& #[trigger] count_fn.ensures((n as usize,), wanted)
                        &&& wanted == 0 <==> result == Err::<(T, usize), StealError>(
                            StealError::Empty,
                        )
                        &&& result matches Ok((item, count)) ==> {
                            &&& count < wanted && count <= room && count < n
                            &&& count + 1 == wanted || count == room || count + 1 == n
                        }
                    }
                &&& result is Err ==> (*final(pool))@ == (*pool)@
                &&& result matches Ok((item, count)) ==> {
                    let moved = before.items.take(count as int);
                    &&& count < n
                    &&& item == before.items[count as int]
                    &&& stealer.id() != dest.id() ==> moved.push(item) + after.items == before.items
                    &&& stealer.id() != dest.id() ==> target_after.items == target.items + moved
                    &&& stealer.id() == dest.id() ==> moved.push(item) + after.items == before.items
                        + moved
                    &&& after.head == (before.head + count + 1) % 0x1_0000_0000
                    &&& stealer.id() != dest.id() ==> target_after.head == target.head
                }
                &&& after.held == before.held
                &&& target_after.held == target.held
                &&& after.capacity == before.capacity
                &&& target_after.capacity == target.capacity
                &&& (*final(pool))@.len() == (*pool)@.len()
                &&& forall|i: int|
                    0 <= i < (*pool)@.len() && i != stealer.id() && i != dest.id()
                        ==> #[trigger] (*final(pool))@[i] == (*pool)@[i]
            },
{
    reveal(crate::position::wrap);
}

/// A LIFO drain is busy if and only if slots of the queue are held. Otherwise it holds as
/// many items as the closure answered to the number of available ones, or all of them if
/// those are fewer, and the queue counts as empty if that is none. They are the oldest
/// ones, in their order, and the others stay available. What the drain has not moved out
/// at the end is dropped: no slot is held any more and the available items are those that
/// were available before. An error changes nothing.
#[verifier::rlimit(60)]
#[verifier::spinoff_prover]
pub proof fn lifo_drain<
    'id,
    T,
    R,
    C: FnMut(usize) -> usize,
    F: FnOnce(&mut lifo::Pool<'id, T>, &mut lifo::Drain<'id, T>) -> R,
>(worker: &lifo::Worker<'id, T>, count_fn: C, f: F)
    ensures
        forall|pool: &mut lifo::Pool<'id, T>, result: Result<R, StealError>|
            {
                let queue = (*pool)@[worker.id()];
                &&& 0 <= worker.id() < (*pool)@.len()
                &&& queue.held.len() + queue.items.len() <= queue.capacity
                &&& queue.capacity <= 0x8000_0000
                &&& #[trigger] call_ensures(
                    lifo::Worker::<'id, T>::drain::<R, C, F>,
                    (worker, pool, count_fn, f),
                    result,
                )
            } ==> {
                let before = (*pool)@[worker.id()];
                let n = before.items.len();
                &&& result == Err::<R, StealError>(StealError::Busy) <==> before.held.len() > 0
                &&& before.held.len() == 0 && n == 0 ==> result == Err::<R, StealError>(
                    StealError::Empty,
                )
                &&& result is Err ==> (*final(pool))@ == (*pool)@
                &&& before.held.len() == 0 && n > 0 ==> exists|wanted: usize|
                    {
                        &&& #[trigger] count_fn.ensures((n as usize,), wanted)
                        &&& wanted == 0 <==> result == Err::<R, StealError>(StealError::Empty)
                        &&& result matches Ok(returned) ==> exists|
                            p: &mut lifo::Pool<'id, T>,
                            d: &mut lifo::Drain<'id, T>,
                        |
                            {
                                let started = (*p)@[worker.id()];
                                let count = (*d).remaining((*p)@).len();
                                &&& #[trigger] f.ensures((p, d), returned)
                                &&& (*p)@.len() == (*pool)@.len()
                                &&& forall|i: int|
                                    0 <= i < (*pool)@.len() && i != worker.id()
                                        ==> #[trigger] (*p)@[i] == (*pool)@[i]
                                &&& (*d).id() == worker.id()
                                &&& count <= wanted && count <= n
                                &&& count == wanted || count == n
                                &&& (*d).remaining((*p)@) + started.items == before.items
                                &&& started.held.len() == count
                                &&& forall|k: int|
                                    0 <= k < count ==> #[trigger] started.held[k] == Some(
                                        before.items[k],
                                    )
                                &&& started.head == before.head
                                &&& started.capacity == before.capacity
                                &&& (*final(d)).valid((*final(p))@) ==> {
                                    let left = (*final(d)).remaining((*final(p))@);
                                    let last = (*final(p))@[(*final(d)).id()];
                                    let end = (*final(pool))@[(*final(d)).id()];
                                    &&& left.len() == 0 ==> (*final(pool))@ == (*final(p))@
                                    &&& left.len() > 0 ==> {
                                        &&& end.held.len() == 0
                                        &&& end.items == last.items
                                        &&& end.capacity == last.capacity
                                        &&& end.head == (last.head + last.held.len())
                                            % 0x1_0000_0000
                                    }
                                    &&& (*final(pool))@.len() == (*final(p))@.len()
                                    &&& forall|i: int|
                                        0 <= i < (*final(p))@.len() && i != (*final(d)).id()
                                            ==> #[trigger] (*final(pool))@[i] == (*final(p))@[i]
                                }
                            }
                    }
            },
{
    reveal(crate::position::wrap);
}

/// A LIFO drain yields the items that it is yet to move out, one by one in their order.
/// With the last one, no slot of the queue is held any more. Until then all of them are
/// held. The available items stay the same, and nothing changes once no item is left.
pub proof fn lifo_drain_next<'id, T>()
    ensures
        forall|drain: &mut lifo::Drain<'id, T>, pool: &mut lifo::Pool<'id, T>, next: Option<T>|
            {
                &&& (*drain).valid((*pool)@)
                &&& #[trigger] call_ensures(lifo::Drain::<'id, T>::next, (drain, pool), next)
            } ==> {
                let before = (*pool)@[(*drain).id()];
                let after = (*final(pool))@[(*drain).id()];
                let remaining = (*drain).remaining((*pool)@);
                let left = (*final(drain)).remaining((*final(pool))@);
                &&& (*final(drain)).id() == (*drain).id()
                &&& (*final(drain)).valid((*final(pool))@)
                &&& next is None <==> remaining.len() == 0
                &&& next is None ==> (*final(pool))@ == (*pool)@ && left.len() == 0
                &&& next matches Some(item) ==> seq![item] + left == remaining
                &&& remaining.len() == 1 ==> {
                    &&& after.held.len() == 0
                    &&& after.head == (before.head + before.held.len()) % 0x1_0000_0000
                }
                &&& remaining.len() > 1 ==> {
                    &&& after.held.len() == before.held.len()
                    &&& after.head == before.head
                }
                &&& after.items == before.items
                &&& after.capacity == before.capacity
                &&& (*final(pool))@.len() == (*pool)@.len()
                &&& forall|i: int|
                    0 <= i < (*pool)@.len() && i != (*drain).id() ==> #[trigger] (*final(pool))@[i]
                        == (*pool)@[i]
            },
{
    reveal(crate::position::wrap);
}

/// Dropping a LIFO drain with items yet to be moved out, however many it has yielded
/// before, ends its stealing operation: no slot of the queue is held any more and the
/// available items stay the same. Without such items nothing changes.
pub proof fn lifo_drain_drop<'id, T>()
    ensures
        forall|drain: &mut lifo::Drain<'id, T>, pool: &mut lifo::Pool<'id, T>|
            {
                &&& (*drain).valid((*pool)@)
                &&& #[trigger] call_ensures(lifo::Drain::<'id, T>::drop, (drain, pool), ())
            } ==> {
                let before = (*pool)@[(*drain).id()];
                let after = (*final(pool))@[(*drain).id()];
                let remaining = (*drain).remaining((*pool)@);
                &&& (*final(drain)).id() == (*drain).id()
                &&& (*final(drain)).remaining((*final(pool))@).len() == 0
                &&& remaining.len() == 0 ==> (*final(pool))@ == (*pool)@
                &&& remaining.len() > 0 ==> {
                    &&& after.held.len() == 0
                    &&& after.head == (before.head + before.held.len()) % 0x1_0000_0000
                }
                &&& after.items == before.items
                &&& after.capacity == before.capacity
                &&& (*final(pool))@.len() == (*pool)@.len()
                &&& forall|i: int|
                    0 <= i < (*pool)@.len() && i != (*drain).id() ==> #[trigger] (*final(pool))@[i]
                        == (*pool)@[i]
            },
{
    reveal(crate::position::wrap);
}

/// A LIFO drain tells how many items it is yet to move out.
pub proof fn lifo_drain_size_hint<'id, T>(
    drain: &lifo::Drain<'id, T>,
    pool: &lifo::Pool<'id, T>,
    hint: (usize, Option<usize>),
)
    requires
        drain.valid(pool@),
        call_ensures(lifo::Drain::<'id, T>::size_hint, (drain,), hint),
    ensures
        hint.0 == drain.remaining(pool@).len(),
        hint.1 == Some(hint.0),
{
}

/// A LIFO stealer made from a worker, or cloned from a stealer, has the same queue.
pub proof fn lifo_stealers<'id, T>(worker: &lifo::Worker<'id, T>, stealer: &lifo::Stealer<'id, T>)
    ensures
        forall|made: lifo::Stealer<'id, T>| #[trigger]
            call_ensures(lifo::Worker::<'id, T>::stealer, (worker,), made) ==> made.id()
                == worker.id(),
        forall|made: &lifo::Stealer<'id, T>| #[trigger]
            call_ensures(lifo::Worker::<'id, T>::stealer_ref, (worker,), made) ==> made.id()
                == worker.id(),
        forall|made: lifo::Stealer<'id, T>| #[trigger]
            call_ensures(<lifo::Stealer<'id, T> as Clone>::clone, (stealer,), made) ==> made.id()
                == stealer.id(),
{
}

/// A pop from a LIFO queue returns the newest item, if there is one, and changes nothing
/// else.
pub proof fn lifo_pop<'id, T>(worker: &lifo::Worker<'id, T>)
    ensures
        forall|pool: &mut lifo::Pool<'id, T>, popped: Option<T>|
            {
                &&& 0 <= worker.id() < (*pool)@.len()
                &&& #[trigger] call_ensures(lifo::Worker::<'id, T>::pop, (worker, pool), popped)
            } ==> {
                let before = (*pool)@[worker.id()];
                let after = (*final(pool))@[worker.id()];
                &&& popped is None <==> before.items.len() == 0
                &&& popped is None ==> (*final(pool))@ == (*pool)@
                &&& popped matches Some(item) ==> after.items.push(item) == before.items
                &&& after.held == before.held
                &&& after.head == before.head
                &&& after.capacity == before.capacity
                &&& (*final(pool))@.len() == (*pool)@.len()
                &&& forall|i: int|
                    0 <= i < (*pool)@.len() && i != worker.id() ==> #[trigger] (*final(pool))@[i]
                        == (*pool)@[i]
            },
{
}

/// A new LIFO queue with a buffer of given size is the last one in its pool, is empty and
/// has that size as its capacity. The other queues stay.
pub proof fn lifo_new_queue_with_buffer<'id, T, B: Buffer<T>>()
    ensures
        forall|pool: &mut lifo::Pool<'id, T>, worker: lifo::Worker<'id, T>| #[trigger]
            call_ensures(lifo::Worker::<'id, T>::with_buffer::<B>, (pool,), worker) ==> {
                let created = (*final(pool))@[worker.id()];
                &&& worker.id() == (*pool)@.len()
                &&& (*final(pool))@.len() == (*pool)@.len() + 1
                &&& forall|i: int|
                    0 <= i < (*pool)@.len() ==> #[trigger] (*final(pool))@[i] == (*pool)@[i]
                &&& created.held.len() == 0
                &&& created.items.len() == 0
                &&& created.head == 0
                &&& created.capacity == B::size()
            },
{
}

} // verus!
