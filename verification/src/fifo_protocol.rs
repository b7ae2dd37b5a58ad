//! Interleavings of the threads that share a FIFO queue.
//!
//! One thread, the worker, pushes and pops. Any number of others steal; a drain
//! counts as one of them. Each thread loads a word of the queue, decides with one
//! of the `*_step` functions of [`crate::fifo`], and writes a word back, by a
//! compare-exchange where others may write it too. Here every such access is a
//! step of its own, and the steps of the threads follow each other in any order.
//!
//! Steps are taken to happen one after the other, that is, memory is
//! sequentially consistent. The compare-exchange that books items is taken to
//! happen before the worker head has gone round all 2^32 positions since the
//! heads were loaded.
use vstd::arithmetic::div_mod::lemma_mod_bound;
use vstd::multiset::Multiset;
use vstd::prelude::*;
use vstd::seq_lib::lemma_multiset_commutative;

use crate::config::{UnsignedLong, UnsignedShort};
use crate::fifo::{booked, complete_decision, pop_decision, push_decision, Booking};
use crate::model::{lemma_first_item, steal_count};
use crate::position::{
    is_capacity, lemma_capacity_bounds, lemma_distinct_slots, lemma_position_distance,
    lemma_same_position, lemma_wrap_add, lemma_wrap_range, lemma_wrap_slot, wrap,
};
use crate::ring::lemma_slot_kept;
use crate::{high, lemma_packed, lemma_parts_range, low, StealError};

verus! {

/// Where the worker is.
pub enum WorkerState<T> {
    /// Between two operations.
    Idle,
    /// The heads were loaded for pushing items, when the stealer head was `seen`.
    /// Some items were written behind the tail. The tail is yet to be stored.
    Pushing { heads: UnsignedLong, seen: int, written: Seq<T> },
    /// The heads were loaded for a pop, when the worker head was `seen`.
    Popping { heads: UnsignedLong, seen: int },
    /// The item at a position was claimed. It is yet to be read, from the slot
    /// that `word` tells.
    Claimed { item: T, position: int, word: UnsignedShort },
}

/// Where a stealer is.
pub enum StealerState<T> {
    /// Between two operations.
    Idle,
    /// The heads were loaded, when the worker head was `seen`.
    Looked { heads: UnsignedLong, seen: int },
    /// The tail was loaded too, when it was `seen_tail`.
    Ready { heads: UnsignedLong, seen: int, tail: UnsignedShort, seen_tail: int },
    /// Items were booked. Those in `rest`, from a position on, are yet to be
    /// moved out, the next one from the slot that `word` tells.
    Moving { rest: Seq<T>, position: int, word: UnsignedShort },
    /// The items were moved out and the heads were loaded.
    Completing { heads: UnsignedLong },
}

impl<T> StealerState<T> {
    /// Whether the stealer has booked items and not yet completed its operation.
    pub open spec fn active(self) -> bool {
        self is Moving || self is Completing
    }
}

/// A queue and the threads that share it.
pub struct State<T> {
    /// The words and slots of the queue.
    pub heads: UnsignedLong,
    pub tail: UnsignedShort,
    pub slots: Seq<Option<T>>,
    /// The threads.
    pub worker: WorkerState<T>,
    pub stealers: Seq<StealerState<T>>,
    /// The worker head, the stealer head and the tail, as numbers that do not
    /// wrap around.
    pub claimed: int,
    pub completed: int,
    pub pushed: int,
    /// The available items, oldest first.
    pub items: Seq<T>,
    /// The items that the ongoing stealing operation is yet to move out.
    pub held: Seq<T>,
    /// All items that were pushed, and all items that the worker and the stealers
    /// have taken.
    pub given: Multiset<T>,
    pub worker_took: Multiset<T>,
    pub stealers_took: Multiset<T>,
    /// The number of items that were booked, over all stealing operations.
    pub booked: nat,
}

/// A step of a thread.
pub enum Step<T> {
    /// The worker starts to push items: it loads the heads.
    PushLoad,
    /// The queue is full.
    PushFail,
    /// An item is written to its slot.
    PushWrite { item: T, next_tail: UnsignedShort },
    /// The tail behind the written items is stored.
    PushStore,
    /// The worker starts to pop: it loads the heads.
    PopLoad,
    /// The queue is empty.
    PopFail,
    /// The compare-exchange of the heads succeeds.
    PopClaim { position: UnsignedShort, next_heads: UnsignedLong },
    /// The compare-exchange of the heads fails.
    PopRetry,
    /// The item is read from its slot.
    PopRead,
    /// A stealer starts: it loads the heads.
    StealLoad { i: int },
    /// The stealer loads the tail.
    StealLoadTail { i: int },
    /// The stealing operation fails: the heads differ, or none of the items that
    /// the loaded words tell can be stolen, where `wanted` ones are asked for and
    /// there is room for `room`.
    StealFail { i: int, error: StealError, wanted: nat, room: nat },
    /// The compare-exchange of the heads succeeds.
    StealBook { i: int, booking: Booking, wanted: nat, room: nat },
    /// The compare-exchange of the heads fails.
    StealRetry { i: int },
    /// A booked item is moved out of its slot.
    StealMove { i: int },
    /// All items were moved out: the heads are loaded.
    StealLoadHeads { i: int },
    /// The compare-exchange of the heads succeeds.
    StealComplete { i: int, next_heads: UnsignedLong },
    /// The compare-exchange of the heads fails.
    StealCompleteRetry { i: int },
}

impl<T> State<T> {
    /// The number of slots.
    pub open spec fn capacity(self) -> int {
        self.slots.len() as int
    }

    /// The slot of a position.
    pub open spec fn slot(self, position: int) -> Option<T> {
        self.slots[position % self.capacity()]
    }

    /// The tail behind items that were written.
    pub open spec fn tail_behind(self, written: Seq<T>) -> UnsignedShort {
        wrap(self.tail + written.len()) as UnsignedShort
    }

    /// The item that the worker has claimed and not yet read.
    pub open spec fn claimed_item(self) -> Multiset<T> {
        match self.worker {
            WorkerState::Claimed { item, .. } => Multiset::singleton(item),
            _ => Multiset::empty(),
        }
    }

    /// A new queue, shared by a number of stealers.
    pub open spec fn init(self) -> bool {
        &&& is_capacity(self.capacity())
        &&& high(self.heads) == 0
        &&& low(self.heads) == 0
        &&& self.tail == 0
        &&& self.worker == WorkerState::<T>::Idle
        &&& forall|i: int| 0 <= i < self.stealers.len() ==> (#[trigger] self.stealers[i]) is Idle
        &&& self.claimed == 0
        &&& self.completed == 0
        &&& self.pushed == 0
        &&& self.items == Seq::<T>::empty()
        &&& self.held == Seq::<T>::empty()
        &&& self.given == Multiset::<T>::empty()
        &&& self.worker_took == Multiset::<T>::empty()
        &&& self.stealers_took == Multiset::<T>::empty()
        &&& self.booked == 0
    }

    /// The state with the worker elsewhere.
    pub open spec fn worker_at(self, worker: WorkerState<T>) -> Self {
        State { worker, ..self }
    }

    /// The state with a stealer elsewhere.
    pub open spec fn stealer_at(self, i: int, stealer: StealerState<T>) -> Self {
        State { stealers: self.stealers.update(i, stealer), ..self }
    }

    /// Whether a thread can take a step, and what the state is afterwards.
    pub open spec fn next(self, step: Step<T>, after: Self) -> bool {
        match step {
            Step::PushLoad => {
                &&& self.worker is Idle
                &&& after == self.worker_at(
                    WorkerState::Pushing {
                        heads: self.heads,
                        seen: self.completed,
                        written: Seq::empty(),
                    },
                )
            },
            Step::PushFail => {
                &&& self.worker matches WorkerState::Pushing { heads, written, .. }
                &&& written.len() == 0
                &&& push_decision(heads, self.tail, (self.capacity() - 1) as UnsignedShort, None)
                &&& after == self.worker_at(WorkerState::Idle)
            },
            Step::PushWrite { item, next_tail } => {
                &&& self.worker matches WorkerState::Pushing { heads, seen, written }
                &&& push_decision(
                    heads,
                    self.tail_behind(written),
                    (self.capacity() - 1) as UnsignedShort,
                    Some(next_tail),
                )
                &&& after == State {
                    slots: self.slots.update(
                        self.tail_behind(written) as int % self.capacity(),
                        Some(item),
                    ),
                    worker: WorkerState::Pushing { heads, seen, written: written.push(item) },
                    ..self
                }
            },
            Step::PushStore => {
                &&& self.worker matches WorkerState::Pushing { written, .. }
                &&& after == State {
                    tail: self.tail_behind(written),
                    worker: WorkerState::Idle,
                    pushed: self.pushed + written.len(),
                    items: self.items + written,
                    given: self.given.add(written.to_multiset()),
                    ..self
                }
            },
            Step::PopLoad => {
                &&& self.worker is Idle
                &&& after == self.worker_at(
                    WorkerState::Popping { heads: self.heads, seen: self.claimed },
                )
            },
            Step::PopFail => {
                &&& self.worker matches WorkerState::Popping { heads, .. }
                &&& pop_decision(heads, self.tail, None)
                &&& after == self.worker_at(WorkerState::Idle)
            },
            Step::PopClaim { position, next_heads } => {
                &&& self.worker matches WorkerState::Popping { heads, .. }
                &&& pop_decision(heads, self.tail, Some((position, next_heads)))
                &&& self.heads == heads
                &&& after == State {
                    heads: next_heads,
                    worker: WorkerState::Claimed {
                        item: self.items[0],
                        position: self.claimed,
                        word: position,
                    },
                    claimed: self.claimed + 1,
                    completed: if self.completed == self.claimed {
                        self.completed + 1
                    } else {
                        self.completed
                    },
                    items: self.items.skip(1),
                    ..self
                }
            },
            Step::PopRetry => {
                &&& self.worker is Popping
                &&& after == self.worker_at(
                    WorkerState::Popping { heads: self.heads, seen: self.claimed },
                )
            },
            Step::PopRead => {
                &&& self.worker matches WorkerState::Claimed { word, .. }
                &&& after == State {
                    slots: self.slots.update(word as int % self.capacity(), None),
                    worker: WorkerState::Idle,
                    worker_took: self.worker_took.insert(self.slot(word as int)->0),
                    ..self
                }
            },
            Step::StealLoad { i } => {
                &&& 0 <= i < self.stealers.len()
                &&& self.stealers[i] is Idle
                &&& after == self.stealer_at(
                    i,
                    StealerState::Looked { heads: self.heads, seen: self.claimed },
                )
            },
            Step::StealLoadTail { i } => {
                &&& 0 <= i < self.stealers.len()
                &&& self.stealers[i] matches StealerState::Looked { heads, seen }
                &&& high(heads) == low(heads)
                &&& after == self.stealer_at(
                    i,
                    StealerState::Ready { heads, seen, tail: self.tail, seen_tail: self.pushed },
                )
            },
            Step::StealFail { i, error, wanted, room } => {
                &&& 0 <= i < self.stealers.len()
                &&& match self.stealers[i] {
                    StealerState::Looked { heads, .. } => {
                        high(heads) != low(heads) && error == StealError::Busy
                    },
                    StealerState::Ready { heads, tail, .. } => booked(
                        heads,
                        steal_count(wanted, room, wrap(tail - high(heads)) as nat),
                        Err(error),
                    ),
                    _ => false,
                }
                &&& after == self.stealer_at(i, StealerState::Idle)
            },
            Step::StealBook { i, booking, wanted, room } => {
                &&& 0 <= i < self.stealers.len()
                &&& self.stealers[i] matches StealerState::Ready { heads, seen, tail, .. }
                &&& high(heads) == low(heads)
                &&& booked(
                    heads,
                    steal_count(wanted, room, wrap(tail - high(heads)) as nat),
                    Ok(booking),
                )
                &&& self.heads == heads
                &&& self.claimed - seen < 0x1_0000_0000
                &&& after == State {
                    heads: booking.next_heads,
                    stealers: self.stealers.update(
                        i,
                        StealerState::Moving {
                            rest: self.items.take(booking.count as int),
                            position: self.completed,
                            word: booking.stealer_head,
                        },
                    ),
                    claimed: self.claimed + booking.count,
                    items: self.items.skip(booking.count as int),
                    held: self.items.take(booking.count as int),
                    booked: self.booked + booking.count as nat,
                    ..self
                }
            },
            Step::StealRetry { i } => {
                &&& 0 <= i < self.stealers.len()
                &&& self.stealers[i] is Ready
                &&& after == self.stealer_at(
                    i,
                    StealerState::Looked { heads: self.heads, seen: self.claimed },
                )
            },
            Step::StealMove { i } => {
                &&& 0 <= i < self.stealers.len()
                &&& self.stealers[i] matches StealerState::Moving { rest, position, word }
                &&& rest.len() > 0
                &&& after == State {
                    slots: self.slots.update(word as int % self.capacity(), None),
                    stealers: self.stealers.update(
                        i,
                        StealerState::Moving {
                            rest: rest.skip(1),
                            position: position + 1,
                            word: wrap(word + 1) as UnsignedShort,
                        },
                    ),
                    held: self.held.skip(1),
                    stealers_took: self.stealers_took.insert(self.slot(word as int)->0),
                    ..self
                }
            },
            Step::StealLoadHeads { i } => {
                &&& 0 <= i < self.stealers.len()
                &&& self.stealers[i] matches StealerState::Moving { rest, .. }
                &&& rest.len() == 0
                &&& after == self.stealer_at(i, StealerState::Completing { heads: self.heads })
            },
            Step::StealComplete { i, next_heads } => {
                &&& 0 <= i < self.stealers.len()
                &&& self.stealers[i] matches StealerState::Completing { heads }
                &&& complete_decision(heads, next_heads)
                &&& self.heads == heads
                &&& after == State {
                    heads: next_heads,
                    stealers: self.stealers.update(i, StealerState::Idle),
                    completed: self.claimed,
                    ..self
                }
            },
            Step::StealCompleteRetry { i } => {
                &&& 0 <= i < self.stealers.len()
                &&& self.stealers[i] is Completing
                &&& after == self.stealer_at(i, StealerState::Completing { heads: self.heads })
            },
        }
    }

    /// The words hold the heads and the tail, and the queue is within its
    /// capacity.
    pub open spec fn words_ok(self) -> bool {
        &&& is_capacity(self.capacity())
        &&& high(self.heads) == wrap(self.claimed)
        &&& low(self.heads) == wrap(self.completed)
        &&& self.tail == wrap(self.pushed)
        &&& 0 <= self.completed <= self.claimed <= self.pushed
        &&& self.pushed <= self.completed + self.capacity()
        &&& self.items.len() == self.pushed - self.claimed
    }

    /// The available items are in their slots.
    pub open spec fn items_ok(self) -> bool {
        forall|k: int|
            0 <= k < self.items.len() ==> self.slot(self.claimed + k) == Some(
                #[trigger] self.items[k],
            )
    }

    /// What holds of the worker.
    pub open spec fn worker_ok(self) -> bool {
        match self.worker {
            WorkerState::Idle => true,
            WorkerState::Pushing { heads, seen, written } => {
                &&& low(heads) == wrap(seen)
                &&& seen <= self.completed
                &&& self.pushed + written.len() <= seen + self.capacity()
                &&& forall|k: int|
                    0 <= k < written.len() ==> self.slot(self.pushed + k) == Some(
                        #[trigger] written[k],
                    )
            },
            WorkerState::Popping { heads, seen } => {
                &&& high(heads) == wrap(seen)
                &&& seen <= self.claimed
                &&& self.pushed <= seen + self.capacity()
            },
            WorkerState::Claimed { item, position, word } => {
                &&& word == wrap(position)
                &&& position < self.claimed
                &&& self.pushed <= position + self.capacity()
                &&& self.slot(position) == Some(item)
                &&& forall|i: int|
                    0 <= i < self.stealers.len() ==> ((#[trigger] self.stealers[i]) matches
                        StealerState::Moving { rest, position: start, .. } ==> !(start <= position
                        < start + rest.len()))
            },
        }
    }

    /// What holds of a stealer.
    pub open spec fn stealer_ok(self, i: int) -> bool {
        match self.stealers[i] {
            StealerState::Idle => true,
            StealerState::Looked { heads, seen } => {
                &&& high(heads) == wrap(seen)
                &&& seen <= self.claimed
            },
            StealerState::Ready { heads, seen, tail, seen_tail } => {
                &&& high(heads) == wrap(seen)
                &&& high(heads) == low(heads)
                &&& seen <= self.claimed
                &&& tail == wrap(seen_tail)
                &&& seen <= seen_tail <= self.pushed
            },
            StealerState::Moving { rest, position, word } => {
                &&& word == wrap(position)
                &&& rest == self.held
                &&& self.completed <= position
                &&& position + rest.len() <= self.claimed
                &&& forall|k: int|
                    0 <= k < rest.len() ==> self.slot(position + k) == Some(#[trigger] rest[k])
            },
            StealerState::Completing { .. } => self.held.len() == 0,
        }
    }

    /// At most one stealing operation is ongoing, and the heads tell whether one
    /// is.
    pub open spec fn exclusive(self) -> bool {
        &&& forall|i: int, j: int|
            0 <= i < self.stealers.len() && 0 <= j < self.stealers.len() && (
            #[trigger] self.stealers[i]).active() && (#[trigger] self.stealers[j]).active() ==> i
                == j
        &&& forall|i: int|
            0 <= i < self.stealers.len() && (#[trigger] self.stealers[i]).active()
                ==> self.completed < self.claimed
        &&& (forall|i: int|
            0 <= i < self.stealers.len() ==> !(#[trigger] self.stealers[i]).active()) ==> {
            &&& self.completed == self.claimed
            &&& self.held.len() == 0
        }
    }

    /// Every item that was pushed has been popped or stolen, is available, or is
    /// about to be moved out by one thread.
    pub open spec fn accounted(self) -> bool {
        &&& self.given =~= self.worker_took.add(self.stealers_took).add(
            self.items.to_multiset(),
        ).add(self.held.to_multiset()).add(self.claimed_item())
        &&& self.booked == self.stealers_took.len() + self.held.len()
    }

    /// The invariant.
    pub open spec fn inv(self) -> bool {
        &&& self.words_ok()
        &&& self.items_ok()
        &&& self.worker_ok()
        &&& forall|i: int| 0 <= i < self.stealers.len() ==> #[trigger] self.stealer_ok(i)
        &&& self.exclusive()
        &&& self.accounted()
    }
}

/// A new queue satisfies the invariant.
pub proof fn new_queue_satisfies_invariant<T>(state: State<T>)
    requires
        state.init(),
    ensures
        state.inv(),
{
    lemma_wrap_range(0);
    lemma_capacity_bounds(state.capacity());
    Seq::<T>::empty().to_multiset_ensures();
    assert(Seq::<T>::empty().to_multiset() =~= Multiset::<T>::empty());
    assert forall|i: int| 0 <= i < state.stealers.len() implies #[trigger] state.stealer_ok(i) by {
        assert(state.stealers[i] is Idle);
    }
}

/// Where only the state of stealers that have booked nothing changes, the rest of
/// the invariant is kept.
proof fn lemma_stealer_step<T>(state: State<T>, i: int, stealer: StealerState<T>)
    requires
        state.inv(),
        0 <= i < state.stealers.len(),
        state.stealers[i].active() == stealer.active(),
        state.stealer_at(i, stealer).stealer_ok(i),
        stealer is Moving ==> stealer == state.stealers[i],
    ensures
        state.stealer_at(i, stealer).inv(),
{
    let after = state.stealer_at(i, stealer);
    assert forall|j: int| 0 <= j < after.stealers.len() implies #[trigger] after.stealer_ok(j) by {
        assert(state.stealer_ok(j));
    }
    assert(after.exclusive()) by {
        assert forall|j: int|
            0 <= j < after.stealers.len() implies #[trigger] after.stealers[j].active()
            == state.stealers[j].active() by {}
        if forall|j: int|
            0 <= j < after.stealers.len() ==> !(#[trigger] after.stealers[j]).active() {
            assert forall|j: int| 0 <= j < state.stealers.len() implies !(
            #[trigger] state.stealers[j]).active() by {
                assert(!after.stealers[j].active());
            }
        }
    }
    assert(after.worker_ok());
}

/// The tail behind items that were written, as a number that does not wrap
/// around.
proof fn lemma_tail_behind<T>(state: State<T>, written: Seq<T>)
    requires
        state.words_ok(),
    ensures
        state.tail_behind(written) == wrap(state.pushed + written.len()),
{
    lemma_wrap_add(state.pushed, written.len() as int);
    lemma_wrap_range(state.tail + written.len());
}

proof fn lemma_push_write<T>(state: State<T>, item: T, next_tail: UnsignedShort, after: State<T>)
    requires
        state.inv(),
        state.next(Step::PushWrite { item, next_tail }, after),
    ensures
        after.inv(),
{
    let cap = state.capacity();
    lemma_capacity_bounds(cap);
    match state.worker {
        WorkerState::Pushing { heads, seen, written } => {
            let position = state.pushed + written.len();
            lemma_tail_behind(state, written);
            lemma_position_distance(seen, position);
            lemma_wrap_slot(position, cap);
            lemma_mod_bound(position, cap);
            assert(position < state.completed + cap);
            assert forall|k: int| 0 <= k < written.len() + 1 implies after.slot(after.pushed + k)
                == Some(#[trigger] written.push(item)[k]) by {
                if k < written.len() {
                    assert(state.slot(state.pushed + k) == Some(written[k]));
                    lemma_slot_kept(
                        state.slots,
                        position,
                        Some(item),
                        state.completed,
                        state.pushed + k,
                    );
                }
            }
            assert forall|k: int| 0 <= k < after.items.len() implies after.slot(after.claimed + k)
                == Some(#[trigger] after.items[k]) by {
                lemma_slot_kept(
                    state.slots,
                    position,
                    Some(item),
                    state.completed,
                    state.claimed + k,
                );
            }
            assert forall|i: int| 0 <= i < after.stealers.len() implies #[trigger] after.stealer_ok(
                i,
            ) by {
                assert(state.stealer_ok(i));
                if let StealerState::Moving { rest, position: start, .. } = state.stealers[i] {
                    assert forall|k: int| 0 <= k < rest.len() implies after.slot(start + k) == Some(
                        #[trigger] rest[k],
                    ) by {
                        lemma_slot_kept(
                            state.slots,
                            position,
                            Some(item),
                            state.completed,
                            start + k,
                        );
                    }
                }
            }
            assert(after.worker_ok());
            assert(after.accounted());
        },
        _ => {},
    }
}

proof fn lemma_push_store<T>(state: State<T>, after: State<T>)
    requires
        state.inv(),
        state.next(Step::PushStore, after),
    ensures
        after.inv(),
{
    match state.worker {
        WorkerState::Pushing { written, .. } => {
            lemma_tail_behind(state, written);
            lemma_multiset_commutative(state.items, written);
            assert forall|k: int| 0 <= k < after.items.len() implies after.slot(after.claimed + k)
                == Some(#[trigger] after.items[k]) by {
                if k < state.items.len() {
                    assert(state.slot(state.claimed + k) == Some(state.items[k]));
                } else {
                    let n = k - state.items.len();
                    assert(state.slot(state.pushed + n) == Some(written[n]));
                    assert(state.pushed + n == state.claimed + k);
                }
            }
            assert forall|i: int| 0 <= i < after.stealers.len() implies #[trigger] after.stealer_ok(
                i,
            ) by {
                assert(state.stealer_ok(i));
            }
            assert(after.exclusive());
            assert(after.accounted());
        },
        _ => {},
    }
}

proof fn lemma_pop_claim<T>(
    state: State<T>,
    position: UnsignedShort,
    next_heads: UnsignedLong,
    after: State<T>,
)
    requires
        state.inv(),
        state.next(Step::PopClaim { position, next_heads }, after),
    ensures
        after.inv(),
{
    let cap = state.capacity();
    lemma_capacity_bounds(cap);
    assert(state.items.len() > 0);
    lemma_first_item(state.items);
    lemma_wrap_add(state.claimed, 1);
    lemma_wrap_add(state.completed, 1);
    if wrap(state.completed) == wrap(state.claimed) {
        lemma_same_position(state.completed, state.claimed);
    }
    assert(state.slot(state.claimed + 0) == Some(state.items[0]));
    assert forall|k: int| 0 <= k < after.items.len() implies after.slot(after.claimed + k) == Some(
        #[trigger] after.items[k],
    ) by {
        assert(state.slot(state.claimed + (k + 1)) == Some(state.items[k + 1]));
        assert(after.claimed + k == state.claimed + (k + 1));
    }
    assert forall|i: int| 0 <= i < after.stealers.len() implies #[trigger] after.stealer_ok(i) by {
        assert(state.stealer_ok(i));
    }
    assert(after.worker_ok()) by {
        assert forall|i: int| 0 <= i < after.stealers.len() implies ((#[trigger] after.stealers[i])
            matches StealerState::Moving { rest, position: start, .. } ==> !(start <= state.claimed
            < start + rest.len())) by {
            assert(state.stealer_ok(i));
        }
    }
    assert(after.exclusive());
    assert(after.accounted());
}

proof fn lemma_pop_read<T>(state: State<T>, after: State<T>)
    requires
        state.inv(),
        state.next(Step::PopRead, after),
    ensures
        after.inv(),
{
    let cap = state.capacity();
    lemma_capacity_bounds(cap);
    match state.worker {
        WorkerState::Claimed { item, position, word } => {
            lemma_wrap_slot(position, cap);
            assert forall|k: int| 0 <= k < after.items.len() implies after.slot(after.claimed + k)
                == Some(#[trigger] after.items[k]) by {
                lemma_slot_kept(
                    state.slots,
                    position,
                    None,
                    state.pushed - cap,
                    state.claimed + k,
                );
            }
            assert forall|i: int| 0 <= i < after.stealers.len() implies #[trigger] after.stealer_ok(
                i,
            ) by {
                assert(state.stealer_ok(i));
                if let StealerState::Moving { rest, position: start, .. } = state.stealers[i] {
                    assert forall|k: int| 0 <= k < rest.len() implies after.slot(start + k) == Some(
                        #[trigger] rest[k],
                    ) by {
                        lemma_slot_kept(state.slots, position, None, state.pushed - cap, start + k);
                    }
                }
            }
            assert(after.exclusive());
            assert(after.accounted());
        },
        _ => {},
    }
}

proof fn lemma_steal_book<T>(
    state: State<T>,
    i: int,
    booking: Booking,
    wanted: nat,
    room: nat,
    after: State<T>,
)
    requires
        state.inv(),
        state.next(Step::StealBook { i, booking, wanted, room }, after),
    ensures
        after.inv(),
{
    let cap = state.capacity();
    let count = booking.count as int;
    lemma_capacity_bounds(cap);
    assert(state.stealer_ok(i));
    match state.stealers[i] {
        StealerState::Ready { heads, seen, tail, seen_tail } => {
            lemma_same_position(state.claimed, seen);
            lemma_same_position(state.completed, state.claimed);
            lemma_position_distance(seen, seen_tail);
            lemma_wrap_add(state.claimed, count);
        },
        _ => {},
    }
    assert(count <= state.items.len());
    lemma_multiset_commutative(state.items.take(count), state.items.skip(count));
    assert(state.items.take(count) + state.items.skip(count) =~= state.items);
    assert forall|k: int| 0 <= k < after.items.len() implies after.slot(after.claimed + k) == Some(
        #[trigger] after.items[k],
    ) by {
        assert(state.slot(state.claimed + (k + count)) == Some(state.items[k + count]));
        assert(after.claimed + k == state.claimed + (k + count));
    }
    assert forall|j: int| 0 <= j < state.stealers.len() implies !(
    #[trigger] state.stealers[j]).active() by {}
    assert(state.held =~= Seq::empty());
    assert forall|j: int| 0 <= j < after.stealers.len() implies #[trigger] after.stealer_ok(j) by {
        assert(state.stealer_ok(j));
        if j == i {
            let rest = state.items.take(count);
            assert forall|k: int| 0 <= k < rest.len() implies after.slot(state.completed + k)
                == Some(#[trigger] rest[k]) by {
                assert(state.slot(state.claimed + k) == Some(state.items[k]));
            }
        }
    }
    assert forall|j: int| 0 <= j < after.stealers.len() && j != i implies !(
    #[trigger] after.stealers[j]).active() by {
        assert(!state.stealers[j].active());
    }
    assert(after.stealers[i].active());
    assert(after.exclusive());
    assert(after.worker_ok());
    Seq::<T>::empty().to_multiset_ensures();
    assert(after.accounted());
}

proof fn lemma_steal_move<T>(state: State<T>, i: int, after: State<T>)
    requires
        state.inv(),
        state.next(Step::StealMove { i }, after),
    ensures
        after.inv(),
{
    let cap = state.capacity();
    lemma_capacity_bounds(cap);
    assert(state.stealer_ok(i));
    assert(state.stealers[i].active());
    match state.stealers[i] {
        StealerState::Moving { rest, position, word } => {
            lemma_first_item(rest);
            lemma_wrap_slot(position, cap);
            lemma_wrap_add(position, 1);
            lemma_wrap_range(word + 1);
            assert(state.slot(position + 0) == Some(rest[0]));
            assert forall|k: int| 0 <= k < after.items.len() implies after.slot(after.claimed + k)
                == Some(#[trigger] after.items[k]) by {
                lemma_slot_kept(state.slots, position, None, state.completed, state.claimed + k);
            }
            assert forall|j: int| 0 <= j < after.stealers.len() implies #[trigger] after.stealer_ok(
                j,
            ) by {
                assert(state.stealer_ok(j));
                if j == i {
                    let left = rest.skip(1);
                    assert forall|k: int| 0 <= k < left.len() implies after.slot(position + 1 + k)
                        == Some(#[trigger] left[k]) by {
                        assert(state.slot(position + (k + 1)) == Some(rest[k + 1]));
                        assert(position + 1 + k == position + (k + 1));
                        lemma_slot_kept(
                            state.slots,
                            position,
                            None,
                            state.completed,
                            position + (k + 1),
                        );
                    }
                }
            }
            assert(after.worker_ok()) by {
                match state.worker {
                    WorkerState::Pushing { written, .. } => {
                        assert forall|k: int| 0 <= k < written.len() implies after.slot(
                            after.pushed + k,
                        ) == Some(#[trigger] written[k]) by {
                            lemma_slot_kept(
                                state.slots,
                                position,
                                None,
                                state.completed,
                                state.pushed + k,
                            );
                        }
                    },
                    WorkerState::Claimed { item, position: p, .. } => {
                        assert(!(position <= p < position + rest.len()));
                        lemma_slot_kept(state.slots, position, None, state.pushed - cap, p);
                        assert forall|j: int| 0 <= j < after.stealers.len() implies ((
                        #[trigger] after.stealers[j]) matches StealerState::Moving {
                            rest: r,
                            position: start,
                            ..
                        } ==> !(start <= p < start + r.len())) by {
                            assert(state.stealer_ok(j));
                            if j != i {
                                assert(!state.stealers[j].active());
                            }
                        }
                    },
                    _ => {},
                }
            }
            assert forall|j: int|
                0 <= j < after.stealers.len() implies #[trigger] after.stealers[j].active()
                == state.stealers[j].active() by {}
            assert(after.stealers[i].active());
            assert(after.exclusive());
            assert(after.accounted());
        },
        _ => {},
    }
}

proof fn lemma_steal_complete<T>(
    state: State<T>,
    i: int,
    next_heads: UnsignedLong,
    after: State<T>,
)
    requires
        state.inv(),
        state.next(Step::StealComplete { i, next_heads }, after),
    ensures
        after.inv(),
{
    assert(state.stealer_ok(i));
    assert(state.stealers[i].active());
    assert forall|j: int| 0 <= j < after.stealers.len() implies !(
    #[trigger] after.stealers[j]).active() by {
        if j != i {
            assert(!state.stealers[j].active());
        }
    }
    assert forall|j: int| 0 <= j < after.stealers.len() implies #[trigger] after.stealer_ok(j) by {
        assert(state.stealer_ok(j));
        assert(!after.stealers[j].active());
    }
    assert(after.worker_ok());
    assert(after.exclusive());
    assert(after.accounted());
}

/// Every step of every thread keeps the invariant.
pub proof fn step_keeps_invariant<T>(state: State<T>, step: Step<T>, after: State<T>)
    requires
        state.inv(),
        state.next(step, after),
    ensures
        after.inv(),
{
    lemma_capacity_bounds(state.capacity());
    match step {
        Step::PushWrite { item, next_tail } => {
            lemma_push_write(state, item, next_tail, after);
        },
        Step::PushStore => {
            lemma_push_store(state, after);
        },
        Step::PopClaim { position, next_heads } => {
            lemma_pop_claim(state, position, next_heads, after);
        },
        Step::PopRead => {
            lemma_pop_read(state, after);
        },
        Step::StealLoad { i } => {
            lemma_stealer_step(state, i, after.stealers[i]);
        },
        Step::StealLoadTail { i } => {
            assert(state.stealer_ok(i));
            lemma_stealer_step(state, i, after.stealers[i]);
        },
        Step::StealFail { i, .. } => {
            lemma_stealer_step(state, i, after.stealers[i]);
        },
        Step::StealBook { i, booking, wanted, room } => {
            lemma_steal_book(state, i, booking, wanted, room, after);
        },
        Step::StealRetry { i } => {
            lemma_stealer_step(state, i, after.stealers[i]);
        },
        Step::StealMove { i } => {
            lemma_steal_move(state, i, after);
        },
        Step::StealLoadHeads { i } => {
            assert(state.stealer_ok(i));
            lemma_stealer_step(state, i, after.stealers[i]);
        },
        Step::StealComplete { i, next_heads } => {
            lemma_steal_complete(state, i, next_heads, after);
        },
        Step::StealCompleteRetry { i } => {
            assert(state.stealer_ok(i));
            lemma_stealer_step(state, i, after.stealers[i]);
        },
        _ => {
            assert forall|j: int| 0 <= j < after.stealers.len() implies #[trigger] after.stealer_ok(
                j,
            ) by {
                assert(state.stealer_ok(j));
            }
            assert(after.worker_ok());
            assert(after.accounted());
        },
    }
}

/// Every state of a run that starts with a new queue satisfies the invariant,
/// whatever the order in which the threads take their steps.
pub proof fn run_keeps_invariant<T>(states: Seq<State<T>>, steps: Seq<Step<T>>, n: int)
    requires
        states.len() == steps.len() + 1,
        states[0].init(),
        forall|i: int|
            0 <= i < steps.len() ==> (#[trigger] states[i]).next(steps[i], states[i + 1]),
        0 <= n < states.len(),
    ensures
        states[n].inv(),
    decreases n,
{
    if n == 0 {
        new_queue_satisfies_invariant(states[0]);
    } else {
        run_keeps_invariant(states, steps, n - 1);
        assert(states[n - 1].next(steps[n - 1], states[n - 1 + 1]));
        step_keeps_invariant(states[n - 1], steps[n - 1], states[n]);
    }
}

/// A push writes to a slot in which there is no item: none that is available, none
/// that was written just before and none that a stealer has booked.
pub proof fn push_overwrites_no_item<T>(
    state: State<T>,
    item: T,
    next_tail: UnsignedShort,
    after: State<T>,
)
    requires
        state.inv(),
        state.next(Step::PushWrite { item, next_tail }, after),
    ensures
        forall|k: int|
            0 <= k < state.items.len() + state.worker->written.len() ==> (#[trigger] state.slot(
                state.claimed + k,
            )) == after.slot(state.claimed + k),
        forall|i: int, k: int|
            0 <= i < state.stealers.len() && (#[trigger] state.stealers[i]) is Moving && 0 <= k
                < state.held.len() ==> (#[trigger] state.slot(
                state.stealers[i]->Moving_position + k,
            )) == after.slot(state.stealers[i]->Moving_position + k),
{
    lemma_push_write(state, item, next_tail, after);
    assert forall|k: int|
        0 <= k < state.items.len() + state.worker->written.len() implies (#[trigger] state.slot(
        state.claimed + k,
    )) == after.slot(state.claimed + k) by {
        if k < state.items.len() {
            assert(state.items[k] == after.items[k]);
        } else {
            let n = k - state.items.len();
            assert(state.claimed + k == state.pushed + n);
            assert(state.worker->written[n] == after.worker->written[n]);
        }
    }
    assert forall|i: int, k: int|
        0 <= i < state.stealers.len() && (#[trigger] state.stealers[i]) is Moving && 0 <= k
            < state.held.len() implies (#[trigger] state.slot(
        state.stealers[i]->Moving_position + k,
    )) == after.slot(state.stealers[i]->Moving_position + k) by {
        assert(state.stealer_ok(i));
        assert(after.stealer_ok(i));
        assert(state.stealers[i]->rest[k] == after.stealers[i]->rest[k]);
    }
}

/// What the worker reads from the slot of the position that it has claimed is the
/// item that was the oldest one when it was claimed.
pub proof fn worker_reads_claimed_item<T>(state: State<T>)
    requires
        state.inv(),
        state.worker is Claimed,
    ensures
        state.slot(state.worker->word as int) == Some(state.worker->Claimed_item),
{
    lemma_capacity_bounds(state.capacity());
    lemma_wrap_slot(state.worker->Claimed_position, state.capacity());
}

/// What a stealer reads from the slots of the positions that it has booked are
/// the items that were the oldest ones when they were booked, oldest first.
pub proof fn stealer_reads_booked_items<T>(state: State<T>, i: int)
    requires
        state.inv(),
        0 <= i < state.stealers.len(),
        state.stealers[i] is Moving,
        state.stealers[i]->rest.len() > 0,
    ensures
        state.slot(state.stealers[i]->word as int) == Some(state.stealers[i]->rest[0]),
{
    lemma_capacity_bounds(state.capacity());
    assert(state.stealer_ok(i));
    lemma_wrap_slot(state.stealers[i]->Moving_position, state.capacity());
    assert(state.slot(state.stealers[i]->Moving_position + 0) == Some(state.stealers[i]->rest[0]));
}

/// Two stealers never move items out of the queue at the same time.
pub proof fn stealing_is_exclusive<T>(state: State<T>, i: int, j: int)
    requires
        state.inv(),
        0 <= i < state.stealers.len(),
        0 <= j < state.stealers.len(),
        state.stealers[i].active(),
        state.stealers[j].active(),
    ensures
        i == j,
{
}

/// When no thread is in the middle of taking items, what was pushed is what was
/// taken and what is still in the queue: no item is lost, and none is taken twice.
pub proof fn no_item_is_lost_or_taken_twice<T>(state: State<T>)
    requires
        state.inv(),
        !(state.worker is Claimed),
        forall|i: int| 0 <= i < state.stealers.len() ==> !(#[trigger] state.stealers[i]).active(),
    ensures
        state.given =~= state.worker_took.add(state.stealers_took).add(state.items.to_multiset()),
{
    assert(state.held =~= Seq::empty());
    Seq::<T>::empty().to_multiset_ensures();
}

/// A push fails only if all slots were in use when the heads were loaded.
pub proof fn push_fails_only_when_full<T>(state: State<T>, after: State<T>)
    requires
        state.inv(),
        state.next(Step::PushFail, after),
    ensures
        state.pushed == state.worker->Pushing_seen + state.capacity(),
{
    lemma_capacity_bounds(state.capacity());
    lemma_position_distance(state.worker->Pushing_seen, state.pushed);
}

/// A pop fails only if there is no item left.
pub proof fn pop_fails_only_when_empty<T>(state: State<T>, after: State<T>)
    requires
        state.inv(),
        state.next(Step::PopFail, after),
    ensures
        state.items.len() == 0,
{
    lemma_capacity_bounds(state.capacity());
    lemma_same_position(state.pushed, state.worker->Popping_seen);
}

/// A pop succeeds only if there is an item left. It takes the oldest one.
pub proof fn pop_needs_an_item<T>(
    state: State<T>,
    position: UnsignedShort,
    next_heads: UnsignedLong,
    after: State<T>,
)
    requires
        state.inv(),
        state.next(Step::PopClaim { position, next_heads }, after),
    ensures
        state.items.len() > 0,
        after.items == state.items.skip(1),
        after.worker == (WorkerState::Claimed {
            item: state.items[0],
            position: state.claimed,
            word: position,
        }),
{
    lemma_capacity_bounds(state.capacity());
}

/// A queue that is empty stays so until the worker has pushed items.
pub proof fn empty_until_pushed<T>(state: State<T>, step: Step<T>, after: State<T>)
    requires
        state.inv(),
        state.next(step, after),
        !(step is PushStore),
        state.items.len() == 0,
    ensures
        after.items.len() == 0,
{
    step_keeps_invariant(state, step, after);
}

/// The number of free slots can only grow until the worker has pushed items, so
/// that what it has seen of it is never too much.
pub proof fn spare_capacity_is_never_overestimated<T>(
    state: State<T>,
    step: Step<T>,
    after: State<T>,
)
    requires
        state.inv(),
        state.next(step, after),
        !(step is PushStore),
    ensures
        after.capacity() - (after.pushed - after.completed) >= state.capacity() - (state.pushed
            - state.completed),
{
}

/// The heads differ, so that stealers find the queue busy, exactly while a
/// stealing operation is ongoing.
pub proof fn heads_differ_while_stealing<T>(state: State<T>)
    requires
        state.inv(),
    ensures
        high(state.heads) != low(state.heads) <==> exists|i: int|
            0 <= i < state.stealers.len() && (#[trigger] state.stealers[i]).active(),
{
    lemma_capacity_bounds(state.capacity());
    if high(state.heads) == low(state.heads) {
        lemma_same_position(state.claimed, state.completed);
    }
}

/// When no thread is in the middle of taking items, the number of items that were
/// pushed is the number that the worker has popped, the numbers that the stealing
/// operations have returned and the number that is still in the queue.
pub proof fn counts_add_up<T>(state: State<T>)
    requires
        state.inv(),
        !(state.worker is Claimed),
        forall|i: int| 0 <= i < state.stealers.len() ==> !(#[trigger] state.stealers[i]).active(),
    ensures
        state.given.len() == state.worker_took.len() + state.booked + state.items.len(),
{
    assert(state.held =~= Seq::empty());
    Seq::<T>::empty().to_multiset_ensures();
    state.items.to_multiset_ensures();
    no_item_is_lost_or_taken_twice(state);
}

/// A stealing operation is refused as busy only if the heads that it has loaded
/// differ. It is refused as empty only if the heads and the tail that it has loaded
/// show no item, or if it may take none.
pub proof fn steal_fails_only_for_cause<T>(
    state: State<T>,
    i: int,
    error: StealError,
    wanted: nat,
    room: nat,
    after: State<T>,
)
    requires
        state.inv(),
        state.next(Step::StealFail { i, error, wanted, room }, after),
    ensures
        error == StealError::Busy ==> {
            &&& state.stealers[i] matches StealerState::Looked { heads, .. }
            &&& high(heads) != low(heads)
        },
        error == StealError::Empty ==> {
            &&& state.stealers[i] matches StealerState::Ready { heads, tail, .. }
            &&& high(heads) == low(heads)
            &&& tail == high(heads) || wanted == 0 || room == 0
        },
{
    assert(state.stealer_ok(i));
    reveal(wrap);
    reveal(high);
}

/// The items that are left in a queue are in the slots from the worker head to the
/// tail, each in a slot of its own. Reading these slots one after the other, as when
/// the queue is dropped, gives each of the items once, and nothing else.
pub proof fn items_left_are_from_head_to_tail<T>(state: State<T>)
    requires
        state.inv(),
    ensures
        wrap(state.tail - high(state.heads)) == state.items.len(),
        forall|k: int|
            0 <= k < state.items.len() ==> state.slot(wrap(high(state.heads) + k)) == Some(
                #[trigger] state.items[k],
            ),
        forall|j: int, k: int|
            0 <= j < state.items.len() && 0 <= k < state.items.len() && j != k ==> #[trigger] wrap(
                high(state.heads) + j,
            ) % state.capacity() != #[trigger] wrap(high(state.heads) + k) % state.capacity(),
{
    let cap = state.capacity();
    lemma_capacity_bounds(cap);
    lemma_position_distance(state.claimed, state.pushed);
    assert forall|k: int| 0 <= k < state.items.len() implies state.slot(
        wrap(high(state.heads) + k),
    ) == Some(#[trigger] state.items[k]) by {
        lemma_wrap_add(state.claimed, k);
        lemma_wrap_slot(state.claimed + k, cap);
    }
    assert forall|j: int, k: int|
        0 <= j < state.items.len() && 0 <= k < state.items.len() && j != k implies #[trigger] wrap(
        high(state.heads) + j,
    ) % cap != #[trigger] wrap(high(state.heads) + k) % cap by {
        lemma_wrap_add(state.claimed, j);
        lemma_wrap_add(state.claimed, k);
        lemma_wrap_slot(state.claimed + j, cap);
        lemma_wrap_slot(state.claimed + k, cap);
        lemma_distinct_slots(state.claimed, state.claimed + j, state.claimed + k, cap);
    }
}

impl<T> Step<T> {
    /// Whether the worker takes the step.
    pub open spec fn by_worker(self) -> bool {
        match self {
            Step::PushLoad => true,
            Step::PushFail => true,
            Step::PushWrite { .. } => true,
            Step::PushStore => true,
            Step::PopLoad => true,
            Step::PopFail => true,
            Step::PopClaim { .. } => true,
            Step::PopRetry => true,
            Step::PopRead => true,
            _ => false,
        }
    }

    /// Whether a stealer takes the step.
    pub open spec fn by_stealer(self, i: int) -> bool {
        match self {
            Step::StealLoad { i: j } => i == j,
            Step::StealLoadTail { i: j } => i == j,
            Step::StealFail { i: j, .. } => i == j,
            Step::StealBook { i: j, .. } => i == j,
            Step::StealRetry { i: j } => i == j,
            Step::StealMove { i: j } => i == j,
            Step::StealLoadHeads { i: j } => i == j,
            Step::StealComplete { i: j, .. } => i == j,
            Step::StealCompleteRetry { i: j } => i == j,
            _ => false,
        }
    }

    /// Whether the step is a compare-exchange that fails.
    pub open spec fn is_retry(self) -> bool {
        self is PopRetry || self is StealRetry || self is StealCompleteRetry
    }
}

impl<T> State<T> {
    /// Whether the worker has to load the heads again: they have changed.
    pub open spec fn worker_is_late(self) -> bool {
        self.worker matches WorkerState::Popping { heads, .. } && heads != self.heads
    }

    /// Whether a stealer has to load the heads again: they have changed, or have
    /// gone round all values.
    pub open spec fn stealer_is_late(self, i: int) -> bool {
        match self.stealers[i] {
            StealerState::Ready { heads, seen, .. } => heads != self.heads || self.claimed - seen
                >= 0x1_0000_0000,
            StealerState::Completing { heads } => heads != self.heads,
            _ => false,
        }
    }
}

/// A worker in the middle of an operation always has a step to take. It gets ahead
/// with its operation unless it has to load the heads again.
pub proof fn worker_can_go_on<T>(state: State<T>)
    requires
        state.inv(),
        !(state.worker is Idle),
    ensures
        exists|step: Step<T>, after: State<T>| #[trigger]
            state.next(step, after) && step.by_worker() && (step.is_retry()
                ==> state.worker_is_late()),
{
    match state.worker {
        WorkerState::Idle => {},
        WorkerState::Pushing { written, .. } => {
            let after = State {
                tail: state.tail_behind(written),
                worker: WorkerState::Idle,
                pushed: state.pushed + written.len(),
                items: state.items + written,
                given: state.given.add(written.to_multiset()),
                ..state
            };
            assert(state.next(Step::PushStore, after));
        },
        WorkerState::Popping { heads, .. } => {
            if heads != state.heads {
                let after = state.worker_at(
                    WorkerState::Popping { heads: state.heads, seen: state.claimed },
                );
                assert(state.next(Step::PopRetry, after));
            } else if state.tail == high(heads) {
                assert(state.next(Step::PopFail, state.worker_at(WorkerState::Idle)));
            } else {
                lemma_parts_range(heads);
                lemma_wrap_range(high(heads) + 1);
                lemma_wrap_range(low(heads) + 1);
                let position = high(heads) as UnsignedShort;
                let next_heads = lemma_packed(
                    wrap(high(heads) + 1),
                    if low(heads) == high(heads) {
                        wrap(low(heads) + 1)
                    } else {
                        low(heads)
                    },
                );
                let after = State {
                    heads: next_heads,
                    worker: WorkerState::Claimed {
                        item: state.items[0],
                        position: state.claimed,
                        word: position,
                    },
                    claimed: state.claimed + 1,
                    completed: if state.completed == state.claimed {
                        state.completed + 1
                    } else {
                        state.completed
                    },
                    items: state.items.skip(1),
                    ..state
                };
                assert(state.next(Step::PopClaim { position, next_heads }, after));
            }
        },
        WorkerState::Claimed { word, .. } => {
            let after = State {
                slots: state.slots.update(word as int % state.capacity(), None),
                worker: WorkerState::Idle,
                worker_took: state.worker_took.insert(state.slot(word as int)->0),
                ..state
            };
            assert(state.next(Step::PopRead, after));
        },
    }
}

/// A stealer in the middle of an operation always has a step to take, however many
/// items it asks for. It gets ahead with its operation unless it has to load the
/// heads again.
pub proof fn stealer_can_go_on<T>(state: State<T>, i: int, wanted: nat, room: nat)
    requires
        state.inv(),
        0 <= i < state.stealers.len(),
        !(state.stealers[i] is Idle),
    ensures
        exists|step: Step<T>, after: State<T>| #[trigger]
            state.next(step, after) && step.by_stealer(i) && (step.is_retry()
                ==> state.stealer_is_late(i)),
{
    assert(state.stealer_ok(i));
    match state.stealers[i] {
        StealerState::Idle => {},
        StealerState::Looked { heads, seen } => {
            if high(heads) == low(heads) {
                let after = state.stealer_at(
                    i,
                    StealerState::Ready { heads, seen, tail: state.tail, seen_tail: state.pushed },
                );
                assert(state.next(Step::StealLoadTail { i }, after));
            } else {
                let step = Step::StealFail { i, error: StealError::Busy, wanted, room };
                assert(state.next(step, state.stealer_at(i, StealerState::Idle)));
            }
        },
        StealerState::Ready { heads, tail, .. } => {
            let count = steal_count(wanted, room, wrap(tail - high(heads)) as nat);
            lemma_wrap_range(tail - high(heads));
            if state.stealer_is_late(i) {
                let after = state.stealer_at(
                    i,
                    StealerState::Looked { heads: state.heads, seen: state.claimed },
                );
                assert(state.next(Step::StealRetry { i }, after));
            } else if count == 0 {
                let step = Step::StealFail { i, error: StealError::Empty, wanted, room };
                assert(state.next(step, state.stealer_at(i, StealerState::Idle)));
            } else {
                lemma_parts_range(heads);
                lemma_wrap_range(high(heads) + count);
                let booking = Booking {
                    stealer_head: low(heads) as UnsignedShort,
                    count: count as UnsignedShort,
                    next_heads: lemma_packed(wrap(high(heads) + count), low(heads)),
                };
                let after = State {
                    heads: booking.next_heads,
                    stealers: state.stealers.update(
                        i,
                        StealerState::Moving {
                            rest: state.items.take(booking.count as int),
                            position: state.completed,
                            word: booking.stealer_head,
                        },
                    ),
                    claimed: state.claimed + booking.count,
                    items: state.items.skip(booking.count as int),
                    held: state.items.take(booking.count as int),
                    booked: state.booked + booking.count as nat,
                    ..state
                };
                assert(state.next(Step::StealBook { i, booking, wanted, room }, after));
            }
        },
        StealerState::Moving { rest, position, word } => {
            if rest.len() > 0 {
                let after = State {
                    slots: state.slots.update(word as int % state.capacity(), None),
                    stealers: state.stealers.update(
                        i,
                        StealerState::Moving {
                            rest: rest.skip(1),
                            position: position + 1,
                            word: wrap(word + 1) as UnsignedShort,
                        },
                    ),
                    held: state.held.skip(1),
                    stealers_took: state.stealers_took.insert(state.slot(word as int)->0),
                    ..state
                };
                assert(state.next(Step::StealMove { i }, after));
            } else {
                let after = state.stealer_at(i, StealerState::Completing { heads: state.heads });
                assert(state.next(Step::StealLoadHeads { i }, after));
            }
        },
        StealerState::Completing { heads } => {
            if state.stealer_is_late(i) {
                let after = state.stealer_at(i, StealerState::Completing { heads: state.heads });
                assert(state.next(Step::StealCompleteRetry { i }, after));
            } else {
                lemma_parts_range(heads);
                let next_heads = lemma_packed(high(heads), high(heads));
                let after = State {
                    heads: next_heads,
                    stealers: state.stealers.update(i, StealerState::Idle),
                    completed: state.claimed,
                    ..state
                };
                assert(state.next(Step::StealComplete { i, next_heads }, after));
            }
        },
    }
}

/// The heads change only where some thread gets ahead: it claims an item, books
/// items or completes a stealing operation.
pub proof fn heads_change_only_by_progress<T>(state: State<T>, step: Step<T>, after: State<T>)
    requires
        state.next(step, after),
        after.heads != state.heads,
    ensures
        step is PopClaim || step is StealBook || step is StealComplete,
{
}

/// What a step keeps, of a run from a worker between two operations on.
proof fn lemma_step_from_idle<T>(state: State<T>, step: Step<T>, after: State<T>, completed: int)
    requires
        state.words_ok(),
        state.next(step, after),
        state.completed >= completed,
        state.worker matches WorkerState::Pushing { seen, .. } ==> seen >= completed,
    ensures
        after.capacity() == state.capacity(),
        after.completed >= completed,
        after.worker matches WorkerState::Pushing { seen, .. } ==> seen >= completed,
{
    let cap = state.capacity();
    lemma_capacity_bounds(cap);
    match step {
        Step::PushWrite { .. } => {
            lemma_mod_bound(state.tail_behind(state.worker->written) as int, cap);
        },
        Step::PopRead => {
            lemma_mod_bound(state.worker->word as int, cap);
        },
        Step::StealMove { i } => {
            lemma_mod_bound(state.stealers[i]->word as int, cap);
        },
        _ => {},
    }
}

/// What a run keeps, from a worker between two operations on.
proof fn lemma_run_from_idle<T>(states: Seq<State<T>>, steps: Seq<Step<T>>, n: int)
    requires
        states.len() == steps.len() + 1,
        states[0].inv(),
        states[0].worker is Idle,
        forall|i: int|
            0 <= i < steps.len() ==> (#[trigger] states[i]).next(steps[i], states[i + 1]),
        0 <= n < states.len(),
    ensures
        states[n].inv(),
        states[n].capacity() == states[0].capacity(),
        states[n].completed >= states[0].completed,
        states[n].worker matches WorkerState::Pushing { seen, .. } ==> seen >= states[0].completed,
    decreases n,
{
    if n > 0 {
        lemma_run_from_idle(states, steps, n - 1);
        assert(states[n - 1].next(steps[n - 1], states[n - 1 + 1]));
        step_keeps_invariant(states[n - 1], steps[n - 1], states[n]);
        lemma_step_from_idle(states[n - 1], steps[n - 1], states[n], states[0].completed);
    }
}

/// The number of free slots that the worker is told between two operations is a
/// number of items that it can push, whatever the stealers do: in any run from
/// there, the worker finds no slot free only after it has pushed or written as many
/// items.
pub proof fn told_spare_capacity_can_be_used<T>(states: Seq<State<T>>, steps: Seq<Step<T>>, n: int)
    requires
        states.len() == steps.len() + 1,
        states[0].inv(),
        states[0].worker is Idle,
        forall|i: int|
            0 <= i < steps.len() ==> (#[trigger] states[i]).next(steps[i], states[i + 1]),
        0 <= n < states.len(),
        states[n].worker is Pushing,
        push_decision(
            states[n].worker->Pushing_heads,
            states[n].tail_behind(states[n].worker->written),
            (states[n].capacity() - 1) as UnsignedShort,
            None,
        ),
    ensures
        states[n].pushed + states[n].worker->written.len() - states[0].pushed
            >= states[0].capacity() - wrap(states[0].tail - low(states[0].heads)),
{
    lemma_run_from_idle(states, steps, n);
    let state = states[n];
    lemma_capacity_bounds(state.capacity());
    match state.worker {
        WorkerState::Pushing { seen, written, .. } => {
            lemma_tail_behind(state, written);
            lemma_position_distance(seen, state.pushed + written.len());
            lemma_position_distance(states[0].completed, states[0].pushed);
        },
        _ => {},
    }
}

} // verus!
