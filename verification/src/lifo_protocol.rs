//! Interleavings of the threads that share a LIFO queue.
//!
//! One thread, the worker, pushes and pops. Any number of others steal; a drain
//! counts as one of them. Each thread loads words of the queue, decides with one
//! of the `*_step` functions of [`crate::lifo`], and writes a word back, by a
//! compare-exchange where others may write it too. Here every such access is a
//! step of its own, and the steps of the threads follow each other in any order.
//!
//! Steps are taken to happen one after the other, that is, memory is
//! sequentially consistent. The compare-exchange that books items is taken to
//! happen before the pop count or the head has gone round all 2^32 values since
//! the stealer loaded them.
use vstd::arithmetic::div_mod::lemma_mod_bound;
use vstd::multiset::Multiset;
use vstd::prelude::*;
use vstd::seq_lib::{lemma_multiset_commutative, to_multiset_build};

use crate::config::{UnsignedLong, UnsignedShort};
use crate::lifo::{available, booked, pop_decision, push_decision, tail_position, Booking};
use crate::model::{lemma_first_item, steal_count};
use crate::position::{
    is_capacity, lemma_capacity_bounds, lemma_distinct_slots, lemma_position_distance,
    lemma_same_position, lemma_wrap_add, lemma_wrap_range, lemma_wrap_slot, wrap,
};
use crate::ring::lemma_slot_kept;
use crate::{high, lemma_packed, lemma_parts_range, low, StealError};

verus! {

/// Where the worker is.
pub enum WorkerState<T> {
    /// Between two operations.
    Idle,
    /// The pop count and head were loaded for pushing items.
    Pushing { pop_count_and_head: UnsignedLong },
    /// The head was loaded too, when it was `seen`. Some items were written
    /// behind the tail. The push count is yet to be stored.
    Writing {
        pop_count_and_head: UnsignedLong,
        head: UnsignedShort,
        seen: int,
        written: Seq<T>,
    },
    /// The pop count and head were loaded for a pop, when the head was `seen`.
    Popping { pop_count_and_head: UnsignedLong, seen: int },
    /// The item at a position was claimed. It is yet to be read, from the slot
    /// that `word` tells.
    Claimed { item: T, position: int, word: UnsignedShort },
}

/// What a stealer knows of the pop count and head: the word that was loaded, and
/// both counters at that time.
pub struct Look {
    pub pop_count_and_head: UnsignedLong,
    pub popped: int,
    pub claimed: int,
}

/// Where a stealer is.
pub enum StealerState<T> {
    /// Between two operations.
    Idle,
    /// The pop count and head were loaded.
    Looked { look: Look },
    /// The head that is updated on completion was loaded too, when it was
    /// `completed`.
    Checked { look: Look, old_head: UnsignedShort, completed: int },
    /// The push count was loaded too, when it was `pushed`.
    Ready {
        look: Look,
        old_head: UnsignedShort,
        completed: int,
        push_count: UnsignedShort,
        pushed: int,
    },
    /// Items were booked. Those in `rest`, from a position on, are yet to be
    /// moved out, the next one from the slot that `word` tells. The head is
    /// `end` afterwards.
    Moving { rest: Seq<T>, position: int, word: UnsignedShort, end: UnsignedShort },
}

/// A queue and the threads that share it.
pub struct State<T> {
    /// The words and slots of the queue.
    pub push_count: UnsignedShort,
    pub pop_count_and_head: UnsignedLong,
    pub head: UnsignedShort,
    pub slots: Seq<Option<T>>,
    /// The threads.
    pub worker: WorkerState<T>,
    pub stealers: Seq<StealerState<T>>,
    /// The push count, the pop count, the head up to which items were booked and
    /// the head up to which stealing was completed, as numbers that do not wrap
    /// around.
    pub pushed: int,
    pub popped: int,
    pub claimed: int,
    pub completed: int,
    /// The available items, oldest first.
    pub items: Seq<T>,
    /// The items that the ongoing stealing operation is yet to move out.
    pub held: Seq<T>,
    /// All items that were pushed, and all items that the worker and the stealers
    /// have taken.
    pub given: Multiset<T>,
    pub worker_took: Multiset<T>,
    pub stealers_took: Multiset<T>,
    /// The number of items that were booked, over all stealing operations.
    pub booked: nat,
}

/// A step of a thread.
pub enum Step<T> {
    /// The worker starts to push items: it loads the pop count.
    PushLoad,
    /// The worker loads the head.
    PushLoadHead,
    /// The queue is full.
    PushFail,
    /// An item is written to its slot.
    PushWrite { item: T, position: UnsignedShort, next_push_count: UnsignedShort },
    /// The push count that tells the written items is stored.
    PushStore,
    /// The worker starts to pop: it loads the pop count and head.
    PopLoad,
    /// The queue is empty.
    PopFail,
    /// The compare-exchange of the pop count and head succeeds.
    PopClaim { position: UnsignedShort, next: UnsignedLong },
    /// The compare-exchange of the pop count and head fails.
    PopRetry,
    /// The item is read from its slot.
    PopRead,
    /// A stealer starts: it loads the pop count and head.
    StealLoad { i: int },
    /// The stealer loads the head.
    StealLoadHead { i: int },
    /// The stealer loads the push count.
    StealLoadPushCount { i: int },
    /// The stealing operation fails: the heads differ, or none of the items that
    /// the loaded words tell can be stolen, where `wanted` ones are asked for and
    /// there is room for `room`.
    StealFail { i: int, error: StealError, wanted: nat, room: nat },
    /// The compare-exchange of the pop count and head succeeds.
    StealBook { i: int, booking: Booking, wanted: nat, room: nat },
    /// The compare-exchange of the pop count and head fails.
    StealRetry { i: int },
    /// A booked item is moved out of its slot.
    StealMove { i: int },
    /// All items were moved out: the head is stored.
    StealComplete { i: int },
}

impl<T> State<T> {
    /// The number of slots.
    pub open spec fn capacity(self) -> int {
        self.slots.len() as int
    }

    /// The slot of a position.
    pub open spec fn slot(self, position: int) -> Option<T> {
        self.slots[position % self.capacity()]
    }

    /// The position behind the newest item.
    pub open spec fn tail(self) -> int {
        self.pushed - self.popped
    }

    /// The push count that tells items that were written.
    pub open spec fn push_count_behind(self, written: Seq<T>) -> UnsignedShort {
        wrap(self.push_count + written.len()) as UnsignedShort
    }

    /// What a stealer knows after it has loaded the pop count and head.
    pub open spec fn look(self) -> Look {
        Look {
            pop_count_and_head: self.pop_count_and_head,
            popped: self.popped,
            claimed: self.claimed,
        }
    }

    /// The item that the worker has claimed and not yet read.
    pub open spec fn claimed_item(self) -> Multiset<T> {
        match self.worker {
            WorkerState::Claimed { item, .. } => Multiset::singleton(item),
            _ => Multiset::empty(),
        }
    }

    /// A new queue, shared by a number of stealers.
    pub open spec fn init(self) -> bool {
        &&& is_capacity(self.capacity())
        &&& self.push_count == 0
        &&& high(self.pop_count_and_head) == 0
        &&& low(self.pop_count_and_head) == 0
        &&& self.head == 0
        &&& self.worker == WorkerState::<T>::Idle
        &&& forall|i: int| 0 <= i < self.stealers.len() ==> (#[trigger] self.stealers[i]) is Idle
        &&& self.pushed == 0
        &&& self.popped == 0
        &&& self.claimed == 0
        &&& self.completed == 0
        &&& self.items == Seq::<T>::empty()
        &&& self.held == Seq::<T>::empty()
        &&& self.given == Multiset::<T>::empty()
        &&& self.worker_took == Multiset::<T>::empty()
        &&& self.stealers_took == Multiset::<T>::empty()
        &&& self.booked == 0
    }

    /// The state with the worker elsewhere.
    pub open spec fn worker_at(self, worker: WorkerState<T>) -> Self {
        State { worker, ..self }
    }

    /// The state with a stealer elsewhere.
    pub open spec fn stealer_at(self, i: int, stealer: StealerState<T>) -> Self {
        State { stealers: self.stealers.update(i, stealer), ..self }
    }

    /// Whether a thread can take a step, and what the state is afterwards.
    pub open spec fn next(self, step: Step<T>, after: Self) -> bool {
        match step {
            Step::PushLoad => {
                &&& self.worker is Idle
                &&& after == self.worker_at(
                    WorkerState::Pushing { pop_count_and_head: self.pop_count_and_head },
                )
            },
            Step::PushLoadHead => {
                &&& self.worker matches WorkerState::Pushing { pop_count_and_head }
                &&& after == self.worker_at(
                    WorkerState::Writing {
                        pop_count_and_head,
                        head: self.head,
                        seen: self.completed,
                        written: Seq::empty(),
                    },
                )
            },
            Step::PushFail => {
                &&& self.worker matches WorkerState::Writing {
                    pop_count_and_head,
                    head,
                    written,
                    ..
                }
                &&& written.len() == 0
                &&& push_decision(
                    self.push_count,
                    pop_count_and_head,
                    head,
                    self.capacity() as UnsignedShort,
                    None,
                )
                &&& after == self.worker_at(WorkerState::Idle)
            },
            Step::PushWrite { item, position, next_push_count } => {
                &&& self.worker matches WorkerState::Writing {
                    pop_count_and_head,
                    head,
                    seen,
                    written,
                }
                &&& push_decision(
                    self.push_count_behind(written),
                    pop_count_and_head,
                    head,
                    self.capacity() as UnsignedShort,
                    Some((position, next_push_count)),
                )
                &&& after == State {
                    slots: self.slots.update(position as int % self.capacity(), Some(item)),
                    worker: WorkerState::Writing {
                        pop_count_and_head,
                        head,
                        seen,
                        written: written.push(item),
                    },
                    ..self
                }
            },
            Step::PushStore => {
                &&& self.worker matches WorkerState::Writing { written, .. }
                &&& after == State {
                    push_count: self.push_count_behind(written),
                    worker: WorkerState::Idle,
                    pushed: self.pushed + written.len(),
                    items: self.items + written,
                    given: self.given.add(written.to_multiset()),
                    ..self
                }
            },
            Step::PopLoad => {
                &&& self.worker is Idle
                &&& after == self.worker_at(
                    WorkerState::Popping {
                        pop_count_and_head: self.pop_count_and_head,
                        seen: self.claimed,
                    },
                )
            },
            Step::PopFail => {
                &&& self.worker matches WorkerState::Popping { pop_count_and_head, .. }
                &&& pop_decision(pop_count_and_head, self.push_count, None)
                &&& after == self.worker_at(WorkerState::Idle)
            },
            Step::PopClaim { position, next } => {
                &&& self.worker matches WorkerState::Popping { pop_count_and_head, .. }
                &&& pop_decision(pop_count_and_head, self.push_count, Some((position, next)))
                &&& self.pop_count_and_head == pop_count_and_head
                &&& after == State {
                    pop_count_and_head: next,
                    worker: WorkerState::Claimed {
                        item: self.items.last(),
                        position: self.tail() - 1,
                        word: position,
                    },
                    popped: self.popped + 1,
                    items: self.items.drop_last(),
                    ..self
                }
            },
            Step::PopRetry => {
                &&& self.worker is Popping
                &&& after == self.worker_at(
                    WorkerState::Popping {
                        pop_count_and_head: self.pop_count_and_head,
                        seen: self.claimed,
                    },
                )
            },
            Step::PopRead => {
                &&& self.worker matches WorkerState::Claimed { word, .. }
                &&& after == State {
                    slots: self.slots.update(word as int % self.capacity(), None),
                    worker: WorkerState::Idle,
                    worker_took: self.worker_took.insert(self.slot(word as int)->0),
                    ..self
                }
            },
            Step::StealLoad { i } => {
                &&& 0 <= i < self.stealers.len()
                &&& self.stealers[i] is Idle
                &&& after == self.stealer_at(i, StealerState::Looked { look: self.look() })
            },
            Step::StealLoadHead { i } => {
                &&& 0 <= i < self.stealers.len()
                &&& self.stealers[i] matches StealerState::Looked { look }
                &&& after == self.stealer_at(
                    i,
                    StealerState::Checked { look, old_head: self.head, completed: self.completed },
                )
            },
            Step::StealLoadPushCount { i } => {
                &&& 0 <= i < self.stealers.len()
                &&& self.stealers[i] matches StealerState::Checked { look, old_head, completed }
                &&& old_head == low(look.pop_count_and_head)
                &&& after == self.stealer_at(
                    i,
                    StealerState::Ready {
                        look,
                        old_head,
                        completed,
                        push_count: self.push_count,
                        pushed: self.pushed,
                    },
                )
            },
            Step::StealFail { i, error, wanted, room } => {
                &&& 0 <= i < self.stealers.len()
                &&& match self.stealers[i] {
                    StealerState::Checked { look, old_head, .. } => {
                        old_head != low(look.pop_count_and_head) && error == StealError::Busy
                    },
                    StealerState::Ready { look, push_count, .. } => booked(
                        look.pop_count_and_head,
                        steal_count(
                            wanted,
                            room,
                            available(look.pop_count_and_head, push_count) as nat,
                        ),
                        Err(error),
                    ),
                    _ => false,
                }
                &&& after == self.stealer_at(i, StealerState::Idle)
            },
            Step::StealBook { i, booking, wanted, room } => {
                &&& 0 <= i < self.stealers.len()
                &&& self.stealers[i] matches StealerState::Ready {
                    look,
                    old_head,
                    completed,
                    push_count,
                    ..
                }
                &&& old_head == low(look.pop_count_and_head)
                &&& booked(
                    look.pop_count_and_head,
                    steal_count(
                        wanted,
                        room,
                        available(look.pop_count_and_head, push_count) as nat,
                    ),
                    Ok(booking),
                )
                &&& self.pop_count_and_head == look.pop_count_and_head
                &&& self.popped - look.popped < 0x1_0000_0000
                &&& self.claimed - look.claimed < 0x1_0000_0000
                &&& self.claimed - completed < 0x1_0000_0000
                &&& after == State {
                    pop_count_and_head: booking.next,
                    stealers: self.stealers.update(
                        i,
                        StealerState::Moving {
                            rest: self.items.take(booking.count as int),
                            position: self.claimed,
                            word: booking.head,
                            end: booking.new_head,
                        },
                    ),
                    claimed: self.claimed + booking.count,
                    items: self.items.skip(booking.count as int),
                    held: self.items.take(booking.count as int),
                    booked: self.booked + booking.count as nat,
                    ..self
                }
            },
            Step::StealRetry { i } => {
                &&& 0 <= i < self.stealers.len()
                &&& self.stealers[i] matches StealerState::Ready { old_head, completed, .. }
                &&& after == self.stealer_at(
                    i,
                    StealerState::Checked { look: self.look(), old_head, completed },
                )
            },
            Step::StealMove { i } => {
                &&& 0 <= i < self.stealers.len()
                &&& self.stealers[i] matches StealerState::Moving { rest, position, word, end }
                &&& rest.len() > 0
                &&& after == State {
                    slots: self.slots.update(word as int % self.capacity(), None),
                    stealers: self.stealers.update(
                        i,
                        StealerState::Moving {
                            rest: rest.skip(1),
                            position: position + 1,
                            word: wrap(word + 1) as UnsignedShort,
                            end,
                        },
                    ),
                    held: self.held.skip(1),
                    stealers_took: self.stealers_took.insert(self.slot(word as int)->0),
                    ..self
                }
            },
            Step::StealComplete { i } => {
                &&& 0 <= i < self.stealers.len()
                &&& self.stealers[i] matches StealerState::Moving { rest, end, .. }
                &&& rest.len() == 0
                &&& after == State {
                    head: end,
                    stealers: self.stealers.update(i, StealerState::Idle),
                    completed: self.claimed,
                    ..self
                }
            },
        }
    }

    /// The words hold the counters, and the queue is within its capacity.
    pub open spec fn words_ok(self) -> bool {
        &&& is_capacity(self.capacity())
        &&& self.push_count == wrap(self.pushed)
        &&& high(self.pop_count_and_head) == wrap(self.popped)
        &&& low(self.pop_count_and_head) == wrap(self.claimed)
        &&& self.head == wrap(self.completed)
        &&& 0 <= self.popped
        &&& 0 <= self.completed <= self.claimed <= self.tail()
        &&& self.tail() <= self.completed + self.capacity()
        &&& self.items.len() == self.tail() - self.claimed
    }

    /// The available items are in their slots.
    pub open spec fn items_ok(self) -> bool {
        forall|k: int|
            0 <= k < self.items.len() ==> self.slot(self.claimed + k) == Some(
                #[trigger] self.items[k],
            )
    }

    /// What holds of the worker.
    pub open spec fn worker_ok(self) -> bool {
        match self.worker {
            WorkerState::Idle => true,
            WorkerState::Pushing { pop_count_and_head } => {
                high(pop_count_and_head) == wrap(self.popped)
            },
            WorkerState::Writing { pop_count_and_head, head, seen, written } => {
                &&& high(pop_count_and_head) == wrap(self.popped)
                &&& head == wrap(seen)
                &&& seen <= self.completed
                &&& self.tail() + written.len() <= seen + self.capacity()
                &&& forall|k: int|
                    0 <= k < written.len() ==> self.slot(self.tail() + k) == Some(
                        #[trigger] written[k],
                    )
            },
            WorkerState::Popping { pop_count_and_head, seen } => {
                &&& high(pop_count_and_head) == wrap(self.popped)
                &&& low(pop_count_and_head) == wrap(seen)
                &&& seen <= self.claimed
                &&& self.tail() <= seen + self.capacity()
            },
            WorkerState::Claimed { item, position, word } => {
                &&& word == wrap(position)
                &&& position == self.tail()
                &&& position < self.completed + self.capacity()
                &&& self.slot(position) == Some(item)
            },
        }
    }

    /// What a stealer knows of the pop count and head.
    pub open spec fn look_ok(self, look: Look) -> bool {
        &&& high(look.pop_count_and_head) == wrap(look.popped)
        &&& low(look.pop_count_and_head) == wrap(look.claimed)
        &&& look.popped <= self.popped
        &&& look.claimed <= self.claimed
    }

    /// What holds of a stealer.
    pub open spec fn stealer_ok(self, i: int) -> bool {
        match self.stealers[i] {
            StealerState::Idle => true,
            StealerState::Looked { look } => self.look_ok(look),
            StealerState::Checked { look, old_head, completed } => {
                &&& self.look_ok(look)
                &&& old_head == wrap(completed)
                &&& completed <= self.completed
            },
            StealerState::Ready { look, old_head, completed, push_count, pushed } => {
                &&& self.look_ok(look)
                &&& old_head == wrap(completed)
                &&& old_head == low(look.pop_count_and_head)
                &&& completed <= self.completed
                &&& push_count == wrap(pushed)
                &&& pushed <= self.pushed
                // As long as the pop count and head are what they were, the tail is not before
                // the head.
                &&& look.popped == self.popped && look.claimed == self.claimed ==> look.claimed
                    <= pushed - look.popped
            },
            StealerState::Moving { rest, position, word, end } => {
                &&& word == wrap(position)
                &&& end == wrap(self.claimed)
                &&& rest == self.held
                &&& self.completed <= position
                &&& position + rest.len() == self.claimed
                &&& forall|k: int|
                    0 <= k < rest.len() ==> self.slot(position + k) == Some(#[trigger] rest[k])
            },
        }
    }

    /// At most one stealing operation is ongoing, and the heads tell whether one
    /// is.
    pub open spec fn exclusive(self) -> bool {
        &&& forall|i: int, j: int|
            0 <= i < self.stealers.len() && 0 <= j < self.stealers.len() && (
            #[trigger] self.stealers[i]) is Moving && (#[trigger] self.stealers[j]) is Moving ==> i
                == j
        &&& forall|i: int|
            0 <= i < self.stealers.len() && (#[trigger] self.stealers[i]) is Moving
                ==> self.completed < self.claimed
        &&& (forall|i: int|
            0 <= i < self.stealers.len() ==> !((#[trigger] self.stealers[i]) is Moving)) ==> {
            &&& self.completed == self.claimed
            &&& self.held.len() == 0
        }
    }

    /// Every item that was pushed has been popped or stolen, is available, or is
    /// about to be moved out by one thread.
    pub open spec fn accounted(self) -> bool {
        &&& self.given =~= self.worker_took.add(self.stealers_took).add(
            self.items.to_multiset(),
        ).add(self.held.to_multiset()).add(self.claimed_item())
        &&& self.booked == self.stealers_took.len() + self.held.len()
    }

    /// The invariant.
    pub open spec fn inv(self) -> bool {
        &&& self.words_ok()
        &&& self.items_ok()
        &&& self.worker_ok()
        &&& forall|i: int| 0 <= i < self.stealers.len() ==> #[trigger] self.stealer_ok(i)
        &&& self.exclusive()
        &&& self.accounted()
    }
}

/// A new queue satisfies the invariant.
pub proof fn new_queue_satisfies_invariant<T>(state: State<T>)
    requires
        state.init(),
    ensures
        state.inv(),
{
    lemma_wrap_range(0);
    lemma_capacity_bounds(state.capacity());
    Seq::<T>::empty().to_multiset_ensures();
    assert(Seq::<T>::empty().to_multiset() =~= Multiset::<T>::empty());
    assert forall|i: int| 0 <= i < state.stealers.len() implies #[trigger] state.stealer_ok(i) by {
        assert(state.stealers[i] is Idle);
    }
}

/// The tail position, from counters that do not wrap around.
proof fn lemma_tail_position(
    pop_count_and_head: UnsignedLong,
    push_count: UnsignedShort,
    popped: int,
    pushed: int,
)
    requires
        high(pop_count_and_head) == wrap(popped),
        push_count == wrap(pushed),
    ensures
        tail_position(pop_count_and_head, push_count) == wrap(pushed - popped),
{
    reveal(wrap);
}

/// Where only the state of stealers that have booked nothing changes, the rest of
/// the invariant is kept.
proof fn lemma_stealer_step<T>(state: State<T>, i: int, stealer: StealerState<T>)
    requires
        state.inv(),
        0 <= i < state.stealers.len(),
        !(state.stealers[i] is Moving),
        !(stealer is Moving),
        state.stealer_at(i, stealer).stealer_ok(i),
    ensures
        state.stealer_at(i, stealer).inv(),
{
    let after = state.stealer_at(i, stealer);
    assert forall|j: int| 0 <= j < after.stealers.len() implies #[trigger] after.stealer_ok(j) by {
        assert(state.stealer_ok(j));
    }
    assert(after.exclusive()) by {
        assert forall|j: int| 0 <= j < after.stealers.len() implies (#[trigger] after.stealers[j] is
            Moving) == (state.stealers[j] is Moving) by {}
        if forall|j: int| 0 <= j < after.stealers.len() ==> !((#[trigger] after.stealers[j]) is
            Moving) {
            assert forall|j: int| 0 <= j < state.stealers.len() implies !((
            #[trigger] state.stealers[j]) is Moving) by {
                assert(!(after.stealers[j] is Moving));
            }
        }
    }
    assert(after.worker_ok());
}

/// The push count that tells items that were written, as a number that does not
/// wrap around.
proof fn lemma_push_count_behind<T>(state: State<T>, written: Seq<T>)
    requires
        state.words_ok(),
    ensures
        state.push_count_behind(written) == wrap(state.pushed + written.len()),
{
    lemma_wrap_add(state.pushed, written.len() as int);
    lemma_wrap_range(state.push_count + written.len());
}

proof fn lemma_push_write<T>(
    state: State<T>,
    item: T,
    word: UnsignedShort,
    next_push_count: UnsignedShort,
    after: State<T>,
)
    requires
        state.inv(),
        state.next(Step::PushWrite { item, position: word, next_push_count }, after),
    ensures
        after.inv(),
{
    let cap = state.capacity();
    lemma_capacity_bounds(cap);
    match state.worker {
        WorkerState::Writing { pop_count_and_head, head, seen, written } => {
            let position = state.tail() + written.len();
            lemma_push_count_behind(state, written);
            lemma_tail_position(
                pop_count_and_head,
                state.push_count_behind(written),
                state.popped,
                state.pushed + written.len(),
            );
            lemma_position_distance(seen, position);
            lemma_wrap_slot(position, cap);
            lemma_mod_bound(position, cap);
            assert(position < state.completed + cap);
            assert forall|k: int| 0 <= k < written.len() + 1 implies after.slot(after.tail() + k)
                == Some(#[trigger] written.push(item)[k]) by {
                if k < written.len() {
                    assert(state.slot(state.tail() + k) == Some(written[k]));
                    lemma_slot_kept(
                        state.slots,
                        position,
                        Some(item),
                        state.completed,
                        state.tail() + k,
                    );
                }
            }
            assert forall|k: int| 0 <= k < after.items.len() implies after.slot(after.claimed + k)
                == Some(#[trigger] after.items[k]) by {
                lemma_slot_kept(
                    state.slots,
                    position,
                    Some(item),
                    state.completed,
                    state.claimed + k,
                );
            }
            assert forall|i: int| 0 <= i < after.stealers.len() implies #[trigger] after.stealer_ok(
                i,
            ) by {
                assert(state.stealer_ok(i));
                if let StealerState::Moving { rest, position: start, .. } = state.stealers[i] {
                    assert forall|k: int| 0 <= k < rest.len() implies after.slot(start + k) == Some(
                        #[trigger] rest[k],
                    ) by {
                        lemma_slot_kept(
                            state.slots,
                            position,
                            Some(item),
                            state.completed,
                            start + k,
                        );
                    }
                }
            }
            assert(after.worker_ok());
            assert(after.accounted());
        },
        _ => {},
    }
}

proof fn lemma_push_store<T>(state: State<T>, after: State<T>)
    requires
        state.inv(),
        state.next(Step::PushStore, after),
    ensures
        after.inv(),
{
    match state.worker {
        WorkerState::Writing { written, .. } => {
            lemma_push_count_behind(state, written);
            lemma_multiset_commutative(state.items, written);
            assert forall|k: int| 0 <= k < after.items.len() implies after.slot(after.claimed + k)
                == Some(#[trigger] after.items[k]) by {
                if k < state.items.len() {
                    assert(state.slot(state.claimed + k) == Some(state.items[k]));
                } else {
                    let n = k - state.items.len();
                    assert(state.slot(state.tail() + n) == Some(written[n]));
                    assert(state.tail() + n == state.claimed + k);
                }
            }
            assert forall|i: int| 0 <= i < after.stealers.len() implies #[trigger] after.stealer_ok(
                i,
            ) by {
                assert(state.stealer_ok(i));
            }
            assert(after.exclusive());
            assert(after.accounted());
        },
        _ => {},
    }
}

proof fn lemma_pop_claim<T>(
    state: State<T>,
    position: UnsignedShort,
    next: UnsignedLong,
    after: State<T>,
)
    requires
        state.inv(),
        state.next(Step::PopClaim { position, next }, after),
    ensures
        after.inv(),
{
    let cap = state.capacity();
    lemma_capacity_bounds(cap);
    lemma_tail_position(state.pop_count_and_head, state.push_count, state.popped, state.pushed);
    assert(state.items.len() > 0);
    to_multiset_build(state.items.drop_last(), state.items.last());
    assert(state.items.drop_last().push(state.items.last()) =~= state.items);
    lemma_wrap_add(state.popped, 1);
    lemma_wrap_add(state.tail(), -1);
    let newest = state.items.len() - 1;
    assert(state.slot(state.claimed + newest) == Some(state.items[newest]));
    assert forall|k: int| 0 <= k < after.items.len() implies after.slot(after.claimed + k) == Some(
        #[trigger] after.items[k],
    ) by {
        assert(state.slot(state.claimed + k) == Some(state.items[k]));
    }
    assert forall|i: int| 0 <= i < after.stealers.len() implies #[trigger] after.stealer_ok(i) by {
        assert(state.stealer_ok(i));
    }
    assert(after.worker_ok());
    assert(after.exclusive());
    assert(after.accounted());
}

proof fn lemma_pop_read<T>(state: State<T>, after: State<T>)
    requires
        state.inv(),
        state.next(Step::PopRead, after),
    ensures
        after.inv(),
{
    let cap = state.capacity();
    lemma_capacity_bounds(cap);
    match state.worker {
        WorkerState::Claimed { item, position, word } => {
            lemma_wrap_slot(position, cap);
            assert forall|k: int| 0 <= k < after.items.len() implies after.slot(after.claimed + k)
                == Some(#[trigger] after.items[k]) by {
                lemma_slot_kept(state.slots, position, None, state.completed, state.claimed + k);
            }
            assert forall|i: int| 0 <= i < after.stealers.len() implies #[trigger] after.stealer_ok(
                i,
            ) by {
                assert(state.stealer_ok(i));
                if let StealerState::Moving { rest, position: start, .. } = state.stealers[i] {
                    assert forall|k: int| 0 <= k < rest.len() implies after.slot(start + k) == Some(
                        #[trigger] rest[k],
                    ) by {
                        lemma_slot_kept(state.slots, position, None, state.completed, start + k);
                    }
                }
            }
            assert(after.exclusive());
            assert(after.accounted());
        },
        _ => {},
    }
}

/// The number of available items, from counters that do not wrap around.
proof fn lemma_available(
    pop_count_and_head: UnsignedLong,
    push_count: UnsignedShort,
    popped: int,
    claimed: int,
    pushed: int,
)
    requires
        high(pop_count_and_head) == wrap(popped),
        low(pop_count_and_head) == wrap(claimed),
        push_count == wrap(pushed),
        0 <= pushed - popped - claimed < 0x1_0000_0000,
    ensures
        available(pop_count_and_head, push_count) == pushed - popped - claimed,
{
    reveal(wrap);
}

proof fn lemma_steal_book<T>(
    state: State<T>,
    i: int,
    booking: Booking,
    wanted: nat,
    room: nat,
    after: State<T>,
)
    requires
        state.inv(),
        state.next(Step::StealBook { i, booking, wanted, room }, after),
    ensures
        after.inv(),
{
    let cap = state.capacity();
    let count = booking.count as int;
    lemma_capacity_bounds(cap);
    assert(state.stealer_ok(i));
    match state.stealers[i] {
        StealerState::Ready { look, old_head, completed, push_count, pushed } => {
            lemma_same_position(state.popped, look.popped);
            lemma_same_position(state.claimed, look.claimed);
            lemma_same_position(state.claimed, completed);
            lemma_available(
                look.pop_count_and_head,
                push_count,
                look.popped,
                look.claimed,
                pushed,
            );
            lemma_wrap_add(state.claimed, count);
        },
        _ => {},
    }
    assert(state.completed == state.claimed);
    assert(count <= state.items.len());
    lemma_multiset_commutative(state.items.take(count), state.items.skip(count));
    assert(state.items.take(count) + state.items.skip(count) =~= state.items);
    assert forall|k: int| 0 <= k < after.items.len() implies after.slot(after.claimed + k) == Some(
        #[trigger] after.items[k],
    ) by {
        assert(state.slot(state.claimed + (k + count)) == Some(state.items[k + count]));
        assert(after.claimed + k == state.claimed + (k + count));
    }
    assert forall|j: int| 0 <= j < state.stealers.len() implies !((#[trigger] state.stealers[j]) is
        Moving) by {}
    assert(state.held =~= Seq::empty());
    assert forall|j: int| 0 <= j < after.stealers.len() implies #[trigger] after.stealer_ok(j) by {
        assert(state.stealer_ok(j));
        if j == i {
            let rest = state.items.take(count);
            assert forall|k: int| 0 <= k < rest.len() implies after.slot(state.claimed + k) == Some(
                #[trigger] rest[k],
            ) by {
                assert(state.slot(state.claimed + k) == Some(state.items[k]));
            }
        }
    }
    assert forall|j: int| 0 <= j < after.stealers.len() && j != i implies !((
    #[trigger] after.stealers[j]) is Moving) by {
        assert(!(state.stealers[j] is Moving));
    }
    assert(after.stealers[i] is Moving);
    assert(after.exclusive());
    assert(after.worker_ok());
    Seq::<T>::empty().to_multiset_ensures();
    assert(after.accounted());
}

proof fn lemma_steal_move<T>(state: State<T>, i: int, after: State<T>)
    requires
        state.inv(),
        state.next(Step::StealMove { i }, after),
    ensures
        after.inv(),
{
    let cap = state.capacity();
    lemma_capacity_bounds(cap);
    assert(state.stealer_ok(i));
    match state.stealers[i] {
        StealerState::Moving { rest, position, word, end } => {
            lemma_first_item(rest);
            lemma_wrap_slot(position, cap);
            lemma_wrap_add(position, 1);
            lemma_wrap_range(word + 1);
            assert(state.slot(position + 0) == Some(rest[0]));
            assert forall|k: int| 0 <= k < after.items.len() implies after.slot(after.claimed + k)
                == Some(#[trigger] after.items[k]) by {
                lemma_slot_kept(state.slots, position, None, state.completed, state.claimed + k);
            }
            assert forall|j: int| 0 <= j < after.stealers.len() implies #[trigger] after.stealer_ok(
                j,
            ) by {
                assert(state.stealer_ok(j));
                if j == i {
                    let left = rest.skip(1);
                    assert forall|k: int| 0 <= k < left.len() implies after.slot(position + 1 + k)
                        == Some(#[trigger] left[k]) by {
                        assert(state.slot(position + (k + 1)) == Some(rest[k + 1]));
                        assert(position + 1 + k == position + (k + 1));
                        lemma_slot_kept(
                            state.slots,
                            position,
                            None,
                            state.completed,
                            position + (k + 1),
                        );
                    }
                }
            }
            assert(after.worker_ok()) by {
                match state.worker {
                    WorkerState::Writing { written, .. } => {
                        assert forall|k: int| 0 <= k < written.len() implies after.slot(
                            after.tail() + k,
                        ) == Some(#[trigger] written[k]) by {
                            lemma_slot_kept(
                                state.slots,
                                position,
                                None,
                                state.completed,
                                state.tail() + k,
                            );
                        }
                    },
                    WorkerState::Claimed { position: p, .. } => {
                        lemma_slot_kept(state.slots, position, None, state.completed, p);
                    },
                    _ => {},
                }
            }
            assert forall|j: int| 0 <= j < after.stealers.len() implies (
            #[trigger] after.stealers[j] is Moving) == (state.stealers[j] is Moving) by {}
            assert(after.stealers[i] is Moving);
            assert(after.exclusive());
            assert(after.accounted());
        },
        _ => {},
    }
}

proof fn lemma_steal_complete<T>(state: State<T>, i: int, after: State<T>)
    requires
        state.inv(),
        state.next(Step::StealComplete { i }, after),
    ensures
        after.inv(),
{
    assert(state.stealer_ok(i));
    assert(state.stealers[i] is Moving);
    assert forall|j: int| 0 <= j < after.stealers.len() implies !((#[trigger] after.stealers[j]) is
        Moving) by {
        if j != i {
            assert(!(state.stealers[j] is Moving));
        }
    }
    assert forall|j: int| 0 <= j < after.stealers.len() implies #[trigger] after.stealer_ok(j) by {
        assert(state.stealer_ok(j));
        assert(!(after.stealers[j] is Moving));
    }
    assert(after.worker_ok());
    assert(after.exclusive());
    assert(after.accounted());
}

/// Every step of every thread keeps the invariant.
pub proof fn step_keeps_invariant<T>(state: State<T>, step: Step<T>, after: State<T>)
    requires
        state.inv(),
        state.next(step, after),
    ensures
        after.inv(),
{
    lemma_capacity_bounds(state.capacity());
    match step {
        Step::PushWrite { item, position, next_push_count } => {
            lemma_push_write(state, item, position, next_push_count, after);
        },
        Step::PushStore => {
            lemma_push_store(state, after);
        },
        Step::PopClaim { position, next } => {
            lemma_pop_claim(state, position, next, after);
        },
        Step::PopRead => {
            lemma_pop_read(state, after);
        },
        Step::StealLoad { i } => {
            lemma_stealer_step(state, i, after.stealers[i]);
        },
        Step::StealLoadHead { i } => {
            assert(state.stealer_ok(i));
            lemma_stealer_step(state, i, after.stealers[i]);
        },
        Step::StealLoadPushCount { i } => {
            assert(state.stealer_ok(i));
            lemma_stealer_step(state, i, after.stealers[i]);
        },
        Step::StealFail { i, .. } => {
            lemma_stealer_step(state, i, after.stealers[i]);
        },
        Step::StealBook { i, booking, wanted, room } => {
            lemma_steal_book(state, i, booking, wanted, room, after);
        },
        Step::StealRetry { i } => {
            assert(state.stealer_ok(i));
            lemma_stealer_step(state, i, after.stealers[i]);
        },
        Step::StealMove { i } => {
            lemma_steal_move(state, i, after);
        },
        Step::StealComplete { i } => {
            lemma_steal_complete(state, i, after);
        },
        _ => {
            assert forall|j: int| 0 <= j < after.stealers.len() implies #[trigger] after.stealer_ok(
                j,
            ) by {
                assert(state.stealer_ok(j));
            }
            assert(after.worker_ok());
            assert(after.accounted());
        },
    }
}

/// Every state of a run that starts with a new queue satisfies the invariant,
/// whatever the order in which the threads take their steps.
pub proof fn run_keeps_invariant<T>(states: Seq<State<T>>, steps: Seq<Step<T>>, n: int)
    requires
        states.len() == steps.len() + 1,
        states[0].init(),
        forall|i: int|
            0 <= i < steps.len() ==> (#[trigger] states[i]).next(steps[i], states[i + 1]),
        0 <= n < states.len(),
    ensures
        states[n].inv(),
    decreases n,
{
    if n == 0 {
        new_queue_satisfies_invariant(states[0]);
    } else {
        run_keeps_invariant(states, steps, n - 1);
        assert(states[n - 1].next(steps[n - 1], states[n - 1 + 1]));
        step_keeps_invariant(states[n - 1], steps[n - 1], states[n]);
    }
}

/// A push writes to a slot in which there is no item: none that is available, none
/// that was written just before and none that a stealer has booked.
pub proof fn push_overwrites_no_item<T>(
    state: State<T>,
    item: T,
    position: UnsignedShort,
    next_push_count: UnsignedShort,
    after: State<T>,
)
    requires
        state.inv(),
        state.next(Step::PushWrite { item, position, next_push_count }, after),
    ensures
        forall|k: int|
            0 <= k < state.items.len() + state.worker->written.len() ==> (#[trigger] state.slot(
                state.claimed + k,
            )) == after.slot(state.claimed + k),
        forall|i: int, k: int|
            0 <= i < state.stealers.len() && (#[trigger] state.stealers[i]) is Moving && 0 <= k
                < state.held.len() ==> (#[trigger] state.slot(
                state.stealers[i]->Moving_position + k,
            )) == after.slot(state.stealers[i]->Moving_position + k),
{
    lemma_push_write(state, item, position, next_push_count, after);
    assert forall|k: int|
        0 <= k < state.items.len() + state.worker->written.len() implies (#[trigger] state.slot(
        state.claimed + k,
    )) == after.slot(state.claimed + k) by {
        if k < state.items.len() {
            assert(state.items[k] == after.items[k]);
        } else {
            let n = k - state.items.len();
            assert(state.claimed + k == state.tail() + n);
            assert(state.worker->written[n] == after.worker->written[n]);
        }
    }
    assert forall|i: int, k: int|
        0 <= i < state.stealers.len() && (#[trigger] state.stealers[i]) is Moving && 0 <= k
            < state.held.len() implies (#[trigger] state.slot(
        state.stealers[i]->Moving_position + k,
    )) == after.slot(state.stealers[i]->Moving_position + k) by {
        assert(state.stealer_ok(i));
        assert(after.stealer_ok(i));
        assert(state.stealers[i]->rest[k] == after.stealers[i]->rest[k]);
    }
}

/// What the worker reads from the slot of the position that it has claimed is the
/// item that was the newest one when it was claimed.
pub proof fn worker_reads_claimed_item<T>(state: State<T>)
    requires
        state.inv(),
        state.worker is Claimed,
    ensures
        state.slot(state.worker->word as int) == Some(state.worker->Claimed_item),
{
    lemma_capacity_bounds(state.capacity());
    lemma_wrap_slot(state.worker->Claimed_position, state.capacity());
}

/// What a stealer reads from the slots of the positions that it has booked are
/// the items that were the oldest ones when they were booked, oldest first.
pub proof fn stealer_reads_booked_items<T>(state: State<T>, i: int)
    requires
        state.inv(),
        0 <= i < state.stealers.len(),
        state.stealers[i] is Moving,
        state.stealers[i]->rest.len() > 0,
    ensures
        state.slot(state.stealers[i]->word as int) == Some(state.stealers[i]->rest[0]),
{
    lemma_capacity_bounds(state.capacity());
    assert(state.stealer_ok(i));
    lemma_wrap_slot(state.stealers[i]->Moving_position, state.capacity());
    assert(state.slot(state.stealers[i]->Moving_position + 0) == Some(state.stealers[i]->rest[0]));
}

/// Two stealers never move items out of the queue at the same time.
pub proof fn stealing_is_exclusive<T>(state: State<T>, i: int, j: int)
    requires
        state.inv(),
        0 <= i < state.stealers.len(),
        0 <= j < state.stealers.len(),
        state.stealers[i] is Moving,
        state.stealers[j] is Moving,
    ensures
        i == j,
{
}

/// When no thread is in the middle of taking items, what was pushed is what was
/// taken and what is still in the queue: no item is lost, and none is taken twice.
pub proof fn no_item_is_lost_or_taken_twice<T>(state: State<T>)
    requires
        state.inv(),
        !(state.worker is Claimed),
        forall|i: int|
            0 <= i < state.stealers.len() ==> !((#[trigger] state.stealers[i]) is Moving),
    ensures
        state.given =~= state.worker_took.add(state.stealers_took).add(state.items.to_multiset()),
{
    assert(state.held =~= Seq::empty());
    Seq::<T>::empty().to_multiset_ensures();
}

/// A push fails only if all slots were in use when the head was loaded.
pub proof fn push_fails_only_when_full<T>(state: State<T>, after: State<T>)
    requires
        state.inv(),
        state.next(Step::PushFail, after),
    ensures
        state.tail() == state.worker->Writing_seen + state.capacity(),
{
    lemma_capacity_bounds(state.capacity());
    lemma_tail_position(
        state.worker->Writing_pop_count_and_head,
        state.push_count,
        state.popped,
        state.pushed,
    );
    lemma_position_distance(state.worker->Writing_seen, state.tail());
}

/// A pop fails only if there is no item left.
pub proof fn pop_fails_only_when_empty<T>(state: State<T>, after: State<T>)
    requires
        state.inv(),
        state.next(Step::PopFail, after),
    ensures
        state.items.len() == 0,
{
    lemma_capacity_bounds(state.capacity());
    lemma_tail_position(
        state.worker->Popping_pop_count_and_head,
        state.push_count,
        state.popped,
        state.pushed,
    );
    lemma_same_position(state.tail(), state.worker->Popping_seen);
}

/// A pop succeeds only if there is an item left. It takes the newest one.
pub proof fn pop_needs_an_item<T>(
    state: State<T>,
    position: UnsignedShort,
    next: UnsignedLong,
    after: State<T>,
)
    requires
        state.inv(),
        state.next(Step::PopClaim { position, next }, after),
    ensures
        state.items.len() > 0,
        after.items == state.items.drop_last(),
        after.worker == (WorkerState::Claimed {
            item: state.items.last(),
            position: state.tail() - 1,
            word: position,
        }),
{
    lemma_capacity_bounds(state.capacity());
    lemma_tail_position(state.pop_count_and_head, state.push_count, state.popped, state.pushed);
}

/// A queue that is empty stays so until the worker has pushed items.
pub proof fn empty_until_pushed<T>(state: State<T>, step: Step<T>, after: State<T>)
    requires
        state.inv(),
        state.next(step, after),
        !(step is PushStore),
        state.items.len() == 0,
    ensures
        after.items.len() == 0,
{
    step_keeps_invariant(state, step, after);
}

/// The number of free slots can only grow until the worker has pushed items, so
/// that what it has seen of it is never too much.
pub proof fn spare_capacity_is_never_overestimated<T>(
    state: State<T>,
    step: Step<T>,
    after: State<T>,
)
    requires
        state.inv(),
        state.next(step, after),
        !(step is PushStore),
    ensures
        after.capacity() - (after.tail() - after.completed) >= state.capacity() - (state.tail()
            - state.completed),
{
}

/// The heads differ, so that stealers find the queue busy, exactly while a
/// stealing operation is ongoing.
pub proof fn heads_differ_while_stealing<T>(state: State<T>)
    requires
        state.inv(),
    ensures
        state.head != low(state.pop_count_and_head) <==> exists|i: int|
            0 <= i < state.stealers.len() && (#[trigger] state.stealers[i]) is Moving,
{
    lemma_capacity_bounds(state.capacity());
    if state.head == low(state.pop_count_and_head) {
        lemma_same_position(state.claimed, state.completed);
    }
}

/// When no thread is in the middle of taking items, the number of items that were
/// pushed is the number that the worker has popped, the numbers that the stealing
/// operations have returned and the number that is still in the queue.
pub proof fn counts_add_up<T>(state: State<T>)
    requires
        state.inv(),
        !(state.worker is Claimed),
        forall|i: int|
            0 <= i < state.stealers.len() ==> !((#[trigger] state.stealers[i]) is Moving),
    ensures
        state.given.len() == state.worker_took.len() + state.booked + state.items.len(),
{
    assert(state.held =~= Seq::empty());
    Seq::<T>::empty().to_multiset_ensures();
    state.items.to_multiset_ensures();
    no_item_is_lost_or_taken_twice(state);
}

/// A stealing operation is refused as busy only if the heads that it has loaded
/// differ. It is refused as empty only if the counters that it has loaded show no
/// item, or if it may take none.
pub proof fn steal_fails_only_for_cause<T>(
    state: State<T>,
    i: int,
    error: StealError,
    wanted: nat,
    room: nat,
    after: State<T>,
)
    requires
        state.inv(),
        state.next(Step::StealFail { i, error, wanted, room }, after),
    ensures
        error == StealError::Busy ==> {
            &&& state.stealers[i] matches StealerState::Checked { look, old_head, .. }
            &&& old_head != low(look.pop_count_and_head)
        },
        error == StealError::Empty ==> {
            &&& state.stealers[i] matches StealerState::Ready { look, old_head, push_count, .. }
            &&& old_head == low(look.pop_count_and_head)
            &&& tail_position(look.pop_count_and_head, push_count) == low(look.pop_count_and_head)
                || wanted == 0 || room == 0
        },
{
    assert(state.stealer_ok(i));
    reveal(wrap);
    reveal(low);
}

/// The items that are left in a queue are in the slots from the head to the tail,
/// each in a slot of its own. Reading these slots one after the other, as when the
/// queue is dropped, gives each of the items once, and nothing else.
pub proof fn items_left_are_from_head_to_tail<T>(state: State<T>)
    requires
        state.inv(),
    ensures
        available(state.pop_count_and_head, state.push_count) == state.items.len(),
        forall|k: int|
            0 <= k < state.items.len() ==> state.slot(wrap(low(state.pop_count_and_head) + k))
                == Some(#[trigger] state.items[k]),
        forall|j: int, k: int|
            0 <= j < state.items.len() && 0 <= k < state.items.len() && j != k ==> #[trigger] wrap(
                low(state.pop_count_and_head) + j,
            ) % state.capacity() != #[trigger] wrap(low(state.pop_count_and_head) + k)
                % state.capacity(),
{
    let cap = state.capacity();
    lemma_capacity_bounds(cap);
    lemma_available(
        state.pop_count_and_head,
        state.push_count,
        state.popped,
        state.claimed,
        state.pushed,
    );
    assert forall|k: int| 0 <= k < state.items.len() implies state.slot(
        wrap(low(state.pop_count_and_head) + k),
    ) == Some(#[trigger] state.items[k]) by {
        lemma_wrap_add(state.claimed, k);
        lemma_wrap_slot(state.claimed + k, cap);
    }
    assert forall|j: int, k: int|
        0 <= j < state.items.len() && 0 <= k < state.items.len() && j != k implies #[trigger] wrap(
        low(state.pop_count_and_head) + j,
    ) % cap != #[trigger] wrap(low(state.pop_count_and_head) + k) % cap by {
        lemma_wrap_add(state.claimed, j);
        lemma_wrap_add(state.claimed, k);
        lemma_wrap_slot(state.claimed + j, cap);
        lemma_wrap_slot(state.claimed + k, cap);
        lemma_distinct_slots(state.claimed, state.claimed + j, state.claimed + k, cap);
    }
}

impl<T> Step<T> {
    /// Whether the worker takes the step.
    pub open spec fn by_worker(self) -> bool {
        match self {
            Step::PushLoad => true,
            Step::PushLoadHead => true,
            Step::PushFail => true,
            Step::PushWrite { .. } => true,
            Step::PushStore => true,
            Step::PopLoad => true,
            Step::PopFail => true,
            Step::PopClaim { .. } => true,
            Step::PopRetry => true,
            Step::PopRead => true,
            _ => false,
        }
    }

    /// Whether a stealer takes the step.
    pub open spec fn by_stealer(self, i: int) -> bool {
        match self {
            Step::StealLoad { i: j } => i == j,
            Step::StealLoadHead { i: j } => i == j,
            Step::StealLoadPushCount { i: j } => i == j,
            Step::StealFail { i: j, .. } => i == j,
            Step::StealBook { i: j, .. } => i == j,
            Step::StealRetry { i: j } => i == j,
            Step::StealMove { i: j } => i == j,
            Step::StealComplete { i: j } => i == j,
            _ => false,
        }
    }

    /// Whether the step is a compare-exchange that fails.
    pub open spec fn is_retry(self) -> bool {
        self is PopRetry || self is StealRetry
    }
}

impl<T> State<T> {
    /// Whether the worker has to load the pop count and head again: they have
    /// changed.
    pub open spec fn worker_is_late(self) -> bool {
        self.worker matches WorkerState::Popping { pop_count_and_head, .. } && pop_count_and_head
            != self.pop_count_and_head
    }

    /// Whether a stealer has to load the pop count and head again: they have
    /// changed, or a counter has gone round all values.
    pub open spec fn stealer_is_late(self, i: int) -> bool {
        self.stealers[i] matches StealerState::Ready { look, completed, .. } && {
            ||| look.pop_count_and_head != self.pop_count_and_head
            ||| self.popped - look.popped >= 0x1_0000_0000
            ||| self.claimed - look.claimed >= 0x1_0000_0000
            ||| self.claimed - completed >= 0x1_0000_0000
        }
    }
}

/// A worker in the middle of an operation always has a step to take. It gets ahead
/// with its operation unless it has to load the pop count and head again.
pub proof fn worker_can_go_on<T>(state: State<T>)
    requires
        state.inv(),
        !(state.worker is Idle),
    ensures
        exists|step: Step<T>, after: State<T>| #[trigger]
            state.next(step, after) && step.by_worker() && (step.is_retry()
                ==> state.worker_is_late()),
{
    match state.worker {
        WorkerState::Idle => {},
        WorkerState::Pushing { pop_count_and_head } => {
            let after = state.worker_at(
                WorkerState::Writing {
                    pop_count_and_head,
                    head: state.head,
                    seen: state.completed,
                    written: Seq::empty(),
                },
            );
            assert(state.next(Step::PushLoadHead, after));
        },
        WorkerState::Writing { written, .. } => {
            let after = State {
                push_count: state.push_count_behind(written),
                worker: WorkerState::Idle,
                pushed: state.pushed + written.len(),
                items: state.items + written,
                given: state.given.add(written.to_multiset()),
                ..state
            };
            assert(state.next(Step::PushStore, after));
        },
        WorkerState::Popping { pop_count_and_head: word, .. } => {
            let tail = tail_position(word, state.push_count);
            if word != state.pop_count_and_head {
                let after = state.worker_at(
                    WorkerState::Popping {
                        pop_count_and_head: state.pop_count_and_head,
                        seen: state.claimed,
                    },
                );
                assert(state.next(Step::PopRetry, after));
            } else if tail == low(word) {
                assert(state.next(Step::PopFail, state.worker_at(WorkerState::Idle)));
            } else {
                lemma_parts_range(word);
                lemma_wrap_range(high(word) + 1);
                lemma_wrap_range(tail - 1);
                let position = wrap(tail - 1) as UnsignedShort;
                let next = lemma_packed(wrap(high(word) + 1), low(word));
                let after = State {
                    pop_count_and_head: next,
                    worker: WorkerState::Claimed {
                        item: state.items.last(),
                        position: state.tail() - 1,
                        word: position,
                    },
                    popped: state.popped + 1,
                    items: state.items.drop_last(),
                    ..state
                };
                assert(state.next(Step::PopClaim { position, next }, after));
            }
        },
        WorkerState::Claimed { word, .. } => {
            let after = State {
                slots: state.slots.update(word as int % state.capacity(), None),
                worker: WorkerState::Idle,
                worker_took: state.worker_took.insert(state.slot(word as int)->0),
                ..state
            };
            assert(state.next(Step::PopRead, after));
        },
    }
}

/// A stealer in the middle of an operation always has a step to take, however many
/// items it asks for. It gets ahead with its operation unless it has to load the
/// pop count and head again.
pub proof fn stealer_can_go_on<T>(state: State<T>, i: int, wanted: nat, room: nat)
    requires
        state.inv(),
        0 <= i < state.stealers.len(),
        !(state.stealers[i] is Idle),
    ensures
        exists|step: Step<T>, after: State<T>| #[trigger]
            state.next(step, after) && step.by_stealer(i) && (step.is_retry()
                ==> state.stealer_is_late(i)),
{
    assert(state.stealer_ok(i));
    match state.stealers[i] {
        StealerState::Idle => {},
        StealerState::Looked { look } => {
            let after = state.stealer_at(
                i,
                StealerState::Checked { look, old_head: state.head, completed: state.completed },
            );
            assert(state.next(Step::StealLoadHead { i }, after));
        },
        StealerState::Checked { look, old_head, completed } => {
            if old_head == low(look.pop_count_and_head) {
                let after = state.stealer_at(
                    i,
                    StealerState::Ready {
                        look,
                        old_head,
                        completed,
                        push_count: state.push_count,
                        pushed: state.pushed,
                    },
                );
                assert(state.next(Step::StealLoadPushCount { i }, after));
            } else {
                let step = Step::StealFail { i, error: StealError::Busy, wanted, room };
                assert(state.next(step, state.stealer_at(i, StealerState::Idle)));
            }
        },
        StealerState::Ready { look, old_head, completed, push_count, .. } => {
            let word = look.pop_count_and_head;
            let count = steal_count(wanted, room, available(word, push_count) as nat);
            lemma_wrap_range(tail_position(word, push_count) - low(word));
            if state.stealer_is_late(i) {
                let after = state.stealer_at(
                    i,
                    StealerState::Checked { look: state.look(), old_head, completed },
                );
                assert(state.next(Step::StealRetry { i }, after));
            } else if count == 0 {
                let step = Step::StealFail { i, error: StealError::Empty, wanted, room };
                assert(state.next(step, state.stealer_at(i, StealerState::Idle)));
            } else {
                lemma_parts_range(word);
                lemma_wrap_range(low(word) + count);
                let new_head = wrap(low(word) + count);
                let booking = Booking {
                    head: low(word) as UnsignedShort,
                    new_head: new_head as UnsignedShort,
                    count: count as UnsignedShort,
                    next: lemma_packed(high(word), new_head),
                };
                let after = State {
                    pop_count_and_head: booking.next,
                    stealers: state.stealers.update(
                        i,
                        StealerState::Moving {
                            rest: state.items.take(booking.count as int),
                            position: state.claimed,
                            word: booking.head,
                            end: booking.new_head,
                        },
                    ),
                    claimed: state.claimed + booking.count,
                    items: state.items.skip(booking.count as int),
                    held: state.items.take(booking.count as int),
                    booked: state.booked + booking.count as nat,
                    ..state
                };
                assert(state.next(Step::StealBook { i, booking, wanted, room }, after));
            }
        },
        StealerState::Moving { rest, position, word, end } => {
            if rest.len() > 0 {
                let after = State {
                    slots: state.slots.update(word as int % state.capacity(), None),
                    stealers: state.stealers.update(
                        i,
                        StealerState::Moving {
                            rest: rest.skip(1),
                            position: position + 1,
                            word: wrap(word + 1) as UnsignedShort,
                            end,
                        },
                    ),
                    held: state.held.skip(1),
                    stealers_took: state.stealers_took.insert(state.slot(word as int)->0),
                    ..state
                };
                assert(state.next(Step::StealMove { i }, after));
            } else {
                let after = State {
                    head: end,
                    stealers: state.stealers.update(i, StealerState::Idle),
                    completed: state.claimed,
                    ..state
                };
                assert(state.next(Step::StealComplete { i }, after));
            }
        },
    }
}

/// The pop count and head change only where some thread gets ahead: it claims an
/// item or books items.
pub proof fn heads_change_only_by_progress<T>(state: State<T>, step: Step<T>, after: State<T>)
    requires
        state.next(step, after),
        after.pop_count_and_head != state.pop_count_and_head,
    ensures
        step is PopClaim || step is StealBook,
{
}

/// What a step keeps, of a run from a worker between two operations on.
proof fn lemma_step_from_idle<T>(state: State<T>, step: Step<T>, after: State<T>, completed: int)
    requires
        state.words_ok(),
        state.next(step, after),
        state.completed >= completed,
        state.worker matches WorkerState::Writing { seen, .. } ==> seen >= completed,
    ensures
        after.capacity() == state.capacity(),
        after.popped >= state.popped,
        after.completed >= completed,
        after.worker matches WorkerState::Writing { seen, .. } ==> seen >= completed,
{
    let cap = state.capacity();
    lemma_capacity_bounds(cap);
    match step {
        Step::PushWrite { position, .. } => {
            lemma_mod_bound(position as int, cap);
        },
        Step::PopRead => {
            lemma_mod_bound(state.worker->word as int, cap);
        },
        Step::StealMove { i } => {
            lemma_mod_bound(state.stealers[i]->word as int, cap);
        },
        _ => {},
    }
}

/// What a run keeps, from a worker between two operations on.
proof fn lemma_run_from_idle<T>(states: Seq<State<T>>, steps: Seq<Step<T>>, n: int)
    requires
        states.len() == steps.len() + 1,
        states[0].inv(),
        states[0].worker is Idle,
        forall|i: int|
            0 <= i < steps.len() ==> (#[trigger] states[i]).next(steps[i], states[i + 1]),
        0 <= n < states.len(),
    ensures
        states[n].inv(),
        states[n].capacity() == states[0].capacity(),
        states[n].popped >= states[0].popped,
        states[n].completed >= states[0].completed,
        states[n].worker matches WorkerState::Writing { seen, .. } ==> seen >= states[0].completed,
    decreases n,
{
    if n > 0 {
        lemma_run_from_idle(states, steps, n - 1);
        assert(states[n - 1].next(steps[n - 1], states[n - 1 + 1]));
        step_keeps_invariant(states[n - 1], steps[n - 1], states[n]);
        lemma_step_from_idle(states[n - 1], steps[n - 1], states[n], states[0].completed);
    }
}

/// The number of free slots that the worker is told between two operations is a
/// number of items that it can push, whatever the stealers do: in any run from
/// there, the worker finds no slot free only after it has pushed or written as many
/// items, and as many more than it has popped.
pub proof fn told_spare_capacity_can_be_used<T>(states: Seq<State<T>>, steps: Seq<Step<T>>, n: int)
    requires
        states.len() == steps.len() + 1,
        states[0].inv(),
        states[0].worker is Idle,
        forall|i: int|
            0 <= i < steps.len() ==> (#[trigger] states[i]).next(steps[i], states[i + 1]),
        0 <= n < states.len(),
        states[n].worker matches WorkerState::Writing { pop_count_and_head, head, written, .. }
            && push_decision(
            states[n].push_count_behind(written),
            pop_count_and_head,
            head,
            states[n].capacity() as UnsignedShort,
            None,
        ),
    ensures
        ({
            let start = states[0];
            let spare = start.capacity() - wrap(
                tail_position(start.pop_count_and_head, start.push_count) - start.head,
            );
            let written = states[n].worker->written.len();
            &&& states[n].tail() + written - start.tail() >= spare
            &&& states[n].pushed + written - start.pushed >= spare
        }),
{
    lemma_run_from_idle(states, steps, n);
    lemma_full(states[n]);
    lemma_told(states[0]);
}

/// What the worker is told of the number of free slots.
proof fn lemma_told<T>(state: State<T>)
    requires
        state.words_ok(),
    ensures
        wrap(tail_position(state.pop_count_and_head, state.push_count) - state.head) == state.tail()
            - state.completed,
{
    lemma_capacity_bounds(state.capacity());
    lemma_tail_position(state.pop_count_and_head, state.push_count, state.popped, state.pushed);
    lemma_position_distance(state.completed, state.tail());
}

/// Where the worker finds no slot free, all slots were in use when the head was
/// loaded, by items that are still there or that it has written.
proof fn lemma_full<T>(state: State<T>)
    requires
        state.words_ok(),
        state.worker_ok(),
        state.worker matches WorkerState::Writing { pop_count_and_head, head, written, .. }
            && push_decision(
            state.push_count_behind(written),
            pop_count_and_head,
            head,
            state.capacity() as UnsignedShort,
            None,
        ),
    ensures
        state.tail() + state.worker->written.len() == state.worker->Writing_seen + state.capacity(),
{
    lemma_capacity_bounds(state.capacity());
    match state.worker {
        WorkerState::Writing { pop_count_and_head, seen, written, .. } => {
            lemma_push_count_behind(state, written);
            lemma_tail_position(
                pop_count_and_head,
                state.push_count_behind(written),
                state.popped,
                state.pushed + written.len(),
            );
            lemma_position_distance(seen, state.tail() + written.len());
        },
        _ => {},
    }
}

} // verus!
