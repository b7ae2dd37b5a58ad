//! Threads that share several queues.
//!
//! A thread may run the worker of some queues and be a stealer of others. What it
//! takes out of a queue it holds in its hands, until it puts it into another one:
//! stealing into a queue is taking items out of one queue, as a stealer, and
//! putting them into another, as its worker. The steps of all threads on all queues
//! follow each other in any order.
use vstd::multiset::Multiset;
use vstd::prelude::*;
use vstd::seq_lib::to_multiset_build;

use crate::{fifo_protocol, lifo_protocol};

verus! {

/// Who takes a step on a queue.
pub enum Actor {
    Worker,
    Stealer { i: int },
}

/// What a step on a queue does to the items in it.
pub enum Effect<T> {
    /// No item enters or leaves the queue.
    Nothing,
    /// An item is read and leaves the queue.
    Take { item: T },
    /// An item is written and enters the queue.
    Put { item: T },
}

/// A queue that threads share, in steps that are one access each.
pub trait Shared<T>: Sized {
    /// A step of a thread.
    type Step;

    /// A new queue.
    spec fn is_new(self) -> bool;

    /// What holds in every state.
    spec fn sound(self) -> bool;

    /// Whether a step can be taken, and what the state is afterwards.
    spec fn moves(self, step: Self::Step, after: Self) -> bool;

    /// Who takes a step.
    spec fn actor(step: Self::Step) -> Actor;

    /// What a step does to the items.
    spec fn effect(self, step: Self::Step) -> Effect<T>;

    /// All items in the queue, wherever a thread is with them.
    spec fn contents(self) -> Multiset<T>;

    /// A new queue is sound and holds nothing.
    proof fn new_is_sound(self)
        requires
            self.is_new(),
        ensures
            self.sound(),
            self.contents() == Multiset::<T>::empty(),
    ;

    /// A step keeps a queue sound and changes its items by its effect only.
    proof fn step_is_sound(self, step: Self::Step, after: Self)
        requires
            self.sound(),
            self.moves(step, after),
        ensures
            after.sound(),
            match self.effect(step) {
                Effect::Nothing => after.contents() == self.contents(),
                Effect::Take { item } => after.contents().insert(item) == self.contents(),
                Effect::Put { item } => after.contents() == self.contents().insert(item),
            },
    ;
}

/// The items that the worker of a FIFO queue has written and not yet made visible.
pub open spec fn fifo_written<T>(state: fifo_protocol::State<T>) -> Seq<T> {
    match state.worker {
        fifo_protocol::WorkerState::Pushing { written, .. } => written,
        _ => Seq::empty(),
    }
}

/// What is in a FIFO queue, from what was put into it and taken out of it.
proof fn lemma_fifo_contents<T>(state: fifo_protocol::State<T>)
    requires
        state.inv(),
    ensures
        forall|item: T| #[trigger]
            state.contents().count(item) + state.worker_took.count(item)
                + state.stealers_took.count(item) == state.given.count(item) + fifo_written(
                state,
            ).to_multiset().count(item),
{
    assert forall|item: T| #[trigger]
        state.contents().count(item) + state.worker_took.count(item) + state.stealers_took.count(
            item,
        ) == state.given.count(item) + fifo_written(state).to_multiset().count(item) by {
        assert(state.given.count(item) == state.worker_took.add(state.stealers_took).add(
            state.items.to_multiset(),
        ).add(state.held.to_multiset()).add(state.claimed_item()).count(item));
    }
}

impl<T> Shared<T> for fifo_protocol::State<T> {
    type Step = fifo_protocol::Step<T>;

    open spec fn is_new(self) -> bool {
        self.init()
    }

    open spec fn sound(self) -> bool {
        self.inv()
    }

    open spec fn moves(self, step: Self::Step, after: Self) -> bool {
        self.next(step, after)
    }

    open spec fn actor(step: Self::Step) -> Actor {
        match step {
            fifo_protocol::Step::StealLoad { i } => Actor::Stealer { i },
            fifo_protocol::Step::StealLoadTail { i } => Actor::Stealer { i },
            fifo_protocol::Step::StealFail { i, .. } => Actor::Stealer { i },
            fifo_protocol::Step::StealBook { i, .. } => Actor::Stealer { i },
            fifo_protocol::Step::StealRetry { i } => Actor::Stealer { i },
            fifo_protocol::Step::StealMove { i } => Actor::Stealer { i },
            fifo_protocol::Step::StealLoadHeads { i } => Actor::Stealer { i },
            fifo_protocol::Step::StealComplete { i, .. } => Actor::Stealer { i },
            fifo_protocol::Step::StealCompleteRetry { i } => Actor::Stealer { i },
            _ => Actor::Worker,
        }
    }

    open spec fn effect(self, step: Self::Step) -> Effect<T> {
        match step {
            fifo_protocol::Step::PushWrite { item, .. } => Effect::Put { item },
            fifo_protocol::Step::PopRead => Effect::Take {
                item: self.slot(self.worker->word as int)->0,
            },
            fifo_protocol::Step::StealMove { i } => Effect::Take {
                item: self.slot(self.stealers[i]->word as int)->0,
            },
            _ => Effect::Nothing,
        }
    }

    open spec fn contents(self) -> Multiset<T> {
        self.items.to_multiset().add(self.held.to_multiset()).add(self.claimed_item()).add(
            fifo_written(self).to_multiset(),
        )
    }

    proof fn new_is_sound(self) {
        fifo_protocol::new_queue_satisfies_invariant(self);
        Seq::<T>::empty().to_multiset_ensures();
        assert(self.contents() =~= Multiset::<T>::empty());
    }

    proof fn step_is_sound(self, step: Self::Step, after: Self) {
        fifo_protocol::step_keeps_invariant(self, step, after);
        lemma_fifo_contents(self);
        lemma_fifo_contents(after);
        Seq::<T>::empty().to_multiset_ensures();
        assert(Seq::<T>::empty().to_multiset() =~= Multiset::<T>::empty());
        match self.effect(step) {
            Effect::Nothing => {
                if step is PushFail {
                    assert(fifo_written(self) =~= Seq::empty());
                }
                assert(after.contents() =~= self.contents());
            },
            Effect::Take { item } => {
                assert(after.contents().insert(item) =~= self.contents());
            },
            Effect::Put { item } => {
                to_multiset_build(self.worker->written, item);
                assert(after.contents() =~= self.contents().insert(item));
            },
        }
    }
}

/// The items that the worker of a LIFO queue has written and not yet made visible.
pub open spec fn lifo_written<T>(state: lifo_protocol::State<T>) -> Seq<T> {
    match state.worker {
        lifo_protocol::WorkerState::Writing { written, .. } => written,
        _ => Seq::empty(),
    }
}

/// What is in a LIFO queue, from what was put into it and taken out of it.
proof fn lemma_lifo_contents<T>(state: lifo_protocol::State<T>)
    requires
        state.inv(),
    ensures
        forall|item: T| #[trigger]
            state.contents().count(item) + state.worker_took.count(item)
                + state.stealers_took.count(item) == state.given.count(item) + lifo_written(
                state,
            ).to_multiset().count(item),
{
    assert forall|item: T| #[trigger]
        state.contents().count(item) + state.worker_took.count(item) + state.stealers_took.count(
            item,
        ) == state.given.count(item) + lifo_written(state).to_multiset().count(item) by {
        assert(state.given.count(item) == state.worker_took.add(state.stealers_took).add(
            state.items.to_multiset(),
        ).add(state.held.to_multiset()).add(state.claimed_item()).count(item));
    }
}

impl<T> Shared<T> for lifo_protocol::State<T> {
    type Step = lifo_protocol::Step<T>;

    open spec fn is_new(self) -> bool {
        self.init()
    }

    open spec fn sound(self) -> bool {
        self.inv()
    }

    open spec fn moves(self, step: Self::Step, after: Self) -> bool {
        self.next(step, after)
    }

    open spec fn actor(step: Self::Step) -> Actor {
        match step {
            lifo_protocol::Step::StealLoad { i } => Actor::Stealer { i },
            lifo_protocol::Step::StealLoadHead { i } => Actor::Stealer { i },
            lifo_protocol::Step::StealLoadPushCount { i } => Actor::Stealer { i },
            lifo_protocol::Step::StealFail { i, .. } => Actor::Stealer { i },
            lifo_protocol::Step::StealBook { i, .. } => Actor::Stealer { i },
            lifo_protocol::Step::StealRetry { i } => Actor::Stealer { i },
            lifo_protocol::Step::StealMove { i } => Actor::Stealer { i },
            lifo_protocol::Step::StealComplete { i } => Actor::Stealer { i },
            _ => Actor::Worker,
        }
    }

    open spec fn effect(self, step: Self::Step) -> Effect<T> {
        match step {
            lifo_protocol::Step::PushWrite { item, .. } => Effect::Put { item },
            lifo_protocol::Step::PopRead => Effect::Take {
                item: self.slot(self.worker->word as int)->0,
            },
            lifo_protocol::Step::StealMove { i } => Effect::Take {
                item: self.slot(self.stealers[i]->word as int)->0,
            },
            _ => Effect::Nothing,
        }
    }

    open spec fn contents(self) -> Multiset<T> {
        self.items.to_multiset().add(self.held.to_multiset()).add(self.claimed_item()).add(
            lifo_written(self).to_multiset(),
        )
    }

    proof fn new_is_sound(self) {
        lifo_protocol::new_queue_satisfies_invariant(self);
        Seq::<T>::empty().to_multiset_ensures();
        assert(self.contents() =~= Multiset::<T>::empty());
    }

    proof fn step_is_sound(self, step: Self::Step, after: Self) {
        lifo_protocol::step_keeps_invariant(self, step, after);
        lemma_lifo_contents(self);
        lemma_lifo_contents(after);
        Seq::<T>::empty().to_multiset_ensures();
        assert(Seq::<T>::empty().to_multiset() =~= Multiset::<T>::empty());
        match self.effect(step) {
            Effect::Nothing => {
                if step is PushFail {
                    assert(lifo_written(self) =~= Seq::empty());
                }
                assert(after.contents() =~= self.contents());
            },
            Effect::Take { item } => {
                assert(after.contents().insert(item) =~= self.contents());
            },
            Effect::Put { item } => {
                to_multiset_build(self.worker->written, item);
                assert(after.contents() =~= self.contents().insert(item));
            },
        }
    }
}

/// All items in a row of sets.
pub open spec fn total<T>(sets: Seq<Multiset<T>>) -> Multiset<T>
    decreases sets.len(),
{
    if sets.len() == 0 {
        Multiset::empty()
    } else {
        total(sets.drop_last()).add(sets.last())
    }
}

/// The number of items in a row of sets.
pub open spec fn total_len<T>(sets: Seq<Multiset<T>>) -> nat
    decreases sets.len(),
{
    if sets.len() == 0 {
        0
    } else {
        total_len(sets.drop_last()) + sets.last().len()
    }
}

/// Queues and the threads that share them.
pub struct System<T, Q> {
    /// The queues.
    pub queues: Seq<Q>,
    /// The threads that run the worker and each stealer of each queue.
    pub workers: Seq<int>,
    pub stealers: Seq<Seq<int>>,
    /// What each thread holds in its hands: the items that it has obtained and not
    /// put into a queue.
    pub hands: Seq<Multiset<T>>,
    /// All items that the threads have made and put into a queue.
    pub made: Multiset<T>,
}

impl<T, Q: Shared<T>> System<T, Q> {
    /// The thread that takes a step on a queue.
    pub open spec fn thread(self, q: int, actor: Actor) -> int {
        match actor {
            Actor::Worker => self.workers[q],
            Actor::Stealer { i } => self.stealers[q][i],
        }
    }

    /// The items in each queue.
    pub open spec fn in_queues(self) -> Seq<Multiset<T>> {
        self.queues.map_values(|queue: Q| queue.contents())
    }

    /// New queues, and threads with nothing in their hands.
    pub open spec fn init(self) -> bool {
        &&& forall|q: int| 0 <= q < self.queues.len() ==> (#[trigger] self.queues[q]).is_new()
        &&& forall|t: int|
            0 <= t < self.hands.len() ==> (#[trigger] self.hands[t]) == Multiset::<T>::empty()
        &&& self.made == Multiset::<T>::empty()
    }

    /// Whether a thread can take a step on a queue, and what holds afterwards. An
    /// item that is put into the queue is a `fresh` one or comes from the hands of
    /// the thread.
    pub open spec fn next(self, q: int, step: Q::Step, fresh: bool, after: Self) -> bool {
        let t = self.thread(q, Q::actor(step));
        &&& 0 <= q < self.queues.len()
        &&& 0 <= t < self.hands.len()
        &&& self.queues[q].moves(step, after.queues[q])
        &&& after.queues == self.queues.update(q, after.queues[q])
        &&& after.workers == self.workers
        &&& after.stealers == self.stealers
        &&& match self.queues[q].effect(step) {
            Effect::Nothing => after.hands == self.hands && after.made == self.made,
            Effect::Take { item } => {
                &&& after.hands == self.hands.update(t, self.hands[t].insert(item))
                &&& after.made == self.made
            },
            Effect::Put { item } => if fresh {
                &&& after.hands == self.hands
                &&& after.made == self.made.insert(item)
            } else {
                &&& self.hands[t].count(item) > 0
                &&& after.hands == self.hands.update(t, self.hands[t].remove(item))
                &&& after.made == self.made
            },
        }
    }

    /// Each item is in the hands of a thread or in a queue.
    pub open spec fn inv(self) -> bool {
        &&& forall|q: int| 0 <= q < self.queues.len() ==> (#[trigger] self.queues[q]).sound()
        &&& self.made == total(self.hands).add(total(self.in_queues()))
    }
}

/// Replacing one set changes the total by the difference of that set.
proof fn lemma_total_update<T>(sets: Seq<Multiset<T>>, i: int, set: Multiset<T>)
    requires
        0 <= i < sets.len(),
    ensures
        forall|item: T|
            total(sets.update(i, set)).count(item) + sets[i].count(item) == #[trigger] total(
                sets,
            ).count(item) + set.count(item),
    decreases sets.len(),
{
    let front = sets.drop_last();
    if i == sets.len() - 1 {
        assert(sets.update(i, set).drop_last() =~= front);
    } else {
        lemma_total_update(front, i, set);
        assert(sets.update(i, set).drop_last() =~= front.update(i, set));
    }
    assert forall|item: T|
        total(sets.update(i, set)).count(item) + sets[i].count(item) == #[trigger] total(
            sets,
        ).count(item) + set.count(item) by {
        assert(total(sets).count(item) == total(front).count(item) + sets.last().count(item));
    }
}

/// Empty sets hold nothing.
proof fn lemma_total_empty<T>(sets: Seq<Multiset<T>>)
    requires
        forall|i: int| 0 <= i < sets.len() ==> (#[trigger] sets[i]) == Multiset::<T>::empty(),
    ensures
        total(sets) == Multiset::<T>::empty(),
    decreases sets.len(),
{
    if sets.len() > 0 {
        lemma_total_empty(sets.drop_last());
        assert(sets.last() == sets[sets.len() - 1]);
        assert(total(sets) =~= Multiset::<T>::empty());
    }
}

/// The number of items in all sets is the number of items in their total.
proof fn lemma_total_len<T>(sets: Seq<Multiset<T>>)
    ensures
        total(sets).len() == total_len(sets),
    decreases sets.len(),
{
    if sets.len() > 0 {
        lemma_total_len(sets.drop_last());
    }
}

/// An item that is in no set is not in their total.
proof fn lemma_total_without<T>(sets: Seq<Multiset<T>>, item: T)
    requires
        total(sets).count(item) == 0,
    ensures
        forall|i: int| 0 <= i < sets.len() ==> (#[trigger] sets[i]).count(item) == 0,
    decreases sets.len(),
{
    if sets.len() > 0 {
        lemma_total_without(sets.drop_last(), item);
        assert forall|i: int| 0 <= i < sets.len() implies (#[trigger] sets[i]).count(item) == 0 by {
            if i < sets.len() - 1 {
                assert(sets.drop_last()[i] == sets[i]);
            }
        }
    }
}

/// An item that is once in the total is in exactly one set.
proof fn lemma_total_once<T>(sets: Seq<Multiset<T>>, item: T) -> (t: int)
    requires
        total(sets).count(item) == 1,
    ensures
        0 <= t < sets.len(),
        sets[t].count(item) == 1,
        forall|u: int| 0 <= u < sets.len() && u != t ==> (#[trigger] sets[u]).count(item) == 0,
    decreases sets.len(),
{
    let front = sets.drop_last();
    assert(sets.len() > 0);
    let t = if sets.last().count(item) == 1 {
        lemma_total_without(front, item);
        sets.len() - 1
    } else {
        lemma_total_once(front, item)
    };
    assert forall|u: int| 0 <= u < sets.len() && u != t implies (#[trigger] sets[u]).count(item)
        == 0 by {
        if u < sets.len() - 1 {
            assert(front[u] == sets[u]);
        }
    }
    t
}

/// At the start, no thread and no queue holds an item.
pub proof fn start_satisfies_invariant<T, Q: Shared<T>>(system: System<T, Q>)
    requires
        system.init(),
    ensures
        system.inv(),
{
    assert forall|q: int| 0 <= q < system.queues.len() implies (#[trigger] system.queues[q]).sound()
        && system.queues[q].contents() == Multiset::<T>::empty() by {
        system.queues[q].new_is_sound();
    }
    lemma_total_empty(system.hands);
    lemma_total_empty(system.in_queues());
    assert(total(system.hands).add(total(system.in_queues())) =~= Multiset::<T>::empty());
}

/// No step of a thread on a queue loses or duplicates an item.
pub proof fn step_keeps_items<T, Q: Shared<T>>(
    system: System<T, Q>,
    q: int,
    step: Q::Step,
    fresh: bool,
    after: System<T, Q>,
)
    requires
        system.inv(),
        system.next(q, step, fresh, after),
    ensures
        after.inv(),
{
    let t = system.thread(q, Q::actor(step));
    assert(system.queues[q].sound());
    system.queues[q].step_is_sound(step, after.queues[q]);
    assert forall|j: int| 0 <= j < after.queues.len() implies (
    #[trigger] after.queues[j]).sound() by {
        if j != q {
            assert(after.queues[j] == system.queues[j]);
        }
    }
    lemma_total_update(system.in_queues(), q, after.queues[q].contents());
    assert(after.in_queues() =~= system.in_queues().update(q, after.queues[q].contents()));
    lemma_total_update(system.hands, t, after.hands[t]);
    assert(after.hands =~= system.hands.update(t, after.hands[t]));
    assert forall|item: T|
        total(after.hands).add(total(after.in_queues())).count(item) == after.made.count(item) by {
        assert(system.made.count(item) == total(system.hands).count(item) + total(
            system.in_queues(),
        ).count(item));
    }
    assert(after.made =~= total(after.hands).add(total(after.in_queues())));
}

/// In every state of a run, each item is in the hands of a thread or in a queue,
/// whatever the order in which the threads take their steps.
pub proof fn run_keeps_items<T, Q: Shared<T>>(
    systems: Seq<System<T, Q>>,
    steps: Seq<(int, Q::Step, bool)>,
    n: int,
)
    requires
        systems.len() == steps.len() + 1,
        systems[0].init(),
        forall|i: int|
            0 <= i < steps.len() ==> (#[trigger] systems[i]).next(
                steps[i].0,
                steps[i].1,
                steps[i].2,
                systems[i + 1],
            ),
        0 <= n < systems.len(),
    ensures
        systems[n].inv(),
    decreases n,
{
    if n == 0 {
        start_satisfies_invariant(systems[0]);
    } else {
        run_keeps_items(systems, steps, n - 1);
        let (q, step, fresh) = steps[n - 1];
        assert(systems[n - 1].next(q, step, fresh, systems[n - 1 + 1]));
        step_keeps_items(systems[n - 1], q, step, fresh, systems[n]);
    }
}

/// An item that was put into a queue once, and is in no queue any more, has been
/// obtained by exactly one thread, and once.
pub proof fn each_item_is_obtained_once<T, Q: Shared<T>>(system: System<T, Q>, item: T)
    requires
        system.inv(),
        system.made.count(item) == 1,
        forall|q: int|
            0 <= q < system.queues.len() ==> (#[trigger] system.queues[q]).contents().count(item)
                == 0,
    ensures
        exists|t: int|
            {
                &&& 0 <= t < system.hands.len()
                &&& (#[trigger] system.hands[t]).count(item) == 1
                &&& forall|u: int|
                    0 <= u < system.hands.len() && u != t ==> (#[trigger] system.hands[u]).count(
                        item,
                    ) == 0
            },
{
    lemma_none_in_queues(system, system.in_queues(), item);
    assert(system.made.count(item) == total(system.hands).count(item) + total(
        system.in_queues(),
    ).count(item));
    let t = lemma_total_once(system.hands, item);
    assert(system.hands[t].count(item) == 1);
}

/// Sets that do not hold an item do not hold it in total.
proof fn lemma_none_in_queues<T, Q: Shared<T>>(
    system: System<T, Q>,
    sets: Seq<Multiset<T>>,
    item: T,
)
    requires
        sets.len() <= system.queues.len(),
        forall|q: int|
            0 <= q < sets.len() ==> (#[trigger] sets[q]) == system.queues[q].contents(),
        forall|q: int|
            0 <= q < system.queues.len() ==> (#[trigger] system.queues[q]).contents().count(item)
                == 0,
    ensures
        total(sets).count(item) == 0,
    decreases sets.len(),
{
    if sets.len() > 0 {
        lemma_none_in_queues(system, sets.drop_last(), item);
        assert(sets.last() == sets[sets.len() - 1]);
        assert(system.queues[sets.len() - 1].contents().count(item) == 0);
    }
}

/// The number of items that were made is the number of items that the threads have
/// obtained and of those that are in the queues.
pub proof fn numbers_of_items_add_up<T, Q: Shared<T>>(system: System<T, Q>)
    requires
        system.inv(),
    ensures
        system.made.len() == total_len(system.hands) + total_len(system.in_queues()),
{
    lemma_total_len(system.hands);
    lemma_total_len(system.in_queues());
}

/// An item that was put into a queue once, and that a thread has obtained, is in no
/// queue: nobody obtains it again, and it is not dropped with a queue.
pub proof fn obtained_items_are_in_no_queue<T, Q: Shared<T>>(
    system: System<T, Q>,
    item: T,
    t: int,
    q: int,
)
    requires
        system.inv(),
        system.made.count(item) == 1,
        0 <= t < system.hands.len(),
        system.hands[t].count(item) > 0,
        0 <= q < system.queues.len(),
    ensures
        system.hands[t].count(item) == 1,
        system.queues[q].contents().count(item) == 0,
{
    assert(system.made.count(item) == total(system.hands).count(item) + total(
        system.in_queues(),
    ).count(item));
    lemma_total_at_least(system.hands, t, item);
    lemma_total_without(system.in_queues(), item);
    assert(system.in_queues()[q] == system.queues[q].contents());
}

/// The total holds an item at least as often as each set.
proof fn lemma_total_at_least<T>(sets: Seq<Multiset<T>>, t: int, item: T)
    requires
        0 <= t < sets.len(),
    ensures
        total(sets).count(item) >= sets[t].count(item),
    decreases sets.len(),
{
    if t < sets.len() - 1 {
        lemma_total_at_least(sets.drop_last(), t, item);
    }
}

} // verus!
