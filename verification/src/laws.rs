//! Laws of work-stealing queues.
//!
//! The laws are stated over the transitions of [`QueueView`], in which the
//! contracts of the queue operations are written.
use vstd::multiset::Multiset;
use vstd::prelude::*;
use vstd::seq_lib::{lemma_multiset_commutative, to_multiset_build};

use crate::model::{filled, lemma_first_item, min, stolen, stolen_but_last, QueueView};
use crate::position::lemma_wrap_range;
use crate::{fifo, lifo, StealError};

verus! {

/// The items in held slots, oldest first.
pub open spec fn present<T>(held: Seq<Option<T>>) -> Seq<T>
    decreases held.len(),
{
    if held.len() == 0 {
        Seq::empty()
    } else {
        match held.last() {
            Some(item) => present(held.drop_last()).push(item),
            None => present(held.drop_last()),
        }
    }
}

/// All items in a queue, held ones included.
pub open spec fn queue_contents<T>(queue: QueueView<T>) -> Multiset<T> {
    present(queue.held).to_multiset().add(queue.items.to_multiset())
}

/// All items in a set of queues.
pub open spec fn contents<T>(queues: Seq<QueueView<T>>) -> Multiset<T>
    decreases queues.len(),
{
    if queues.len() == 0 {
        Multiset::empty()
    } else {
        contents(queues.drop_last()).add(queue_contents(queues.last()))
    }
}

proof fn lemma_present_push<T>(held: Seq<Option<T>>, slot: Option<T>)
    ensures
        present(held.push(slot)) == match slot {
            Some(item) => present(held).push(item),
            None => present(held),
        },
{
    assert(held.push(slot).drop_last() =~= held);
}

proof fn lemma_present_filled<T>(items: Seq<T>)
    ensures
        present(filled(items)) == items,
    decreases items.len(),
{
    if items.len() > 0 {
        lemma_present_filled(items.drop_last());
        assert(filled(items).drop_last() =~= filled(items.drop_last()));
        assert(items.drop_last().push(items.last()) =~= items);
    } else {
        assert(items =~= Seq::empty());
    }
}

proof fn lemma_present_blank<T>(held: Seq<Option<T>>)
    requires
        forall|k: int| 0 <= k < held.len() ==> held[k] is None,
    ensures
        present(held) == Seq::<T>::empty(),
    decreases held.len(),
{
    if held.len() > 0 {
        lemma_present_blank(held.drop_last());
    }
}

proof fn lemma_present_move_out<T>(held: Seq<Option<T>>, k: int)
    requires
        0 <= k < held.len(),
        held[k] is Some,
    ensures
        present(held.update(k, None)).to_multiset().insert(held[k]->0) == present(
            held,
        ).to_multiset(),
    decreases held.len(),
{
    let front = held.drop_last();
    if k == held.len() - 1 {
        assert(held.update(k, None).drop_last() =~= front);
        to_multiset_build(present(front), held[k]->0);
    } else {
        lemma_present_move_out(front, k);
        assert(held.update(k, None).drop_last() =~= front.update(k, None));
        match held.last() {
            Some(item) => {
                to_multiset_build(present(front), item);
                to_multiset_build(present(front.update(k, None)), item);
                assert(present(held.update(k, None)).to_multiset().insert(held[k]->0)
                    =~= present(held).to_multiset());
            },
            None => {},
        }
    }
}

/// Replacing one queue changes the contents by the difference of that queue.
proof fn lemma_contents_update<T>(queues: Seq<QueueView<T>>, i: int, queue: QueueView<T>)
    requires
        0 <= i < queues.len(),
    ensures
        forall|item: T|
            contents(queues.update(i, queue)).count(item) + queue_contents(queues[i]).count(item)
                == #[trigger] contents(queues).count(item) + queue_contents(queue).count(item),
    decreases queues.len(),
{
    let front = queues.drop_last();
    let updated = queues.update(i, queue);
    if i == queues.len() - 1 {
        assert(updated.drop_last() =~= front);
    } else {
        lemma_contents_update(front, i, queue);
        assert(updated.drop_last() =~= front.update(i, queue));
    }
    assert forall|item: T|
        contents(updated).count(item) + queue_contents(queues[i]).count(item)
            == #[trigger] contents(queues).count(item) + queue_contents(queue).count(item) by {
        assert(contents(queues).count(item) == contents(front).count(item) + queue_contents(
            queues.last(),
        ).count(item));
    }
}

/// A push adds the pushed item, and nothing else, to the items in the queues.
pub proof fn push_adds_the_item<T>(queues: Seq<QueueView<T>>, i: int, item: T)
    requires
        0 <= i < queues.len(),
    ensures
        contents(queues.update(i, queues[i].push(item))) == contents(queues).insert(item),
{
    let queue = queues[i].push(item);
    to_multiset_build(queues[i].items, item);
    lemma_contents_update(queues, i, queue);
    assert(queue_contents(queue) =~= queue_contents(queues[i]).insert(item));
    assert(contents(queues.update(i, queue)) =~= contents(queues).insert(item));
}

/// An extension adds the appended items, and nothing else, to the items in the
/// queues.
pub proof fn extend_adds_the_items<T>(queues: Seq<QueueView<T>>, i: int, items: Seq<T>)
    requires
        0 <= i < queues.len(),
    ensures
        contents(queues.update(i, queues[i].append(items))) == contents(queues).add(
            items.to_multiset(),
        ),
{
    let queue = queues[i].append(items);
    lemma_multiset_commutative(queues[i].items, items);
    lemma_contents_update(queues, i, queue);
    assert(queue_contents(queue) =~= queue_contents(queues[i]).add(items.to_multiset()));
    assert(contents(queues.update(i, queue)) =~= contents(queues).add(items.to_multiset()));
}

/// A FIFO pop removes the popped item, and nothing else, from the items in the
/// queues.
pub proof fn fifo_pop_removes_the_item<T>(queues: Seq<QueueView<T>>, i: int)
    requires
        0 <= i < queues.len(),
        queues[i].items.len() > 0,
    ensures
        contents(queues.update(i, queues[i].pop_front())).insert(queues[i].items[0]) == contents(
            queues,
        ),
{
    let queue = queues[i].pop_front();
    let item = queues[i].items[0];
    lemma_first_item(queues[i].items);
    lemma_present_push(queues[i].held, None);
    lemma_contents_update(queues, i, queue);
    assert(queue_contents(queue).insert(item) =~= queue_contents(queues[i]));
    assert(contents(queues.update(i, queue)).insert(item) =~= contents(queues));
}

/// A LIFO pop removes the popped item, and nothing else, from the items in the
/// queues.
pub proof fn lifo_pop_removes_the_item<T>(queues: Seq<QueueView<T>>, i: int)
    requires
        0 <= i < queues.len(),
        queues[i].items.len() > 0,
    ensures
        contents(queues.update(i, queues[i].pop_back())).insert(queues[i].items.last())
            == contents(queues),
{
    let queue = queues[i].pop_back();
    let item = queues[i].items.last();
    to_multiset_build(queue.items, item);
    assert(queue.items.push(item) =~= queues[i].items);
    lemma_contents_update(queues, i, queue);
    assert(queue_contents(queue).insert(item) =~= queue_contents(queues[i]));
    assert(contents(queues.update(i, queue)).insert(item) =~= contents(queues));
}

proof fn lemma_take_oldest<T>(queue: QueueView<T>, count: int)
    requires
        0 <= count <= queue.items.len(),
    ensures
        queue_contents(queue.take_oldest(count)).add(queue.items.take(count).to_multiset())
            == queue_contents(queue),
{
    lemma_multiset_commutative(queue.items.take(count), queue.items.skip(count));
    assert(queue.items.take(count) + queue.items.skip(count) =~= queue.items);
    assert(queue_contents(queue.take_oldest(count)).add(queue.items.take(count).to_multiset())
        =~= queue_contents(queue));
}

/// Stealing neither loses nor duplicates an item, also where a queue steals from
/// itself.
pub proof fn steal_keeps_all_items<T>(
    queues: Seq<QueueView<T>>,
    src: int,
    dest: int,
    count: int,
)
    requires
        0 <= src < queues.len(),
        0 <= dest < queues.len(),
        0 <= count <= queues[src].items.len(),
    ensures
        contents(stolen(queues, src, dest, count)) == contents(queues),
{
    let rest = queues.update(src, queues[src].take_oldest(count));
    let items = queues[src].items.take(count);
    lemma_take_oldest(queues[src], count);
    lemma_contents_update(queues, src, queues[src].take_oldest(count));
    extend_adds_the_items(rest, dest, items);
    assert(contents(rest).add(items.to_multiset()) =~= contents(queues));
}

/// Stealing with a direct return takes the returned item, and nothing else, out
/// of the queues.
pub proof fn steal_and_pop_removes_the_item<T>(
    queues: Seq<QueueView<T>>,
    src: int,
    dest: int,
    count: int,
)
    requires
        0 <= src < queues.len(),
        0 <= dest < queues.len(),
        0 < count <= queues[src].items.len(),
    ensures
        contents(stolen_but_last(queues, src, dest, count)).insert(queues[src].items[count - 1])
            == contents(queues),
{
    let rest = queues.update(src, queues[src].take_oldest(count));
    let items = queues[src].items.take(count);
    let moved = queues[src].items.take(count - 1);
    lemma_take_oldest(queues[src], count);
    lemma_contents_update(queues, src, queues[src].take_oldest(count));
    extend_adds_the_items(rest, dest, moved);
    to_multiset_build(moved, queues[src].items[count - 1]);
    assert(moved.push(queues[src].items[count - 1]) =~= items);
    assert(contents(rest).add(moved.to_multiset()).insert(queues[src].items[count - 1])
        =~= contents(queues));
}

/// Starting a drain leaves all items in the queues.
pub proof fn booking_keeps_all_items<T>(queues: Seq<QueueView<T>>, i: int, count: int)
    requires
        0 <= i < queues.len(),
        !queues[i].busy(),
        0 <= count <= queues[i].items.len(),
    ensures
        contents(queues.update(i, queues[i].book(count))) == contents(queues),
{
    let queue = queues[i].book(count);
    lemma_present_filled(queues[i].items.take(count));
    lemma_present_blank(queues[i].held);
    lemma_multiset_commutative(queues[i].items.take(count), queues[i].items.skip(count));
    assert(queues[i].items.take(count) + queues[i].items.skip(count) =~= queues[i].items);
    lemma_contents_update(queues, i, queue);
    assert(Seq::<T>::empty().to_multiset() =~= Multiset::empty()) by {
        Seq::<T>::empty().to_multiset_ensures();
    }
    assert(queue_contents(queue) =~= queue_contents(queues[i]));
    assert(contents(queues.update(i, queue)) =~= contents(queues));
}

/// A drain takes the item that it yields, and nothing else, out of the queues.
pub proof fn moving_out_removes_the_item<T>(queues: Seq<QueueView<T>>, i: int, k: int)
    requires
        0 <= i < queues.len(),
        0 <= k < queues[i].held.len(),
        queues[i].held[k] is Some,
    ensures
        contents(queues.update(i, queues[i].move_out(k))).insert(queues[i].held[k]->0) == contents(
            queues,
        ),
{
    let queue = queues[i].move_out(k);
    lemma_present_move_out(queues[i].held, k);
    lemma_contents_update(queues, i, queue);
    assert(queue_contents(queue).insert(queues[i].held[k]->0) =~= queue_contents(queues[i]));
    assert(contents(queues.update(i, queue)).insert(queues[i].held[k]->0) =~= contents(queues));
}

/// Completing a stealing operation whose items have been moved out leaves all
/// items in the queues.
pub proof fn completion_keeps_all_items<T>(queues: Seq<QueueView<T>>, i: int)
    requires
        0 <= i < queues.len(),
        queues[i].moved_out(),
    ensures
        contents(queues.update(i, queues[i].complete())) == contents(queues),
{
    let queue = queues[i].complete();
    lemma_present_blank(queues[i].held);
    lemma_contents_update(queues, i, queue);
    assert(queue_contents(queue) =~= queue_contents(queues[i]));
    assert(contents(queues.update(i, queue)) =~= contents(queues));
}

/// The items that `n` FIFO pops in a row return.
pub open spec fn fifo_pops<T>(queue: QueueView<T>, n: nat) -> Seq<T>
    decreases n,
{
    if n == 0 {
        Seq::empty()
    } else {
        seq![queue.items[0]] + fifo_pops(queue.pop_front(), (n - 1) as nat)
    }
}

/// The items that `n` LIFO pops in a row return.
pub open spec fn lifo_pops<T>(queue: QueueView<T>, n: nat) -> Seq<T>
    decreases n,
{
    if n == 0 {
        Seq::empty()
    } else {
        seq![queue.items.last()] + lifo_pops(queue.pop_back(), (n - 1) as nat)
    }
}

/// The worker of a FIFO queue pops the items in the order in which they were
/// pushed.
pub proof fn fifo_pops_oldest_first<T>(queue: QueueView<T>, n: nat)
    requires
        n <= queue.items.len(),
    ensures
        fifo_pops(queue, n) == queue.items.take(n as int),
    decreases n,
{
    if n > 0 {
        fifo_pops_oldest_first(queue.pop_front(), (n - 1) as nat);
    }
    assert(fifo_pops(queue, n) =~= queue.items.take(n as int));
}

/// The worker of a LIFO queue pops the items in the reverse of the order in
/// which they were pushed.
pub proof fn lifo_pops_newest_first<T>(queue: QueueView<T>, n: nat)
    requires
        n <= queue.items.len(),
    ensures
        lifo_pops(queue, n) == queue.items.reverse().take(n as int),
    decreases n,
{
    if n > 0 {
        lifo_pops_newest_first(queue.pop_back(), (n - 1) as nat);
    }
    assert(lifo_pops(queue, n) =~= queue.items.reverse().take(n as int));
}

/// A LIFO pop undoes a push.
pub proof fn lifo_pop_undoes_push<T>(queue: QueueView<T>, item: T)
    ensures
        queue.push(item).items.last() == item,
        queue.push(item).pop_back() == queue,
{
    assert(queue.push(item).pop_back() =~= queue);
}

/// Stealing takes the oldest items, in their order, whichever end the worker
/// pops from.
pub proof fn steal_takes_the_oldest_items<T>(
    queues: Seq<QueueView<T>>,
    src: int,
    dest: int,
    count: int,
)
    requires
        0 <= src < queues.len(),
        0 <= dest < queues.len(),
        src != dest,
        0 <= count <= queues[src].items.len(),
    ensures
        ({
            let after = stolen(queues, src, dest, count);
            &&& queues[src].items == queues[src].items.take(count) + after[src].items
            &&& after[dest].items == queues[dest].items + queues[src].items.take(count)
            &&& forall|i: int|
                0 <= i < queues.len() && i != src && i != dest ==> after[i] == queues[i]
        }),
{
    let after = stolen(queues, src, dest, count);
    assert(queues[src].items =~= queues[src].items.take(count) + after[src].items);
}

/// A queue that steals from itself moves its oldest items to its tail.
pub proof fn self_steal_rotates<T>(queues: Seq<QueueView<T>>, i: int, count: int)
    requires
        0 <= i < queues.len(),
        0 <= count <= queues[i].items.len(),
    ensures
        stolen(queues, i, i, count)[i].items == queues[i].items.skip(count)
            + queues[i].items.take(count),
{
}

/// A stealing operation that succeeds takes at least one item, and no more than
/// were asked for, than there is room for and than there are. It succeeds if and
/// only if there is no other one and these numbers are positive.
pub proof fn booking_bounds<T>(queue: QueueView<T>, wanted: nat, max: nat)
    ensures
        queue.booking(wanted, max) matches Ok(count) ==> {
            &&& 1 <= count <= wanted
            &&& count <= max
            &&& count <= queue.items.len()
            &&& count == wanted || count == max || count == queue.items.len()
        },
        queue.booking(wanted, max) is Ok <==> !queue.busy() && wanted > 0 && max > 0
            && queue.items.len() > 0,
        queue.booking(wanted, max) == Err::<nat, StealError>(StealError::Busy) <==> queue.busy(),
{
}

/// A stealing operation that returns an item directly succeeds also if the
/// destination queue is full.
pub proof fn steal_and_pop_from_full_destination<T>(
    queue: QueueView<T>,
    dest: QueueView<T>,
    wanted: nat,
)
    requires
        !queue.busy(),
        queue.items.len() > 0,
        wanted > 0,
        dest.spare() == 0,
    ensures
        queue.booking(wanted, dest.spare()) == Err::<nat, StealError>(StealError::Empty),
        queue.booking(wanted, dest.spare() + 1) == Ok::<nat, StealError>(1),
{
}

/// The spare capacity is the number of items that can be pushed: as many items
/// keep the queue within its capacity, and then the queue is full.
pub proof fn spare_capacity_can_be_filled<T>(queue: QueueView<T>, items: Seq<T>)
    requires
        queue.wf(),
        items.len() <= queue.spare(),
    ensures
        queue.append(items).wf(),
        queue.append(items).spare() == queue.spare() - items.len(),
        items.len() < queue.spare() <==> queue.append(items).spare() > 0,
{
}

/// A transfer of stolen items keeps each queue within its capacity, which does
/// not change.
pub proof fn steal_keeps_queues_well_formed<T>(
    queues: Seq<QueueView<T>>,
    src: int,
    dest: int,
    wanted: nat,
)
    requires
        0 <= src < queues.len(),
        0 <= dest < queues.len(),
        forall|i: int| 0 <= i < queues.len() ==> (#[trigger] queues[i]).wf(),
        queues[src].booking(wanted, queues[dest].spare()) is Ok,
    ensures
        ({
            let count = queues[src].booking(wanted, queues[dest].spare())->Ok_0 as int;
            let after = stolen(queues, src, dest, count);
            &&& after.len() == queues.len()
            &&& forall|i: int|
                0 <= i < queues.len() ==> (#[trigger] after[i]).wf() && after[i].capacity
                    == queues[i].capacity
        }),
{
    lemma_wrap_range(
        queues[src].head + queues[src].booking(wanted, queues[dest].spare())->Ok_0,
    );
}

/// A drain starts with the booked items, takes them out one by one, oldest
/// first, and with the last one ends the stealing operation.
pub proof fn drain_takes_booked_items<T>(queue: QueueView<T>, count: nat)
    requires
        !queue.busy(),
        0 < count <= queue.items.len(),
    ensures
        queue.book(count as int).draining(0, count),
        queue.book(count as int).held_items(count) == queue.items.take(count as int),
{
    assert(queue.book(count as int).held_items(count) =~= queue.items.take(count as int));
}

/// One step of a drain.
pub proof fn drain_progress<T>(queue: QueueView<T>, done: nat, total: nat)
    requires
        queue.draining(done, total),
    ensures
        done + 1 < total ==> queue.move_out(done as int).draining(done + 1, total),
        done + 1 == total ==> queue.move_out(done as int).moved_out(),
        !queue.move_out(done as int).complete().busy(),
{
}

/// While a drain is ongoing, all other attempts to steal from the queue fail.
pub proof fn drain_keeps_queue_busy<T>(
    queue: QueueView<T>,
    done: nat,
    total: nat,
    wanted: nat,
    max: nat,
)
    requires
        queue.draining(done, total),
    ensures
        queue.booking(wanted, max) == Err::<nat, StealError>(StealError::Busy),
{
}

/// The operations that others may perform on a FIFO queue while it is drained.
pub open spec fn fifo_undisturbing<T>(before: QueueView<T>, after: QueueView<T>) -> bool {
    ||| after == before
    ||| exists|items: Seq<T>| after == #[trigger] before.append(items)
    ||| before.items.len() > 0 && after == before.pop_front()
}

/// The operations that others may perform on a LIFO queue while it is drained.
pub open spec fn lifo_undisturbing<T>(before: QueueView<T>, after: QueueView<T>) -> bool {
    ||| after == before
    ||| exists|items: Seq<T>| after == #[trigger] before.append(items)
    ||| before.items.len() > 0 && after == before.pop_back()
}

/// Pushing to and popping from a FIFO queue, and anything that happens to other
/// queues, does not disturb an ongoing drain.
pub proof fn fifo_drain_is_undisturbed<'id, T>(
    drain: fifo::Drain<'id, T>,
    before: Seq<QueueView<T>>,
    after: Seq<QueueView<T>>,
)
    requires
        drain.valid(before),
        after.len() >= before.len(),
        fifo_undisturbing(before[drain.id()], after[drain.id()]),
    ensures
        drain.valid(after),
        drain.remaining(after) == drain.remaining(before),
{
    assert(drain.remaining(after) =~= drain.remaining(before));
}

/// Pushing to and popping from a LIFO queue, and anything that happens to other
/// queues, does not disturb an ongoing drain.
pub proof fn lifo_drain_is_undisturbed<'id, T>(
    drain: lifo::Drain<'id, T>,
    before: Seq<QueueView<T>>,
    after: Seq<QueueView<T>>,
)
    requires
        drain.valid(before),
        after.len() >= before.len(),
        lifo_undisturbing(before[drain.id()], after[drain.id()]),
    ensures
        drain.valid(after),
        drain.remaining(after) == drain.remaining(before),
{
    assert(drain.remaining(after) =~= drain.remaining(before));
}

/// Two queues that differ at most in how far their positions have moved on.
pub open spec fn alike<T>(a: QueueView<T>, b: QueueView<T>) -> bool {
    &&& a.capacity == b.capacity
    &&& a.held == b.held
    &&& a.items == b.items
}

/// Two sets of queues that differ at most in how far positions have moved on.
pub open spec fn all_alike<T>(a: Seq<QueueView<T>>, b: Seq<QueueView<T>>) -> bool {
    &&& a.len() == b.len()
    &&& forall|i: int| #![trigger a[i]] #![trigger b[i]] 0 <= i < a.len() ==> alike(a[i], b[i])
}

/// What the operations return does not depend on how far positions have moved on:
/// the items that can be popped or stolen, the spare capacity, and whether and how
/// many items a stealing operation takes.
pub proof fn results_do_not_depend_on_positions<T>(
    a: QueueView<T>,
    b: QueueView<T>,
    wanted: nat,
    max: nat,
)
    requires
        alike(a, b),
    ensures
        a.capacity == b.capacity,
        a.spare() == b.spare(),
        a.items == b.items,
        a.busy() == b.busy(),
        a.booking(wanted, max) == b.booking(wanted, max),
{
}

/// Queues that differ at most in how far their positions have moved on still do so
/// after the same operation on both.
pub proof fn operations_keep_queues_alike<T>(
    a: QueueView<T>,
    b: QueueView<T>,
    item: T,
    items: Seq<T>,
    count: int,
)
    requires
        alike(a, b),
    ensures
        alike(a.push(item), b.push(item)),
        alike(a.append(items), b.append(items)),
        alike(a.pop_front(), b.pop_front()),
        alike(a.pop_back(), b.pop_back()),
        alike(a.book(count), b.book(count)),
        alike(a.move_out(count), b.move_out(count)),
        alike(a.complete(), b.complete()),
{
}

/// Sets of queues that differ at most in how far positions have moved on still do
/// so after the same stealing operation in both.
pub proof fn stealing_keeps_queues_alike<T>(
    a: Seq<QueueView<T>>,
    b: Seq<QueueView<T>>,
    src: int,
    dest: int,
    count: int,
)
    requires
        all_alike(a, b),
        0 <= src < a.len(),
        0 <= dest < a.len(),
    ensures
        all_alike(stolen(a, src, dest, count), stolen(b, src, dest, count)),
        all_alike(stolen_but_last(a, src, dest, count), stolen_but_last(b, src, dest, count)),
{
    assert(alike(a[src], b[src]));
    assert(alike(a[dest], b[dest]));
}

/// The queues after items were pushed to one of them and stolen with a direct
/// return, one after the other.
pub open spec fn rotated<T>(
    queues: Seq<QueueView<T>>,
    src: int,
    dest: int,
    items: Seq<T>,
) -> Seq<QueueView<T>>
    decreases items.len(),
{
    if items.len() == 0 {
        queues
    } else {
        let before = rotated(queues, src, dest, items.drop_last());
        stolen_but_last(before.update(src, before[src].push(items.last())), src, dest, 1)
    }
}

/// However often an item is pushed to an empty queue and stolen from it, with a
/// direct return, the queue is as before but for how far its positions have moved
/// on.
pub proof fn rotation_keeps_queues_alike<T>(
    queues: Seq<QueueView<T>>,
    src: int,
    dest: int,
    items: Seq<T>,
)
    requires
        0 <= src < queues.len(),
        0 <= dest < queues.len(),
        queues[src].items.len() == 0,
    ensures
        all_alike(rotated(queues, src, dest, items), queues),
    decreases items.len(),
{
    if items.len() > 0 {
        let before = rotated(queues, src, dest, items.drop_last());
        rotation_keeps_queues_alike(queues, src, dest, items.drop_last());
        let after = rotated(queues, src, dest, items);
        assert(alike(before[src], queues[src]));
        assert(alike(before[dest], queues[dest]));
        assert forall|i: int| 0 <= i < queues.len() implies alike(
            #[trigger] after[i],
            queues[i],
        ) by {
            assert(alike(before[i], queues[i]));
            assert(after[i].items =~= queues[i].items);
        }
    }
}

/// The items in the held slots of a drain are those that are yet to be moved out.
proof fn lemma_present_draining<T>(held: Seq<Option<T>>, done: nat, total: nat)
    requires
        done <= total <= held.len(),
        forall|k: int|
            0 <= k < held.len() ==> ((#[trigger] held[k]) is Some <==> done <= k < total),
    ensures
        present(held) == Seq::new((total - done) as nat, |k: int| held[done + k]->0),
    decreases held.len(),
{
    let rest = Seq::new((total - done) as nat, |k: int| held[done + k]->0);
    if held.len() > 0 {
        let front = held.drop_last();
        let n = min(total, front.len());
        let m = min(done, n);
        assert forall|k: int| 0 <= k < front.len() implies ((#[trigger] front[k]) is Some <==> m
            <= k < n) by {
            assert(front[k] == held[k]);
        }
        lemma_present_draining(front, m, n);
        assert(held.last() == held[held.len() - 1]);
        assert(present(held) =~= rest);
    } else {
        assert(present(held) =~= rest);
    }
}

/// Dropping a drain takes the items that are yet to be moved out, and nothing else,
/// out of the queues.
pub proof fn dropping_a_drain_removes_its_items<T>(
    queues: Seq<QueueView<T>>,
    i: int,
    done: nat,
    total: nat,
)
    requires
        0 <= i < queues.len(),
        queues[i].draining(done, total),
    ensures
        contents(queues.update(i, queues[i].complete())).add(
            Seq::new((total - done) as nat, |k: int| queues[i].held[done + k]->0).to_multiset(),
        ) == contents(queues),
{
    let queue = queues[i].complete();
    let rest = Seq::new((total - done) as nat, |k: int| queues[i].held[done + k]->0);
    lemma_present_draining(queues[i].held, done, total);
    lemma_present_blank(queue.held);
    lemma_contents_update(queues, i, queue);
    assert(Seq::<T>::empty().to_multiset() =~= Multiset::empty()) by {
        Seq::<T>::empty().to_multiset_ensures();
    }
    assert(queue_contents(queue).add(rest.to_multiset()) =~= queue_contents(queues[i]));
    assert(contents(queues.update(i, queue)).add(rest.to_multiset()) =~= contents(queues));
}

/// Dropping a drain of `count` items, after however many were moved out, leaves the
/// items behind them and frees the slots of all of them. The queue can then be
/// stolen from again.
pub proof fn dropped_drain_frees_its_slots<T>(queue: QueueView<T>, count: nat, held: Seq<Option<T>>)
    requires
        queue.wf(),
        !queue.busy(),
        0 < count <= queue.items.len(),
        held.len() == count,
    ensures
        ({
            let drained = QueueView { held, ..queue.book(count as int) };
            &&& drained.complete() == queue.take_oldest(count as int)
            &&& drained.complete().items == queue.items.skip(count as int)
            &&& drained.complete().spare() == queue.capacity - (queue.items.len() - count)
            &&& !drained.complete().busy()
        }),
{
    let drained = QueueView { held, ..queue.book(count as int) };
    assert(drained.complete() =~= queue.take_oldest(count as int));
}

} // verus!
