//! What a queue is, seen from outside.
//!
//! A queue is a row of slots in three parts, oldest first: the slots that an
//! ongoing stealing operation holds, the items that can be popped or stolen,
//! and the free slots. Both kinds of queue have this view. They differ in the
//! end from which the worker pops.
use vstd::multiset::Multiset;
use vstd::prelude::*;
use vstd::seq_lib::{lemma_multiset_commutative, to_multiset_build};

use crate::position::{
    is_capacity, lemma_capacity_bounds, lemma_wrap_add, lemma_wrap_range, wrap,
};
use crate::ring::{lemma_turn_rotate, lemma_turn_slot, lemma_turn_update, turn};
use crate::transfer::{received, relocated, vacated};
use crate::StealError;

verus! {

/// The view of a queue.
#[verifier::ext_equal]
pub struct QueueView<T> {
    /// Number of slots.
    pub capacity: nat,
    /// Position of the oldest slot in use.
    pub head: int,
    /// Slots held by an ongoing stealing operation. An item that was moved out
    /// already leaves an empty slot.
    pub held: Seq<Option<T>>,
    /// Available items, oldest first.
    pub items: Seq<T>,
}

/// The lesser of two numbers.
pub open spec fn min(a: nat, b: nat) -> nat {
    if a <= b {
        a
    } else {
        b
    }
}

/// The greater of two numbers.
pub open spec fn max(a: nat, b: nat) -> nat {
    if a <= b {
        b
    } else {
        a
    }
}

/// The number of items that a stealing operation takes, where `wanted` items
/// were asked for, there is room for `max` and there are `available` ones.
pub open spec fn steal_count(wanted: nat, max: nat, available: nat) -> nat {
    min(min(wanted, max), available)
}

/// Whether a number is an index of a row.
pub open spec fn is_index<A>(row: Seq<A>, k: int) -> bool {
    0 <= k < row.len()
}

/// The slots that hold a row of items.
pub open spec fn filled<T>(items: Seq<T>) -> Seq<Option<T>> {
    items.map_values(|item: T| Some(item))
}

/// A number of empty slots.
pub open spec fn blank<T>(n: nat) -> Seq<Option<T>> {
    Seq::new(n, |k: int| None)
}

impl<T> QueueView<T> {
    /// A queue that was just created.
    pub open spec fn created(capacity: nat) -> Self {
        QueueView { capacity, head: 0, held: Seq::empty(), items: Seq::empty() }
    }

    /// What holds of every queue.
    pub open spec fn wf(self) -> bool {
        &&& is_capacity(self.capacity as int)
        &&& 0 <= self.head < 0x1_0000_0000
        &&& self.held.len() + self.items.len() <= self.capacity
    }

    /// Whether a stealing operation is ongoing.
    pub open spec fn busy(self) -> bool {
        self.held.len() > 0
    }

    /// The number of items that can be pushed.
    pub open spec fn spare(self) -> nat {
        (self.capacity - self.held.len() - self.items.len()) as nat
    }

    /// The queue with items added at the tail.
    pub open spec fn append(self, items: Seq<T>) -> Self {
        QueueView { items: self.items + items, ..self }
    }

    /// The queue with one item added at the tail.
    pub open spec fn push(self, item: T) -> Self {
        QueueView { items: self.items.push(item), ..self }
    }

    /// The queue without its newest item.
    pub open spec fn pop_back(self) -> Self {
        QueueView { items: self.items.drop_last(), ..self }
    }

    /// The queue without its oldest available item. While a stealing operation
    /// is ongoing, the emptied slot stays in use until that operation is
    /// complete.
    pub open spec fn pop_front(self) -> Self {
        if self.busy() {
            QueueView { held: self.held.push(None), items: self.items.skip(1), ..self }
        } else {
            QueueView { head: wrap(self.head + 1), items: self.items.skip(1), ..self }
        }
    }

    /// How many items a stealing operation gets to take, or why it fails.
    pub open spec fn booking(self, wanted: nat, max: nat) -> Result<nat, StealError> {
        if self.busy() {
            Err(StealError::Busy)
        } else if steal_count(wanted, max, self.items.len()) == 0 {
            Err(StealError::Empty)
        } else {
            Ok(steal_count(wanted, max, self.items.len()))
        }
    }

    /// Whether `count_fn` can be asked how many items to steal. It is only
    /// asked where there is something to steal.
    pub open spec fn can_ask<C: FnMut(usize) -> usize>(self, count_fn: C) -> bool {
        !self.busy() && self.items.len() > 0 ==> count_fn.requires((self.items.len() as usize,))
    }

    /// Whether `wanted` is an answer of `count_fn`, if it was asked.
    pub open spec fn asked<C: FnMut(usize) -> usize>(self, count_fn: C, wanted: usize) -> bool {
        !self.busy() && self.items.len() > 0 ==> count_fn.ensures(
            (self.items.len() as usize,),
            wanted,
        )
    }

    /// The queue with its `count` oldest items held by a stealing operation.
    pub open spec fn book(self, count: int) -> Self {
        QueueView {
            held: filled(self.items.take(count)),
            items: self.items.skip(count),
            ..self
        }
    }

    /// The queue without its `count` oldest items.
    pub open spec fn take_oldest(self, count: int) -> Self {
        QueueView { head: wrap(self.head + count), items: self.items.skip(count), ..self }
    }

    /// Whether a drain of `total` items, `done` of which were moved out, is the
    /// ongoing stealing operation.
    pub open spec fn draining(self, done: nat, total: nat) -> bool {
        &&& done < total <= self.held.len()
        &&& forall|k: int|
            0 <= k < self.held.len() ==> ((#[trigger] self.held[k]) is Some <==> done <= k < total)
    }

    /// The queue with the item moved out of a held slot.
    pub open spec fn move_out(self, k: int) -> Self {
        QueueView { held: self.held.update(k, None), ..self }
    }

    /// The queue with the items moved out of its `n` oldest held slots.
    pub open spec fn vacate(self, n: nat) -> Self {
        QueueView { held: blank(n) + self.held.skip(n as int), ..self }
    }

    /// The items in the `n` oldest held slots.
    pub open spec fn held_items(self, n: nat) -> Seq<T> {
        Seq::new(n, |k: int| self.held[k]->0)
    }

    /// Whether the `n` oldest held slots all hold an item.
    pub open spec fn holds(self, n: nat) -> bool {
        &&& n <= self.held.len()
        &&& forall|k: int| 0 <= k < n ==> (#[trigger] self.held[k]) is Some
    }

    /// Whether all held items have been moved out.
    pub open spec fn moved_out(self) -> bool {
        forall|k: int| 0 <= k < self.held.len() ==> self.held[k] is None
    }

    /// The queue with the stealing operation completed: the slots that it held
    /// are free.
    pub open spec fn complete(self) -> Self {
        QueueView { head: wrap(self.head + self.held.len()), held: Seq::empty(), ..self }
    }
}

/// The queues after the `count` oldest items of one were moved to the tail of
/// another one or of the same.
pub open spec fn stolen<T>(
    queues: Seq<QueueView<T>>,
    src: int,
    dest: int,
    count: int,
) -> Seq<QueueView<T>> {
    let rest = queues.update(src, queues[src].take_oldest(count));
    rest.update(dest, rest[dest].append(queues[src].items.take(count)))
}

/// The queues after the `count` oldest items of one were taken, all but the last
/// of which were moved to the tail of another one or of the same.
pub open spec fn stolen_but_last<T>(
    queues: Seq<QueueView<T>>,
    src: int,
    dest: int,
    count: int,
) -> Seq<QueueView<T>> {
    let rest = queues.update(src, queues[src].take_oldest(count));
    rest.update(dest, rest[dest].append(queues[src].items.take(count - 1)))
}

/// The view of a queue whose slots in use start at position `head`.
#[verifier::opaque]
pub open spec fn queue_view<T>(
    slots: Seq<Option<T>>,
    head: int,
    held_len: int,
    len: int,
) -> QueueView<T> {
    QueueView {
        capacity: slots.len(),
        head,
        held: turn(slots, head).take(held_len),
        items: Seq::new(len as nat, |k: int| turn(slots, head)[held_len + k]->0),
    }
}

/// The slots are a queue: available items are there and free slots are empty.
#[verifier::opaque]
pub open spec fn queue_wf<T>(
    slots: Seq<Option<T>>,
    head: int,
    held_len: int,
    len: int,
) -> bool {
    &&& is_capacity(slots.len() as int)
    &&& 0 <= head < 0x1_0000_0000
    &&& 0 <= held_len
    &&& 0 <= len
    &&& held_len + len <= slots.len()
    &&& forall|k: int|
        held_len <= k < held_len + len ==> (#[trigger] turn(slots, head)[k]) is Some
    &&& forall|k: int|
        held_len + len <= k < slots.len() ==> (#[trigger] turn(slots, head)[k]) is None
}

/// The sizes of a queue.
pub proof fn lemma_shape<T>(slots: Seq<Option<T>>, head: int, held_len: int, len: int)
    requires
        queue_wf(slots, head, held_len, len),
    ensures
        is_capacity(slots.len() as int),
        1 <= slots.len() <= 0x8000_0000,
        0 <= head < 0x1_0000_0000,
        0 <= held_len,
        0 <= len,
        held_len + len <= slots.len(),
        queue_view(slots, head, held_len, len).wf(),
        queue_view(slots, head, held_len, len).capacity == slots.len(),
        queue_view(slots, head, held_len, len).head == head,
        queue_view(slots, head, held_len, len).held.len() == held_len,
        queue_view(slots, head, held_len, len).items.len() == len,
{
    reveal(queue_wf);
    reveal(queue_view);
    lemma_capacity_bounds(slots.len() as int);
}

/// Empty slots are an empty queue.
pub proof fn lemma_created<T>(slots: Seq<Option<T>>)
    requires
        is_capacity(slots.len() as int),
        forall|i: int| 0 <= i < slots.len() ==> slots[i] is None,
    ensures
        queue_wf(slots, 0, 0, 0),
        queue_view(slots, 0, 0, 0) == QueueView::<T>::created(slots.len()),
{
    reveal(queue_wf);
    reveal(queue_view);
    assert forall|k: int| 0 <= k < slots.len() implies (#[trigger] turn(slots, 0)[k]) is None by {
        vstd::arithmetic::div_mod::lemma_small_mod(k as nat, slots.len());
    }
    assert(queue_view(slots, 0, 0, 0) =~= QueueView::<T>::created(slots.len()));
}

/// The available items are in the slots from the head on, behind the held ones.
pub proof fn lemma_items<T>(slots: Seq<Option<T>>, head: int, held_len: int, len: int)
    requires
        queue_wf(slots, head, held_len, len),
    ensures
        forall|k: int|
            0 <= k < len ==> slots[wrap(wrap(head + held_len) + k) % (slots.len() as int)] == Some(
                #[trigger] queue_view(slots, head, held_len, len).items[k],
            ),
{
    reveal(queue_wf);
    reveal(queue_view);
    assert forall|k: int| 0 <= k < len implies slots[wrap(wrap(head + held_len) + k) % (
    slots.len() as int)] == Some(
        #[trigger] queue_view(slots, head, held_len, len).items[k],
    ) by {
        lemma_wrap_add(head + held_len, k);
        lemma_turn_slot(slots, head, held_len + k, wrap(head + (held_len + k)));
        assert(head + held_len + k == head + (held_len + k));
        assert(turn(slots, head)[held_len + k] is Some);
    }
}

/// Writing an item behind the newest one pushes it.
pub proof fn lemma_push<T>(
    slots: Seq<Option<T>>,
    head: int,
    held_len: int,
    len: int,
    item: T,
    position: int,
)
    requires
        queue_wf(slots, head, held_len, len),
        held_len + len < slots.len(),
        position == wrap(head + held_len + len),
    ensures
        ({
            let after = slots.update(position % (slots.len() as int), Some(item));
            &&& queue_wf(after, head, held_len, len + 1)
            &&& queue_view(after, head, held_len, len + 1) == queue_view(
                slots,
                head,
                held_len,
                len,
            ).push(item)
        }),
{
    reveal(queue_wf);
    reveal(queue_view);
    let k = held_len + len;
    lemma_turn_slot(slots, head, k, position);
    lemma_turn_update(slots, head, k, Some(item));
    let after = slots.update(position % (slots.len() as int), Some(item));
    assert(queue_view(after, head, held_len, len + 1) =~= queue_view(
        slots,
        head,
        held_len,
        len,
    ).push(item));
}

/// Reading the newest item pops it.
pub proof fn lemma_pop_back<T>(
    slots: Seq<Option<T>>,
    head: int,
    held_len: int,
    len: int,
    position: int,
)
    requires
        queue_wf(slots, head, held_len, len),
        len > 0,
        position == wrap(head + held_len + len - 1),
    ensures
        slots[position % (slots.len() as int)] == Some(
            queue_view(slots, head, held_len, len).items.last(),
        ),
        ({
            let after = slots.update(position % (slots.len() as int), None);
            &&& queue_wf(after, head, held_len, len - 1)
            &&& queue_view(after, head, held_len, len - 1) == queue_view(
                slots,
                head,
                held_len,
                len,
            ).pop_back()
        }),
{
    reveal(queue_wf);
    reveal(queue_view);
    let k = held_len + len - 1;
    lemma_turn_slot(slots, head, k, position);
    lemma_turn_update(slots, head, k, None);
    let after = slots.update(position % (slots.len() as int), None);
    assert(queue_view(after, head, held_len, len - 1) =~= queue_view(
        slots,
        head,
        held_len,
        len,
    ).pop_back());
}

/// Reading the oldest available item pops it from the front.
pub proof fn lemma_pop_front<T>(
    slots: Seq<Option<T>>,
    head: int,
    held_len: int,
    len: int,
    position: int,
)
    requires
        queue_wf(slots, head, held_len, len),
        len > 0,
        position == wrap(head + held_len),
    ensures
        slots[position % (slots.len() as int)] == Some(
            queue_view(slots, head, held_len, len).items[0],
        ),
        ({
            let after = slots.update(position % (slots.len() as int), None);
            let (new_head, new_held_len) = if held_len > 0 {
                (head, held_len + 1)
            } else {
                (wrap(head + 1), 0)
            };
            &&& queue_wf(after, new_head, new_held_len, len - 1)
            &&& queue_view(after, new_head, new_held_len, len - 1) == queue_view(
                slots,
                head,
                held_len,
                len,
            ).pop_front()
        }),
{
    reveal(queue_wf);
    reveal(queue_view);
    lemma_turn_slot(slots, head, held_len, position);
    lemma_turn_update(slots, head, held_len, None);
    let after = slots.update(position % (slots.len() as int), None);
    let before_view = queue_view(slots, head, held_len, len);
    if held_len > 0 {
        assert(queue_view(after, head, held_len + 1, len - 1) =~= before_view.pop_front());
    } else {
        let t = turn(after, head);
        let rotated = turn(after, wrap(head + 1));
        lemma_turn_rotate(after, head, 1);
        lemma_wrap_range(head + 1);
        assert forall|k: int| 0 <= k < after.len() implies #[trigger] rotated[k] == (if k + 1
            < after.len() {
            t[k + 1]
        } else {
            t[0]
        }) by {}
        assert(queue_view(after, wrap(head + 1), 0, len - 1) =~= before_view.pop_front());
    }
}

/// Moving the boundary between held and available items books the oldest ones.
pub proof fn lemma_book<T>(slots: Seq<Option<T>>, head: int, len: int, count: int)
    requires
        queue_wf(slots, head, 0, len),
        0 <= count <= len,
    ensures
        queue_wf(slots, head, count, len - count),
        queue_view(slots, head, count, len - count) == queue_view(slots, head, 0, len).book(count),
{
    reveal(queue_wf);
    reveal(queue_view);
    assert(queue_view(slots, head, count, len - count) =~= queue_view(slots, head, 0, len).book(
        count,
    ));
}

/// Emptying a held slot moves its item out.
pub proof fn lemma_move_out<T>(
    slots: Seq<Option<T>>,
    head: int,
    held_len: int,
    len: int,
    k: int,
    position: int,
)
    requires
        queue_wf(slots, head, held_len, len),
        0 <= k < held_len,
        position == wrap(head + k),
    ensures
        slots[position % (slots.len() as int)] == queue_view(slots, head, held_len, len).held[k],
        ({
            let after = slots.update(position % (slots.len() as int), None);
            &&& queue_wf(after, head, held_len, len)
            &&& queue_view(after, head, held_len, len) == queue_view(
                slots,
                head,
                held_len,
                len,
            ).move_out(k)
        }),
{
    reveal(queue_wf);
    reveal(queue_view);
    lemma_turn_slot(slots, head, k, position);
    lemma_turn_update(slots, head, k, None);
    let after = slots.update(position % (slots.len() as int), None);
    assert(queue_view(after, head, held_len, len) =~= queue_view(
        slots,
        head,
        held_len,
        len,
    ).move_out(k));
}

/// Moving the head over the held slots, once they are empty, completes the
/// stealing operation.
pub proof fn lemma_complete<T>(slots: Seq<Option<T>>, head: int, held_len: int, len: int)
    requires
        queue_wf(slots, head, held_len, len),
        queue_view(slots, head, held_len, len).moved_out(),
    ensures
        queue_wf(slots, wrap(head + held_len), 0, len),
        queue_view(slots, wrap(head + held_len), 0, len) == queue_view(
            slots,
            head,
            held_len,
            len,
        ).complete(),
{
    reveal(queue_wf);
    reveal(queue_view);
    let before_view = queue_view(slots, head, held_len, len);
    let t = turn(slots, head);
    let rotated = turn(slots, wrap(head + held_len));
    lemma_turn_rotate(slots, head, held_len);
    lemma_wrap_range(head + held_len);
    assert forall|k: int| 0 <= k < slots.len() implies #[trigger] rotated[k] == (if k + held_len
        < slots.len() {
        t[k + held_len]
    } else {
        t[k + held_len - slots.len()]
    }) by {}
    assert forall|k: int| 0 <= k < held_len implies (#[trigger] t[k]) is None by {
        assert(before_view.held[k] is None);
    }
    assert(queue_view(slots, wrap(head + held_len), 0, len) =~= before_view.complete());
}

/// Moving out the oldest held items vacates their slots.
pub proof fn lemma_vacate<T>(
    slots: Seq<Option<T>>,
    after: Seq<Option<T>>,
    head: int,
    held_len: int,
    len: int,
    n: nat,
)
    requires
        queue_wf(slots, head, held_len, len),
        n <= held_len,
        after.len() == slots.len(),
        turn(after, head) == vacated(turn(slots, head), 0, n as int),
    ensures
        queue_wf(after, head, held_len, len),
        queue_view(after, head, held_len, len) == queue_view(slots, head, held_len, len).vacate(n),
{
    reveal(queue_wf);
    reveal(queue_view);
    assert(queue_view(after, head, held_len, len) =~= queue_view(
        slots,
        head,
        held_len,
        len,
    ).vacate(n));
}

/// Moving items in behind the newest one appends them.
pub proof fn lemma_receive<T>(
    slots: Seq<Option<T>>,
    after: Seq<Option<T>>,
    head: int,
    held_len: int,
    len: int,
    position: int,
    src: Seq<Option<T>>,
    n: nat,
)
    requires
        queue_wf(slots, head, held_len, len),
        held_len + len + n <= slots.len(),
        position == wrap(head + held_len + len),
        after.len() == slots.len(),
        turn(after, position) == received(turn(slots, position), src, 0, n as int),
        forall|k: int| 0 <= k < n ==> (#[trigger] src[k]) is Some,
    ensures
        queue_wf(after, head, held_len, len + n),
        queue_view(after, head, held_len, len + n) == queue_view(
            slots,
            head,
            held_len,
            len,
        ).append(Seq::new(n, |k: int| src[k]->0)),
{
    reveal(queue_wf);
    reveal(queue_view);
    let d = held_len + len;
    let cap = slots.len() as int;
    let t = turn(slots, head);
    let ta = turn(after, head);
    lemma_turn_rotate(slots, head, d);
    lemma_turn_rotate(after, head, d);
    let r = turn(slots, position);
    let ra = turn(after, position);
    assert(position == wrap(head + d));
    assert forall|k: int| 0 <= k < cap implies #[trigger] ta[k] == (if d <= k < d + n {
        src[k - d]
    } else {
        t[k]
    }) by {
        if k >= d {
            assert(ra[k - d] == ta[k]);
            assert(r[k - d] == t[k]);
        } else {
            assert(ra[k + cap - d] == ta[k]);
            assert(r[k + cap - d] == t[k]);
        }
    }
    assert(queue_view(after, head, held_len, len + n) =~= queue_view(
        slots,
        head,
        held_len,
        len,
    ).append(Seq::new(n, |k: int| src[k]->0)));
}

/// Moving the oldest held items behind the newest one vacates their slots and
/// appends them.
pub proof fn lemma_relocate<T>(
    slots: Seq<Option<T>>,
    after: Seq<Option<T>>,
    head: int,
    held_len: int,
    len: int,
    n: nat,
)
    requires
        queue_wf(slots, head, held_len, len),
        n <= held_len,
        held_len + len + n <= slots.len(),
        after.len() == slots.len(),
        turn(after, head) == relocated(turn(slots, head), held_len + len, 0, n as int),
        queue_view(slots, head, held_len, len).holds(n),
    ensures
        queue_wf(after, head, held_len, len + n),
        queue_view(after, head, held_len, len + n) == queue_view(
            slots,
            head,
            held_len,
            len,
        ).vacate(n).append(queue_view(slots, head, held_len, len).held_items(n)),
{
    reveal(queue_wf);
    reveal(queue_view);
    let before_view = queue_view(slots, head, held_len, len);
    assert forall|k: int| 0 <= k < n implies (#[trigger] turn(slots, head)[k]) is Some by {
        assert(before_view.held[k] is Some);
    }
    assert(queue_view(after, head, held_len, len + n) =~= before_view.vacate(n).append(
        before_view.held_items(n),
    ));
}

/// Held slots are the first ones of a turn from the head.
pub proof fn lemma_held_turn<T>(
    slots: Seq<Option<T>>,
    head: int,
    held_len: int,
    len: int,
    n: nat,
)
    requires
        queue_wf(slots, head, held_len, len),
        queue_view(slots, head, held_len, len).holds(n),
    ensures
        forall|k: int| 0 <= k < n ==> (#[trigger] turn(slots, head)[k]) is Some,
        Seq::new(n, |k: int| turn(slots, head)[k]->0) == queue_view(
            slots,
            head,
            held_len,
            len,
        ).held_items(n),
{
    reveal(queue_wf);
    reveal(queue_view);
    let v = queue_view(slots, head, held_len, len);
    assert forall|k: int| 0 <= k < n implies (#[trigger] turn(slots, head)[k]) is Some by {
        assert(v.held[k] is Some);
    }
    assert(Seq::new(n, |k: int| turn(slots, head)[k]->0) =~= v.held_items(n));
}

/// The queues after the `count` oldest held items of one were moved to the tail
/// of another one or of the same.
pub open spec fn transferred<T>(
    queues: Seq<QueueView<T>>,
    src: int,
    dest: int,
    count: nat,
) -> Seq<QueueView<T>> {
    let vacated = queues.update(src, queues[src].vacate(count));
    vacated.update(dest, vacated[dest].append(queues[src].held_items(count)))
}

/// Booked items can be transferred to a queue that has room for them.
pub proof fn lemma_booked<T>(
    queues: Seq<QueueView<T>>,
    src: int,
    dest: int,
    count: nat,
    moved: nat,
)
    requires
        0 <= src < queues.len(),
        0 <= dest < queues.len(),
        !queues[src].busy(),
        moved <= count <= queues[src].items.len(),
    ensures
        ({
            let booked = queues.update(src, queues[src].book(count as int));
            &&& booked[src].holds(moved)
            &&& booked[src].held_items(moved) == queues[src].items.take(moved as int)
            &&& booked[dest].spare() == queues[dest].spare()
        }),
{
    let booked = queues.update(src, queues[src].book(count as int));
    assert(booked[src].held_items(moved) =~= queues[src].items.take(moved as int));
}

/// Booking items, transferring all of them and completing the operation steals
/// them.
pub proof fn lemma_steal<T>(queues: Seq<QueueView<T>>, src: int, dest: int, count: nat)
    requires
        0 <= src < queues.len(),
        0 <= dest < queues.len(),
        !queues[src].busy(),
        count <= queues[src].items.len(),
    ensures
        ({
            let booked = queues.update(src, queues[src].book(count as int));
            let moved = transferred(booked, src, dest, count);
            &&& moved[src].moved_out()
            &&& moved.update(src, moved[src].complete()) == stolen(
                queues,
                src,
                dest,
                count as int,
            )
        }),
{
    let booked = queues.update(src, queues[src].book(count as int));
    let moved = transferred(booked, src, dest, count);
    lemma_booked(queues, src, dest, count, count);
    let after = moved.update(src, moved[src].complete());
    assert(after[src] =~= stolen(queues, src, dest, count as int)[src]);
    assert(after[dest] =~= stolen(queues, src, dest, count as int)[dest]);
    assert(moved.update(src, moved[src].complete()) =~= stolen(queues, src, dest, count as int));
}

/// Booking items, transferring all but the last, moving that one out and
/// completing the operation steals them.
pub proof fn lemma_steal_but_last<T>(queues: Seq<QueueView<T>>, src: int, dest: int, count: nat)
    requires
        0 <= src < queues.len(),
        0 <= dest < queues.len(),
        !queues[src].busy(),
        0 < count <= queues[src].items.len(),
    ensures
        ({
            let booked = queues.update(src, queues[src].book(count as int));
            let moved = transferred(booked, src, dest, (count - 1) as nat);
            let last = moved.update(src, moved[src].move_out(count - 1));
            &&& moved[src].head == queues[src].head
            &&& moved[src].held.len() == count
            &&& moved[src].held[count - 1] == Some(queues[src].items[count - 1])
            &&& last[src].moved_out()
            &&& last.update(src, last[src].complete()) == stolen_but_last(
                queues,
                src,
                dest,
                count as int,
            )
        }),
{
    let booked = queues.update(src, queues[src].book(count as int));
    let moved = transferred(booked, src, dest, (count - 1) as nat);
    let last = moved.update(src, moved[src].move_out(count - 1));
    lemma_booked(queues, src, dest, count, (count - 1) as nat);
    let after = last.update(src, last[src].complete());
    assert(after[src] =~= stolen_but_last(queues, src, dest, count as int)[src]);
    assert(after[dest] =~= stolen_but_last(queues, src, dest, count as int)[dest]);
    assert(last.update(src, last[src].complete()) =~= stolen_but_last(
        queues,
        src,
        dest,
        count as int,
    ));
}

/// Taking the first item out of a row of items.
pub proof fn lemma_first_item<T>(items: Seq<T>)
    requires
        items.len() > 0,
    ensures
        items.to_multiset() =~= items.skip(1).to_multiset().insert(items[0]),
{
    let first = Seq::empty().push(items[0]);
    Seq::<T>::empty().to_multiset_ensures();
    to_multiset_build(Seq::empty(), items[0]);
    lemma_multiset_commutative(first, items.skip(1));
    assert(first + items.skip(1) =~= items);
    assert(Seq::<T>::empty().to_multiset() =~= Multiset::empty());
}

} // verus!
