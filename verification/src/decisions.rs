//! What is decided on the words and slots of a queue, in terms of plain counts.
//!
//! Heads, tails and counters are kept as 32-bit positions, two of them in one word.
//! The laws here state the decisions on them over counters that never wrap around:
//! a queue whose slots from `stealer` on are in use, of which those from `worker` up
//! to `tail` are available.
use vstd::arithmetic::power2::{lemma2_to64, pow2};
use vstd::prelude::*;

use crate::buffers::{
    Buffer, B1024, B128, B16, B16384, B2, B2048, B256, B32, B32768, B4, B4096, B512, B64, B8, B8192,
};
use crate::cell::UnsafeCell;
use crate::config::{UnsignedLong, UnsignedShort, MAX_CAPACITY};
use crate::position::{is_capacity, wrap};
use crate::ring::{ring_wf, slots, turn};
use crate::transfer::{contiguous, received, relocated, vacated};
use crate::{fifo, high, lifo, low, StealError};

verus! {

/// A position is a count without its multiples of 2^32.
pub proof fn position_of_a_count(x: int)
    ensures
        0 <= wrap(x),
        wrap(x) < 0x1_0000_0000,
        (x - wrap(x)) % 0x1_0000_0000 == 0,
{
    reveal(wrap);
}

/// A word is made of its two parts, and of no others.
pub proof fn word_is_its_two_parts(value: UnsignedLong, first: int, second: int)
    requires
        0 <= first < 0x1_0000_0000,
        0 <= second < 0x1_0000_0000,
    ensures
        value == high(value) * 0x1_0000_0000 + low(value),
        value == first * 0x1_0000_0000 + second <==> high(value) == first && low(value) == second,
{
    reveal(high);
    reveal(low);
}

/// The lengths that a buffer can have are the powers of two up to the largest
/// capacity, which is 2^31.
pub proof fn capacities_are_powers_of_two(n: int, e: nat)
    ensures
        is_capacity(n) <==> exists|k: nat| k < 32 && n == #[trigger] pow2(k),
        e < 32 ==> is_capacity(pow2(e) as int),
        MAX_CAPACITY == pow2(31),
{
    lemma2_to64();
}

/// The error texts.
pub proof fn error_texts()
    ensures
        StealError::Empty.text() == "cannot steal from empty queue"@,
        StealError::Busy.text() == "a concurrent steal operation is ongoing"@,
{
}

/// A push onto a FIFO queue goes ahead if and only if fewer slots are in use than
/// there are, and makes one more count as pushed.
pub proof fn fifo_push_needs_a_free_slot(
    stealer: int,
    worker: int,
    tail: int,
    heads: UnsignedLong,
    tail_word: UnsignedShort,
    mask: UnsignedShort,
    step: Option<UnsignedShort>,
)
    requires
        stealer <= worker <= tail < stealer + 0x1_0000_0000,
        heads == (worker % 0x1_0000_0000) * 0x1_0000_0000 + stealer % 0x1_0000_0000,
        tail_word == tail % 0x1_0000_0000,
    ensures
        fifo::push_decision(heads, tail_word, mask, step) <==> match step {
            Some(next) => tail - stealer < mask + 1 && next == (tail + 1) % 0x1_0000_0000,
            None => tail - stealer >= mask + 1,
        },
{
    reveal(wrap);
    word_is_its_two_parts(heads, worker % 0x1_0000_0000, stealer % 0x1_0000_0000);
}

/// A pop from a FIFO queue takes the oldest available item, if there is one. The slot
/// is free at once unless items are being stolen.
pub proof fn fifo_pop_takes_the_oldest_position(
    stealer: int,
    worker: int,
    tail: int,
    heads: UnsignedLong,
    tail_word: UnsignedShort,
    step: Option<(UnsignedShort, UnsignedLong)>,
)
    requires
        stealer <= worker <= tail < stealer + 0x1_0000_0000,
        heads == (worker % 0x1_0000_0000) * 0x1_0000_0000 + stealer % 0x1_0000_0000,
        tail_word == tail % 0x1_0000_0000,
    ensures
        fifo::pop_decision(heads, tail_word, step) <==> match step {
            Some((position, next)) => {
                &&& worker < tail
                &&& position == worker % 0x1_0000_0000
                &&& stealer == worker ==> next == ((worker + 1) % 0x1_0000_0000) * 0x1_0000_0000
                    + (worker + 1) % 0x1_0000_0000
                &&& stealer < worker ==> next == ((worker + 1) % 0x1_0000_0000) * 0x1_0000_0000
                    + stealer % 0x1_0000_0000
            },
            None => worker == tail,
        },
{
    reveal(wrap);
    word_is_its_two_parts(heads, worker % 0x1_0000_0000, stealer % 0x1_0000_0000);
    if let Some((position, next)) = step {
        word_is_its_two_parts(next, (worker + 1) % 0x1_0000_0000, (worker + 1) % 0x1_0000_0000);
        word_is_its_two_parts(next, (worker + 1) % 0x1_0000_0000, stealer % 0x1_0000_0000);
    }
}

/// A booking in a FIFO queue makes the oldest available items count as taken by the
/// worker side, but keeps their slots in use.
pub proof fn fifo_booking_keeps_the_slots_in_use(
    stealer: int,
    worker: int,
    heads: UnsignedLong,
    count: nat,
    step: Result<fifo::Booking, StealError>,
)
    requires
        heads == (worker % 0x1_0000_0000) * 0x1_0000_0000 + stealer % 0x1_0000_0000,
    ensures
        fifo::booked(heads, count, step) <==> match step {
            Ok(booking) => {
                &&& count != 0
                &&& booking.count == count
                &&& booking.stealer_head == stealer % 0x1_0000_0000
                &&& booking.next_heads == ((worker + count) % 0x1_0000_0000) * 0x1_0000_0000
                    + stealer % 0x1_0000_0000
            },
            Err(e) => count == 0 && e == StealError::Empty,
        },
{
    reveal(wrap);
    word_is_its_two_parts(heads, worker % 0x1_0000_0000, stealer % 0x1_0000_0000);
    if let Ok(booking) = step {
        word_is_its_two_parts(
            booking.next_heads,
            (worker + count) % 0x1_0000_0000,
            stealer % 0x1_0000_0000,
        );
    }
}

/// The completion of a stealing operation on a FIFO queue frees the slots up to the
/// worker head, and no more.
pub proof fn fifo_completion_frees_up_to_the_worker_head(
    stealer: int,
    worker: int,
    heads: UnsignedLong,
    next: UnsignedLong,
)
    requires
        heads == (worker % 0x1_0000_0000) * 0x1_0000_0000 + stealer % 0x1_0000_0000,
    ensures
        fifo::complete_decision(heads, next) <==> next == (worker % 0x1_0000_0000) * 0x1_0000_0000
            + worker % 0x1_0000_0000,
{
    word_is_its_two_parts(heads, worker % 0x1_0000_0000, stealer % 0x1_0000_0000);
    word_is_its_two_parts(next, worker % 0x1_0000_0000, worker % 0x1_0000_0000);
}

/// The tail of a LIFO queue is as far as there were more pushes than pops. The items
/// between the head and the tail are available.
pub proof fn lifo_tail_is_pushes_less_pops(
    pushes: int,
    pops: int,
    head: int,
    word: UnsignedLong,
    push_count: UnsignedShort,
)
    requires
        head <= pushes - pops < head + 0x1_0000_0000,
        word == (pops % 0x1_0000_0000) * 0x1_0000_0000 + head % 0x1_0000_0000,
        push_count == pushes % 0x1_0000_0000,
    ensures
        lifo::tail_position(word, push_count) == (pushes - pops) % 0x1_0000_0000,
        lifo::available(word, push_count) == pushes - pops - head,
{
    reveal(wrap);
    word_is_its_two_parts(word, pops % 0x1_0000_0000, head % 0x1_0000_0000);
}

/// A push onto a LIFO queue goes ahead at the tail if and only if fewer slots are in
/// use than there are, and makes one more count as pushed.
pub proof fn lifo_push_needs_a_free_slot(
    pushes: int,
    pops: int,
    oldest: int,
    head: int,
    word: UnsignedLong,
    push_count: UnsignedShort,
    oldest_word: UnsignedShort,
    capacity: UnsignedShort,
    step: Option<(UnsignedShort, UnsignedShort)>,
)
    requires
        oldest <= head <= pushes - pops < oldest + 0x1_0000_0000,
        word == (pops % 0x1_0000_0000) * 0x1_0000_0000 + head % 0x1_0000_0000,
        push_count == pushes % 0x1_0000_0000,
        oldest_word == oldest % 0x1_0000_0000,
    ensures
        lifo::push_decision(push_count, word, oldest_word, capacity, step) <==> match step {
            Some((position, next)) => {
                &&& pushes - pops - oldest < capacity
                &&& position == (pushes - pops) % 0x1_0000_0000
                &&& next == (pushes + 1) % 0x1_0000_0000
            },
            None => pushes - pops - oldest >= capacity,
        },
{
    lifo_tail_is_pushes_less_pops(pushes, pops, head, word, push_count);
    reveal(wrap);
}

/// A pop from a LIFO queue takes the newest item, if there is one, and makes one more
/// count as popped. The head stays.
pub proof fn lifo_pop_takes_the_newest_position(
    pushes: int,
    pops: int,
    head: int,
    word: UnsignedLong,
    push_count: UnsignedShort,
    step: Option<(UnsignedShort, UnsignedLong)>,
)
    requires
        head <= pushes - pops < head + 0x1_0000_0000,
        word == (pops % 0x1_0000_0000) * 0x1_0000_0000 + head % 0x1_0000_0000,
        push_count == pushes % 0x1_0000_0000,
    ensures
        lifo::pop_decision(word, push_count, step) <==> match step {
            Some((position, next)) => {
                &&& head < pushes - pops
                &&& position == (pushes - pops - 1) % 0x1_0000_0000
                &&& next == ((pops + 1) % 0x1_0000_0000) * 0x1_0000_0000 + head % 0x1_0000_0000
            },
            None => head == pushes - pops,
        },
{
    lifo_tail_is_pushes_less_pops(pushes, pops, head, word, push_count);
    word_is_its_two_parts(word, pops % 0x1_0000_0000, head % 0x1_0000_0000);
    reveal(wrap);
    if let Some((position, next)) = step {
        word_is_its_two_parts(next, (pops + 1) % 0x1_0000_0000, head % 0x1_0000_0000);
    }
}

/// A booking in a LIFO queue moves the head past the oldest available items. The pop
/// count stays.
pub proof fn lifo_booking_moves_the_head(
    pops: int,
    head: int,
    word: UnsignedLong,
    count: nat,
    step: Result<lifo::Booking, StealError>,
)
    requires
        word == (pops % 0x1_0000_0000) * 0x1_0000_0000 + head % 0x1_0000_0000,
    ensures
        lifo::booked(word, count, step) <==> match step {
            Ok(booking) => {
                &&& count != 0
                &&& booking.count == count
                &&& booking.head == head % 0x1_0000_0000
                &&& booking.new_head == (head + count) % 0x1_0000_0000
                &&& booking.next == (pops % 0x1_0000_0000) * 0x1_0000_0000 + (head + count)
                    % 0x1_0000_0000
            },
            Err(e) => count == 0 && e == StealError::Empty,
        },
{
    reveal(wrap);
    word_is_its_two_parts(word, pops % 0x1_0000_0000, head % 0x1_0000_0000);
    if let Ok(booking) = step {
        word_is_its_two_parts(
            booking.next,
            pops % 0x1_0000_0000,
            (head + count) % 0x1_0000_0000,
        );
    }
}

/// The slots of a buffer are what its cells hold, a turn visits each of them once from
/// the head on, and the mask is one less than their number.
pub proof fn turn_visits_the_slots_in_order<T>(
    buffer: Seq<UnsafeCell<Option<T>>>,
    mask: UnsignedShort,
    head: int,
)
    ensures
        slots(buffer).len() == buffer.len(),
        forall|i: int| 0 <= i < buffer.len() ==> #[trigger] slots(buffer)[i] == buffer[i]@,
        turn(slots(buffer), head).len() == buffer.len(),
        forall|k: int|
            0 <= k < buffer.len() ==> #[trigger] turn(slots(buffer), head)[k] == buffer[(head + k)
                % (buffer.len() as int)]@,
        ring_wf(buffer, mask) <==> {
            &&& buffer.len() == mask + 1
            &&& exists|e: nat| e < 32 && buffer.len() == #[trigger] pow2(e)
        },
{
    if buffer.len() > 0 {
        assert forall|k: int| 0 <= k < buffer.len() implies #[trigger] turn(
            slots(buffer),
            head,
        )[k] == buffer[(head + k) % (buffer.len() as int)]@ by {
            vstd::arithmetic::div_mod::lemma_mod_bound(head + k, buffer.len() as int);
        }
    }
}

/// A run of slots is contiguous if its last one is not before its first one.
pub proof fn contiguous_runs_do_not_wrap(cap: int, index: int, len: int)
    requires
        0 <= index,
        0 < len <= cap,
    ensures
        contiguous(cap, index, len) <==> (index + len - 1) % cap == index % cap + len - 1,
{
    let base = index % cap;
    vstd::arithmetic::div_mod::lemma_mod_bound(index, cap);
    vstd::arithmetic::div_mod::lemma_mod_bound(index + len - 1, cap);
    vstd::arithmetic::div_mod::lemma_add_mod_noop(index, len - 1, cap);
    vstd::arithmetic::div_mod::lemma_add_mod_noop(base, len - 1, cap);
    vstd::arithmetic::div_mod::lemma_mod_twice(index, cap);
    if base + len <= cap {
        vstd::arithmetic::div_mod::lemma_small_mod((base + len - 1) as nat, cap as nat);
    }
}

/// A transfer between two buffers moves what is in a range of slots: the destination
/// has it afterwards, at the same offsets, the source does not, and all other slots
/// are the same.
pub proof fn transfer_moves_a_range<T>(
    src: Seq<Option<T>>,
    dst: Seq<Option<T>>,
    start: int,
    end: int,
    k: int,
)
    requires
        0 <= start <= end <= src.len(),
        end <= dst.len(),
    ensures
        vacated(src, start, end).len() == src.len(),
        received(dst, src, start, end).len() == dst.len(),
        start <= k < end ==> vacated(src, start, end)[k] == None::<T> && received(
            dst,
            src,
            start,
            end,
        )[k] == src[k],
        0 <= k < src.len() && (k < start || k >= end) ==> vacated(src, start, end)[k] == src[k],
        0 <= k < dst.len() && (k < start || k >= end) ==> received(dst, src, start, end)[k]
            == dst[k],
{
}

/// A transfer within a buffer moves what is in a range of slots to the slots `d` steps
/// further, and all other slots are the same.
pub proof fn transfer_within_moves_a_range<T>(
    before: Seq<Option<T>>,
    d: int,
    start: int,
    end: int,
    k: int,
)
    requires
        0 <= start <= end,
        end - start <= d,
        d + end <= before.len(),
    ensures
        relocated(before, d, start, end).len() == before.len(),
        start <= k < end ==> relocated(before, d, start, end)[k] == None::<T> && relocated(
            before,
            d,
            start,
            end,
        )[k + d] == before[k],
        0 <= k < before.len() && (k < start || k >= end) && (k < d + start || k >= d + end)
            ==> relocated(before, d, start, end)[k] == before[k],
{
}

/// The size of a buffer is the one in the name of its marker type.
pub proof fn buffer_sizes_are_as_named<T>()
    ensures
        <B2 as Buffer<T>>::size() == 2,
        <B4 as Buffer<T>>::size() == 4,
        <B8 as Buffer<T>>::size() == 8,
        <B16 as Buffer<T>>::size() == 16,
        <B32 as Buffer<T>>::size() == 32,
        <B64 as Buffer<T>>::size() == 64,
        <B128 as Buffer<T>>::size() == 128,
        <B256 as Buffer<T>>::size() == 256,
        <B512 as Buffer<T>>::size() == 512,
        <B1024 as Buffer<T>>::size() == 1024,
        <B2048 as Buffer<T>>::size() == 2048,
        <B4096 as Buffer<T>>::size() == 4096,
        <B8192 as Buffer<T>>::size() == 8192,
        <B16384 as Buffer<T>>::size() == 16384,
        <B32768 as Buffer<T>>::size() == 32768,
{
}

} // verus!
