//! Decisions on plain words, and how they play together when threads interleave.
use st3::cell::UnsafeCell;
use st3::position::{advance, distance, drain_step, next_power_of_two};
use st3::transfer::{chunk_bounds, transfer_items, transfer_items_within};
use st3::{allocate_buffer, fifo, lifo, pack, unpack, StealError};

#[test]
fn pack_and_unpack() {
    assert_eq!(pack(0, 0), 0);
    assert_eq!(pack(1, 2), 0x1_0000_0002);
    assert_eq!(pack(u32::MAX, 0), 0xffff_ffff_0000_0000);
    assert_eq!(unpack(0x0123_4567_89ab_cdef), (0x0123_4567, 0x89ab_cdef));
    assert_eq!(unpack(pack(7, u32::MAX)), (7, u32::MAX));
    let (high, low) = unpack(0xfedc_ba98_7654_3210);
    assert_eq!(pack(high, low), 0xfedc_ba98_7654_3210);
}

#[test]
fn error_texts() {
    assert_eq!(StealError::Empty.to_string(), "cannot steal from empty queue");
    assert_eq!(
        StealError::Busy.to_string(),
        "a concurrent steal operation is ongoing"
    );
    assert_eq!(StealError::Busy.clone(), StealError::Busy);
    assert_eq!(StealError::Empty.clone(), StealError::Empty);
}

#[test]
fn positions_wrap_around() {
    assert_eq!(advance(5, 3), 8);
    assert_eq!(advance(u32::MAX, 2), 1);
    assert_eq!(distance(5, 8), 3);
    assert_eq!(distance(u32::MAX, 1), 2);
    assert_eq!(distance(4, 4), 0);
    assert_eq!(distance(1, 0), u32::MAX);
}

#[test]
fn drains_step_to_their_end() {
    assert_eq!(drain_step(3, 5), Some((4, false)));
    assert_eq!(drain_step(4, 5), Some((5, true)));
    assert_eq!(drain_step(5, 5), None);
    assert_eq!(drain_step(u32::MAX, 0), Some((0, true)));
}

#[test]
fn smallest_powers_of_two() {
    assert_eq!(next_power_of_two(0), 1);
    assert_eq!(next_power_of_two(1), 1);
    assert_eq!(next_power_of_two(2), 2);
    assert_eq!(next_power_of_two(5), 8);
    assert_eq!(next_power_of_two(0x4000_0001), 0x8000_0000);
    assert_eq!(next_power_of_two(0x8000_0000), 0x8000_0000);
}

#[test]
fn cells() {
    let mut cell = UnsafeCell::new(3);
    assert_eq!(cell.with(|x| *x + 1), 4);
    assert_eq!(
        cell.with_mut(|x| {
            *x += 10;
            *x
        }),
        13
    );
    assert_eq!(cell.with(|x| *x), 13);
}

#[test]
fn allocated_slots_are_empty() {
    let buffer = allocate_buffer::<u8>(5);
    assert_eq!(buffer.len(), 5);
    assert!(buffer.iter().all(|slot| slot.with(|s| s.is_none())));
}

#[test]
fn chunks_split_at_both_wrap_points() {
    // No range wraps around.
    assert_eq!(chunk_bounds(8, 0, 8, 0, 8), (8, 8));
    // The source range wraps after 3 items.
    assert_eq!(chunk_bounds(8, 5, 16, 0, 6), (3, 6));
    // The destination range wraps after 2 items.
    assert_eq!(chunk_bounds(8, 0, 8, 6, 6), (2, 6));
    // Both ranges wrap, after 3 and after 2 items.
    assert_eq!(chunk_bounds(8, 5, 8, 6, 6), (2, 3));
    assert_eq!(chunk_bounds(8, 3, 8, 3, 0), (0, 0));
}

fn buffer_with(cap: usize, head: usize, items: &[u32]) -> Vec<UnsafeCell<Option<u32>>> {
    let mut buffer = allocate_buffer(cap);
    for (i, item) in items.iter().enumerate() {
        buffer[(head + i) % cap] = UnsafeCell::new(Some(*item));
    }
    buffer
}

fn contents(buffer: &[UnsafeCell<Option<u32>>]) -> Vec<Option<u32>> {
    buffer.iter().map(|slot| slot.with(|s| *s)).collect()
}

#[test]
fn transfer_between_all_positions() {
    for src_pos in 0..8u32 {
        for dst_pos in 0..16u32 {
            for count in 0..=8u32 {
                let items: Vec<u32> = (1..=8).collect();
                let mut src = buffer_with(8, src_pos as usize, &items);
                let mut dst = allocate_buffer(16);
                transfer_items(&mut src, 7, src_pos, &mut dst, 15, dst_pos, count);

                let rest = buffer_with(8, (src_pos + count) as usize, &items[count as usize..]);
                let moved = buffer_with(16, dst_pos as usize, &items[..count as usize]);
                assert_eq!(contents(&src), contents(&rest));
                assert_eq!(contents(&dst), contents(&moved));
            }
        }
    }
}

#[test]
fn transfer_within_a_buffer() {
    for src_pos in 0..8u32 {
        let mut buffer = buffer_with(8, src_pos as usize, &[1, 2, 3, 4]);
        transfer_items_within(&mut buffer, 7, src_pos, src_pos + 4, 3);

        let expected = buffer_with(8, src_pos as usize + 3, &[4, 1, 2, 3]);
        assert_eq!(contents(&buffer), contents(&expected));
    }
}

#[test]
fn fifo_decisions() {
    // Capacity 4, items at positions 2 and 3.
    let heads = pack(2, 2);
    assert_eq!(fifo::push_step(heads, 4, 3), Some(5));
    assert_eq!(fifo::push_step(heads, 6, 3), None);
    assert_eq!(fifo::push_step(pack(u32::MAX, u32::MAX), u32::MAX, 3), Some(0));
    assert_eq!(fifo::pop_step(heads, 4), Some((2, pack(3, 3))));
    assert_eq!(fifo::pop_step(pack(3, 2), 4), Some((3, pack(4, 2))));
    assert_eq!(fifo::pop_step(heads, 2), None);
    assert_eq!(fifo::complete_step(pack(5, 2)), pack(5, 5));
    assert_eq!(fifo::spare_step(pack(3, 2), 4, 4), 2);
    assert!(fifo::empty_step(pack(3, 2), 3));
    assert!(!fifo::empty_step(pack(3, 2), 4));
    assert_eq!(fifo::drop_step(pack(3, 2), 5), (3, 2));
    assert_eq!(fifo::drop_step(pack(u32::MAX, u32::MAX), 1), (u32::MAX, 2));

    let booking = fifo::book_step(heads, 5, |n| n - 1, 8).unwrap();
    assert_eq!(booking.stealer_head, 2);
    assert_eq!(booking.count, 2);
    assert_eq!(booking.next_heads, pack(4, 2));
    assert_eq!(fifo::book_step(heads, 5, |n| n, 1).unwrap().count, 1);
    assert_eq!(fifo::book_step(heads, 5, |_| usize::MAX, 8).unwrap().count, 3);
    assert_eq!(
        fifo::book_step(pack(3, 2), 5, |n| n, 8).map(|b| b.count),
        Err(StealError::Busy)
    );
    assert_eq!(
        fifo::book_step(heads, 2, |n| n, 8).map(|b| b.count),
        Err(StealError::Empty)
    );
    assert_eq!(
        fifo::book_step(heads, 5, |_| 0, 8).map(|b| b.count),
        Err(StealError::Empty)
    );
    assert_eq!(
        fifo::book_step(heads, 5, |n| n, 0).map(|b| b.count),
        Err(StealError::Empty)
    );
}

#[test]
fn lifo_decisions() {
    // 7 items were pushed, 2 were popped and 2 were stolen: items at positions
    // 2 to 4.
    let word = pack(2, 2);
    assert_eq!(lifo::push_step(7, word, 2, 4), Some((5, 8)));
    assert_eq!(lifo::push_step(7, word, 1, 4), None);
    assert_eq!(lifo::push_step(u32::MAX, pack(0, u32::MAX), u32::MAX, 4), Some((u32::MAX, 0)));
    assert_eq!(lifo::pop_step(word, 7), Some((4, pack(3, 2))));
    assert_eq!(lifo::pop_step(word, 4), None);
    assert_eq!(lifo::spare_step(7, word, 1, 4), 0);
    assert_eq!(lifo::spare_step(7, word, 2, 4), 1);
    assert!(lifo::empty_step(word, 4));
    assert!(!lifo::empty_step(word, 7));
    assert_eq!(lifo::drop_step(word, 7), (2, 3));
    assert_eq!(lifo::drop_step(word, 4), (2, 0));

    let booking = lifo::book_step(2, word, 7, |n| n - 1, 8).unwrap();
    assert_eq!(booking.head, 2);
    assert_eq!(booking.new_head, 4);
    assert_eq!(booking.count, 2);
    assert_eq!(booking.next, pack(2, 4));
    assert_eq!(lifo::book_step(2, word, 7, |n| n, 1).unwrap().count, 1);
    assert_eq!(
        lifo::book_step(1, word, 7, |n| n, 8).map(|b| b.count),
        Err(StealError::Busy)
    );
    assert_eq!(
        lifo::book_step(2, word, 4, |n| n, 8).map(|b| b.count),
        Err(StealError::Empty)
    );
    assert_eq!(
        lifo::book_step(2, word, 7, |_| 0, 8).map(|b| b.count),
        Err(StealError::Empty)
    );
}

#[test]
fn fifo_interleaving() {
    // A queue of capacity 4 that holds 1, 2 and 3.
    let mut slots = [Some(1), Some(2), Some(3), None];
    let mut heads = pack(0, 0);
    let mut tail = 3;

    // A stealer looks, the worker pops, and the stealer finds the heads changed.
    let seen = heads;
    let (position, next) = fifo::pop_step(heads, tail).unwrap();
    heads = next;
    assert_eq!(slots[position as usize % 4].take(), Some(1));
    assert_ne!(seen, heads);

    // The stealer looks again and books an item. Others find the queue busy.
    let booking = fifo::book_step(heads, tail, |_| 1, 4).unwrap();
    heads = booking.next_heads;
    assert_eq!(
        fifo::book_step(heads, tail, |_| 1, 4).map(|b| b.count),
        Err(StealError::Busy)
    );

    // Meanwhile, the worker pops and pushes. The push overwrites no booked item.
    let (position, next) = fifo::pop_step(heads, tail).unwrap();
    heads = next;
    assert_eq!(slots[position as usize % 4].take(), Some(3));
    for item in [4, 5] {
        let next_tail = fifo::push_step(heads, tail, 3).unwrap();
        assert_eq!(slots[tail as usize % 4], None);
        slots[tail as usize % 4] = Some(item);
        tail = next_tail;
    }
    assert_eq!(fifo::push_step(heads, tail, 3), None);

    // The stealer moves its item out and is done.
    assert_eq!(slots[booking.stealer_head as usize % 4].take(), Some(2));
    heads = fifo::complete_step(heads);
    assert_eq!(unpack(heads), (3, 3));
    assert_eq!(fifo::spare_step(heads, tail, 4), 2);
    assert_eq!(fifo::book_step(heads, tail, |n| n, 4).unwrap().count, 2);
}

#[test]
fn lifo_interleaving() {
    // A queue of capacity 4 that holds 1, 2 and 3.
    let mut slots = [Some(1), Some(2), Some(3), None];
    let mut word = pack(0, 0);
    let mut head = 0;
    let mut push_count = 3;

    // A stealer books an item. Others find the queue busy.
    let booking = lifo::book_step(head, word, push_count, |_| 1, 4).unwrap();
    word = booking.next;
    assert_eq!(
        lifo::book_step(head, word, push_count, |_| 1, 4).map(|b| b.count),
        Err(StealError::Busy)
    );

    // Meanwhile, the worker pops and pushes. The push overwrites no booked item.
    let (position, next) = lifo::pop_step(word, push_count).unwrap();
    word = next;
    assert_eq!(slots[position as usize % 4].take(), Some(3));
    for item in [4, 5] {
        let (position, next) = lifo::push_step(push_count, word, head, 4).unwrap();
        assert_eq!(slots[position as usize % 4], None);
        slots[position as usize % 4] = Some(item);
        push_count = next;
    }
    assert_eq!(lifo::push_step(push_count, word, head, 4), None);

    // The stealer moves its item out and is done.
    assert_eq!(slots[booking.head as usize % 4].take(), Some(1));
    head = booking.new_head;
    assert_eq!(lifo::spare_step(push_count, word, head, 4), 1);
    assert_eq!(
        lifo::book_step(head, word, push_count, |n| n, 4).unwrap().count,
        3
    );
    assert_eq!(slots, [None, Some(2), Some(4), Some(5)]);
}

#[test]
fn told_slots_can_be_written() {
    // 2 of 4 slots are free, beyond the point where positions wrap around.
    let heads = pack(u32::MAX, u32::MAX - 1);
    let mut tail = 0;
    for _ in 0..fifo::spare_step(heads, tail, 4) {
        tail = fifo::push_step(heads, tail, 3).unwrap();
    }
    assert_eq!(tail, 2);
    assert_eq!(fifo::push_step(heads, tail, 3), None);

    let word = pack(7, u32::MAX);
    let mut push_count = 7;
    for _ in 0..lifo::spare_step(push_count, word, u32::MAX - 1, 4) {
        push_count = lifo::push_step(push_count, word, u32::MAX - 1, 4).unwrap().1;
    }
    assert_eq!(push_count, 9);
    assert_eq!(lifo::push_step(push_count, word, u32::MAX - 1, 4), None);
}
