//! Laws of the queues, on concrete values.
use std::rc::Rc;

use st3::{fifo, lifo, pack, StealError};

// Numbers that look random.
struct Numbers(u64);

impl Numbers {
    fn below(&mut self, n: u64) -> usize {
        self.0 = self.0.wrapping_mul(6364136223846793005).wrapping_add(1442695040888963407);
        ((self.0 >> 33) % n) as usize
    }
}

#[test]
fn fifo_every_item_is_taken_once() {
    const N: usize = 20_000;
    let mut numbers = Numbers(1);
    fifo::with_pool(|mut pool| {
        let worker = fifo::Worker::new(&mut pool, 128);
        let thieves = [fifo::Worker::new(&mut pool, 128), fifo::Worker::new(&mut pool, 16)];
        let stealer = worker.stealer();
        let mut pushed = 0;
        let mut taken = vec![0; N];

        while taken.iter().sum::<usize>() < N {
            for _ in 0..numbers.below(10) {
                if pushed < N && worker.push(&mut pool, pushed).is_ok() {
                    pushed += 1;
                }
            }
            if let Some(i) = worker.pop(&mut pool) {
                taken[i] += 1;
            }
            let thief = &thieves[numbers.below(2)];
            if let Ok((i, count)) =
                stealer.steal_and_pop(&mut pool, thief, |n| numbers.below(n as u64 + 1))
            {
                taken[i] += 1;
                let mut popped = 0;
                while let Some(j) = thief.pop(&mut pool) {
                    taken[j] += 1;
                    popped += 1;
                }
                assert_eq!(popped, count);
            }
            let _ = worker.drain(
                &mut pool,
                |n| n / 3,
                |pool, drain| {
                    while let Some(i) = drain.next(pool) {
                        taken[i] += 1;
                    }
                },
            );
        }
        assert!(taken.iter().all(|count| *count == 1));
    });
}

#[test]
fn fifo_pop_order() {
    fifo::with_pool(|mut pool| {
        let worker = fifo::Worker::new(&mut pool, 4);
        worker.extend(&mut pool, vec![1, 2, 3].into_iter());
        let mut popped = Vec::new();
        while let Some(i) = worker.pop(&mut pool) {
            popped.push(i);
        }
        assert_eq!(popped, [1, 2, 3]);
    });
}

#[test]
fn fifo_steal_takes_the_oldest() {
    fifo::with_pool(|mut pool| {
        let worker = fifo::Worker::new(&mut pool, 8);
        let other = fifo::Worker::new(&mut pool, 8);
        let third = fifo::Worker::new(&mut pool, 8);
        worker.extend(&mut pool, 1..=5);
        other.push(&mut pool, 10).unwrap();
        third.push(&mut pool, 20).unwrap();

        assert_eq!(worker.stealer().steal(&mut pool, &other, |n| n - 2), Ok(3));

        // A steal of all items shows them in their order.
        worker
            .drain(&mut pool, |n| n, |pool, drain| {
                assert_eq!(drain.next(pool), Some(4));
                assert_eq!(drain.next(pool), Some(5));
                assert_eq!(drain.next(pool), None);
            })
            .unwrap();
        other
            .drain(&mut pool, |n| n, |pool, drain| {
                assert_eq!(drain.size_hint(), (4, Some(4)));
                assert_eq!(drain.next(pool), Some(10));
                assert_eq!(drain.next(pool), Some(1));
                assert_eq!(drain.next(pool), Some(2));
                assert_eq!(drain.next(pool), Some(3));
                assert_eq!(drain.next(pool), None);
            })
            .unwrap();
        assert_eq!(third.pop(&mut pool), Some(20));
    });
}

#[test]
fn fifo_self_steal_rotates() {
    fifo::with_pool(|mut pool| {
        let worker = fifo::Worker::new(&mut pool, 8);
        worker.extend(&mut pool, 1..=5);
        // There is room for 3 items only.
        assert_eq!(worker.stealer().steal(&mut pool, &worker, |n| n), Ok(3));
        let mut items = Vec::new();
        worker
            .drain(&mut pool, |n| n, |pool, drain| {
                while let Some(i) = drain.next(pool) {
                    items.push(i);
                }
            })
            .unwrap();
        assert_eq!(items, [4, 5, 1, 2, 3]);
    });
}

#[test]
fn fifo_steal_is_bounded() {
    fifo::with_pool(|mut pool| {
        let worker = fifo::Worker::new(&mut pool, 8);
        let small = fifo::Worker::new(&mut pool, 2);
        let large = fifo::Worker::new(&mut pool, 16);
        let stealer = worker.stealer();

        // By the number of available items, which the closure is told.
        worker.extend(&mut pool, 0..3);
        assert_eq!(
            stealer.steal(&mut pool, &large, |n| {
                assert_eq!(n, 3);
                usize::MAX
            }),
            Ok(3)
        );
        // By the number of items asked for.
        worker.extend(&mut pool, 0..3);
        assert_eq!(stealer.steal(&mut pool, &large, |_| 1), Ok(1));
        // By the room in the destination queue.
        worker.extend(&mut pool, 0..3);
        assert_eq!(stealer.steal(&mut pool, &small, |n| n), Ok(2));
        assert_eq!(
            stealer.steal(&mut pool, &small, |n| n),
            Err(StealError::Empty)
        );
    });
}

#[test]
fn fifo_steal_and_pop_with_full_destination() {
    fifo::with_pool(|mut pool| {
        let worker = fifo::Worker::new(&mut pool, 8);
        let full = fifo::Worker::new(&mut pool, 1);
        full.push(&mut pool, 100).unwrap();
        worker.extend(&mut pool, 1..=3);

        assert_eq!(
            worker.stealer().steal(&mut pool, &full, |n| n),
            Err(StealError::Empty)
        );
        assert_eq!(
            worker.stealer().steal_and_pop(&mut pool, &full, |n| n),
            Ok((1, 0))
        );
    });
}

#[test]
fn fifo_spare_capacity_can_be_filled_up() {
    fifo::with_pool(|mut pool| {
        let worker = fifo::Worker::new(&mut pool, 8);
        worker.push(&mut pool, 0).unwrap();
        let spare = worker.spare_capacity(&pool);
        assert_eq!(spare, 7);
        worker.extend(&mut pool, 0..spare);
        assert_eq!(worker.spare_capacity(&pool), 0);
        // Items in excess are dropped.
        worker.extend(&mut pool, 100..200);
        assert_eq!(worker.push(&mut pool, 300), Err(300));
        let mut count = 0;
        while let Some(i) = worker.pop(&mut pool) {
            assert!(i < 100);
            count += 1;
        }
        assert_eq!(count, 8);
    });
}

#[test]
fn fifo_drain_is_undisturbed() {
    fifo::with_pool(|mut pool| {
        let worker = fifo::Worker::new(&mut pool, 4);
        let other = fifo::Worker::new(&mut pool, 4);
        worker.extend(&mut pool, 1..=4);

        worker
            .drain(&mut pool, |_| 2, |pool, drain| {
                assert_eq!(drain.size_hint(), (2, Some(2)));
                assert_eq!(worker.push(pool, 5), Err(5));
                assert_eq!(drain.next(pool), Some(1));
                assert_eq!(drain.size_hint(), (1, Some(1)));
                assert_eq!(worker.pop(pool), Some(3));
                // The slots of the stolen items are in use until all were moved out.
                assert_eq!(worker.spare_capacity(pool), 0);
                assert_eq!(
                    worker.stealer().steal(pool, &other, |n| n),
                    Err(StealError::Busy)
                );
                assert_eq!(
                    worker.drain(pool, |n| n, |_, _| ()),
                    Err(StealError::Busy)
                );
                assert_eq!(drain.next(pool), Some(2));
                assert_eq!(worker.spare_capacity(pool), 3);
                assert_eq!(drain.next(pool), None);
                assert_eq!(drain.size_hint(), (0, Some(0)));
                assert_eq!(worker.stealer().steal(pool, &other, |n| n), Ok(1));
                assert_eq!(other.pop(pool), Some(4));
            })
            .unwrap();
    });
}

#[test]
fn fifo_dropped_drain_completes() {
    fifo::with_pool(|mut pool| {
        let worker = fifo::Worker::new(&mut pool, 4);
        let other = fifo::Worker::new(&mut pool, 4);
        let items: Vec<Rc<u32>> = (1..=4).map(Rc::new).collect();
        worker.extend(&mut pool, items.iter().cloned());

        worker
            .drain(&mut pool, |_| 3, |pool, drain| {
                assert_eq!(drain.next(pool).map(|i| *i), Some(1));
                drain.drop(pool);
            })
            .unwrap();

        // The items are dropped, and the queue is free to be stolen from.
        assert_eq!(Rc::strong_count(&items[1]), 1);
        assert_eq!(Rc::strong_count(&items[2]), 1);
        assert_eq!(Rc::strong_count(&items[3]), 2);
        assert_eq!(worker.spare_capacity(&pool), 3);
        assert_eq!(worker.stealer().steal(&mut pool, &other, |n| n), Ok(1));
        assert_eq!(other.pop(&mut pool).map(|i| *i), Some(4));
    });
}

#[test]
fn fifo_pool_drops_items_once() {
    let items: Vec<Rc<u32>> = (1..=4).map(Rc::new).collect();
    fifo::with_pool(|mut pool| {
        let worker = fifo::Worker::new(&mut pool, 4);
        worker.extend(&mut pool, items.iter().cloned());
        let popped = worker.pop(&mut pool);
        assert!(popped.is_some());
        drop(popped);
        drop(pool);
        assert!(items.iter().all(|item| Rc::strong_count(item) == 1));
    });
}

#[test]
fn lifo_every_item_is_taken_once() {
    const N: usize = 20_000;
    let mut numbers = Numbers(2);
    lifo::with_pool(|mut pool| {
        let worker = lifo::Worker::new(&mut pool, 128);
        let thieves = [lifo::Worker::new(&mut pool, 128), lifo::Worker::new(&mut pool, 16)];
        let stealer = worker.stealer();
        let mut pushed = 0;
        let mut taken = vec![0; N];

        while taken.iter().sum::<usize>() < N {
            for _ in 0..numbers.below(10) {
                if pushed < N && worker.push(&mut pool, pushed).is_ok() {
                    pushed += 1;
                }
            }
            if let Some(i) = worker.pop(&mut pool) {
                taken[i] += 1;
            }
            let thief = &thieves[numbers.below(2)];
            if let Ok((i, count)) =
                stealer.steal_and_pop(&mut pool, thief, |n| numbers.below(n as u64 + 1))
            {
                taken[i] += 1;
                let mut popped = 0;
                while let Some(j) = thief.pop(&mut pool) {
                    taken[j] += 1;
                    popped += 1;
                }
                assert_eq!(popped, count);
            }
            let _ = worker.drain(
                &mut pool,
                |n| n / 3,
                |pool, drain| {
                    while let Some(i) = drain.next(pool) {
                        taken[i] += 1;
                    }
                },
            );
        }
        assert!(taken.iter().all(|count| *count == 1));
    });
}

#[test]
fn lifo_pop_order() {
    lifo::with_pool(|mut pool| {
        let worker = lifo::Worker::new(&mut pool, 4);
        worker.extend(&mut pool, vec![1, 2, 3].into_iter());
        let mut popped = Vec::new();
        while let Some(i) = worker.pop(&mut pool) {
            popped.push(i);
        }
        assert_eq!(popped, [3, 2, 1]);
    });
}

#[test]
fn lifo_steal_takes_the_oldest() {
    lifo::with_pool(|mut pool| {
        let worker = lifo::Worker::new(&mut pool, 8);
        let other = lifo::Worker::new(&mut pool, 8);
        let third = lifo::Worker::new(&mut pool, 8);
        worker.extend(&mut pool, 1..=5);
        other.push(&mut pool, 10).unwrap();
        third.push(&mut pool, 20).unwrap();

        assert_eq!(worker.stealer().steal(&mut pool, &other, |n| n - 2), Ok(3));

        // A steal of all items shows them in their order.
        worker
            .drain(&mut pool, |n| n, |pool, drain| {
                assert_eq!(drain.next(pool), Some(4));
                assert_eq!(drain.next(pool), Some(5));
                assert_eq!(drain.next(pool), None);
            })
            .unwrap();
        other
            .drain(&mut pool, |n| n, |pool, drain| {
                assert_eq!(drain.size_hint(), (4, Some(4)));
                assert_eq!(drain.next(pool), Some(10));
                assert_eq!(drain.next(pool), Some(1));
                assert_eq!(drain.next(pool), Some(2));
                assert_eq!(drain.next(pool), Some(3));
                assert_eq!(drain.next(pool), None);
            })
            .unwrap();
        assert_eq!(third.pop(&mut pool), Some(20));
    });
}

#[test]
fn lifo_self_steal_rotates() {
    lifo::with_pool(|mut pool| {
        let worker = lifo::Worker::new(&mut pool, 8);
        worker.extend(&mut pool, 1..=5);
        // There is room for 3 items only.
        assert_eq!(worker.stealer().steal(&mut pool, &worker, |n| n), Ok(3));
        let mut items = Vec::new();
        worker
            .drain(&mut pool, |n| n, |pool, drain| {
                while let Some(i) = drain.next(pool) {
                    items.push(i);
                }
            })
            .unwrap();
        assert_eq!(items, [4, 5, 1, 2, 3]);
    });
}

#[test]
fn lifo_steal_is_bounded() {
    lifo::with_pool(|mut pool| {
        let worker = lifo::Worker::new(&mut pool, 8);
        let small = lifo::Worker::new(&mut pool, 2);
        let large = lifo::Worker::new(&mut pool, 16);
        let stealer = worker.stealer();

        // By the number of available items, which the closure is told.
        worker.extend(&mut pool, 0..3);
        assert_eq!(
            stealer.steal(&mut pool, &large, |n| {
                assert_eq!(n, 3);
                usize::MAX
            }),
            Ok(3)
        );
        // By the number of items asked for.
        worker.extend(&mut pool, 0..3);
        assert_eq!(stealer.steal(&mut pool, &large, |_| 1), Ok(1));
        // By the room in the destination queue.
        worker.extend(&mut pool, 0..3);
        assert_eq!(stealer.steal(&mut pool, &small, |n| n), Ok(2));
        assert_eq!(
            stealer.steal(&mut pool, &small, |n| n),
            Err(StealError::Empty)
        );
    });
}

#[test]
fn lifo_steal_and_pop_with_full_destination() {
    lifo::with_pool(|mut pool| {
        let worker = lifo::Worker::new(&mut pool, 8);
        let full = lifo::Worker::new(&mut pool, 1);
        full.push(&mut pool, 100).unwrap();
        worker.extend(&mut pool, 1..=3);

        assert_eq!(
            worker.stealer().steal(&mut pool, &full, |n| n),
            Err(StealError::Empty)
        );
        assert_eq!(
            worker.stealer().steal_and_pop(&mut pool, &full, |n| n),
            Ok((1, 0))
        );
    });
}

#[test]
fn lifo_spare_capacity_can_be_filled_up() {
    lifo::with_pool(|mut pool| {
        let worker = lifo::Worker::new(&mut pool, 8);
        worker.push(&mut pool, 0).unwrap();
        let spare = worker.spare_capacity(&pool);
        assert_eq!(spare, 7);
        worker.extend(&mut pool, 0..spare);
        assert_eq!(worker.spare_capacity(&pool), 0);
        // Items in excess are dropped.
        worker.extend(&mut pool, 100..200);
        assert_eq!(worker.push(&mut pool, 300), Err(300));
        let mut count = 0;
        while let Some(i) = worker.pop(&mut pool) {
            assert!(i < 100);
            count += 1;
        }
        assert_eq!(count, 8);
    });
}

#[test]
fn lifo_drain_is_undisturbed() {
    lifo::with_pool(|mut pool| {
        let worker = lifo::Worker::new(&mut pool, 4);
        let other = lifo::Worker::new(&mut pool, 4);
        worker.extend(&mut pool, 1..=4);

        worker
            .drain(&mut pool, |_| 2, |pool, drain| {
                assert_eq!(drain.size_hint(), (2, Some(2)));
                assert_eq!(worker.push(pool, 5), Err(5));
                assert_eq!(drain.next(pool), Some(1));
                assert_eq!(drain.size_hint(), (1, Some(1)));
                assert_eq!(worker.pop(pool), Some(4));
                // The slots of the stolen items are in use until all were moved out.
                assert_eq!(worker.spare_capacity(pool), 1);
                assert_eq!(
                    worker.stealer().steal(pool, &other, |n| n),
                    Err(StealError::Busy)
                );
                assert_eq!(
                    worker.drain(pool, |n| n, |_, _| ()),
                    Err(StealError::Busy)
                );
                assert_eq!(drain.next(pool), Some(2));
                assert_eq!(worker.spare_capacity(pool), 3);
                assert_eq!(drain.next(pool), None);
                assert_eq!(drain.size_hint(), (0, Some(0)));
                assert_eq!(worker.stealer().steal(pool, &other, |n| n), Ok(1));
                assert_eq!(other.pop(pool), Some(3));
            })
            .unwrap();
    });
}

#[test]
fn lifo_dropped_drain_completes() {
    lifo::with_pool(|mut pool| {
        let worker = lifo::Worker::new(&mut pool, 4);
        let other = lifo::Worker::new(&mut pool, 4);
        let items: Vec<Rc<u32>> = (1..=4).map(Rc::new).collect();
        worker.extend(&mut pool, items.iter().cloned());

        worker
            .drain(&mut pool, |_| 3, |pool, drain| {
                assert_eq!(drain.next(pool).map(|i| *i), Some(1));
                drain.drop(pool);
            })
            .unwrap();

        // The items are dropped, and the queue is free to be stolen from.
        assert_eq!(Rc::strong_count(&items[1]), 1);
        assert_eq!(Rc::strong_count(&items[2]), 1);
        assert_eq!(Rc::strong_count(&items[3]), 2);
        assert_eq!(worker.spare_capacity(&pool), 3);
        assert_eq!(worker.stealer().steal(&mut pool, &other, |n| n), Ok(1));
        assert_eq!(other.pop(&mut pool).map(|i| *i), Some(4));
    });
}

#[test]
fn lifo_pool_drops_items_once() {
    let items: Vec<Rc<u32>> = (1..=4).map(Rc::new).collect();
    lifo::with_pool(|mut pool| {
        let worker = lifo::Worker::new(&mut pool, 4);
        worker.extend(&mut pool, items.iter().cloned());
        let popped = worker.pop(&mut pool);
        assert!(popped.is_some());
        drop(popped);
        drop(pool);
        assert!(items.iter().all(|item| Rc::strong_count(item) == 1));
    });
}

#[test]
fn lifo_pop_undoes_a_push() {
    lifo::with_pool(|mut pool| {
        let worker = lifo::Worker::new(&mut pool, 4);
        worker.extend(&mut pool, vec![1, 2].into_iter());
        worker.push(&mut pool, 3).unwrap();
        assert_eq!(worker.pop(&mut pool), Some(3));
        assert_eq!(worker.spare_capacity(&pool), 2);
        assert_eq!(worker.pop(&mut pool), Some(2));
    });
}

#[test]
fn fifo_extend_leaves_the_excess() {
    fifo::with_pool(|mut pool| {
        let worker = fifo::Worker::<u32>::new(&mut pool, 4);
        let mut it = 0..10u32;
        worker.extend(&mut pool, it.by_ref());
        assert_eq!(worker.spare_capacity(&pool), 0);
        assert_eq!(it.next(), Some(4));

        // Nothing is taken where there is no room.
        worker.extend_from(&mut pool, &mut it);
        assert_eq!(it.next(), Some(5));

        worker
            .drain(&mut pool, |n| n, |pool, drain| {
                for i in 0..4 {
                    assert_eq!(drain.next(pool), Some(i));
                }
                assert_eq!(drain.next(pool), None);
            })
            .unwrap();

        // There is room for all of it.
        let mut it = 0..3u32;
        worker.extend_from(&mut pool, &mut it);
        assert_eq!(it.next(), None);
        assert_eq!(worker.spare_capacity(&pool), 1);
    });
}

#[test]
fn fifo_counts_add_up() {
    fifo::with_pool(|mut pool| {
        let worker = fifo::Worker::new(&mut pool, 256);
        let other = fifo::Worker::new(&mut pool, 256);
        worker.extend(&mut pool, vec!["a", "b", "c", "d"].into_iter());
        let mut pop_count = 0;
        pop_count += worker.pop(&mut pool).iter().count();
        let steal_count = worker.stealer().steal(&mut pool, &other, |n| n / 2).unwrap_or(0);
        while worker.pop(&mut pool).is_some() {
            pop_count += 1;
        }
        assert_eq!(steal_count, 1);
        assert_eq!(pop_count + steal_count, 4);
    });
}

// The results of some calls on a queue of capacity 4 whose positions have moved on.
fn fifo_results_after(rotation: usize) -> Vec<Option<usize>> {
    fifo::with_pool(|mut pool| {
        let worker = fifo::Worker::new(&mut pool, 4);
        let other = fifo::Worker::new(&mut pool, 2);
        let stealer = worker.stealer();
        for _ in 0..rotation {
            worker.push(&mut pool, 0).unwrap();
            stealer.steal_and_pop(&mut pool, &other, |_| 1).unwrap();
        }
        let mut results = Vec::new();
        worker.extend(&mut pool, 1..=5);
        results.push(Some(worker.spare_capacity(&pool)));
        results.push(worker.push(&mut pool, 6).err());
        results.push(worker.pop(&mut pool));
        results.push(stealer.steal(&mut pool, &other, |n| n).ok());
        worker
            .drain(&mut pool, |n| n, |pool, drain| {
                results.push(drain.next(pool));
                results.push(worker.pop(pool));
                results.push(other.pop(pool));
                results.push(Some(worker.spare_capacity(pool)));
            })
            .unwrap();
        results
    })
}

#[test]
fn fifo_results_do_not_depend_on_positions() {
    let expected = fifo_results_after(0);
    for rotation in [1, 3, 4, 5, 255, 256, 257, 65535, 65536, 65537] {
        assert_eq!(fifo_results_after(rotation), expected);
    }
}

#[test]
fn fifo_pools_are_independent() {
    fifo::with_pool(|mut pool| {
        let worker = fifo::Worker::new(&mut pool, 2);
        worker.push(&mut pool, 1).unwrap();
        let inner = fifo::with_pool(|mut inner_pool| {
            let inner_worker = fifo::Worker::new(&mut inner_pool, 2);
            inner_worker.push(&mut inner_pool, 2).unwrap();
            assert_eq!(worker.pop(&mut pool), Some(1));
            inner_worker.pop(&mut inner_pool)
        });
        assert_eq!(inner, Some(2));
        assert!(worker.is_empty(&pool));
    });
}

#[test]
fn lifo_extend_leaves_the_excess() {
    lifo::with_pool(|mut pool| {
        let worker = lifo::Worker::<u32>::new(&mut pool, 4);
        let mut it = 0..10u32;
        worker.extend(&mut pool, it.by_ref());
        assert_eq!(worker.spare_capacity(&pool), 0);
        assert_eq!(it.next(), Some(4));

        // Nothing is taken where there is no room.
        worker.extend_from(&mut pool, &mut it);
        assert_eq!(it.next(), Some(5));

        worker
            .drain(&mut pool, |n| n, |pool, drain| {
                for i in 0..4 {
                    assert_eq!(drain.next(pool), Some(i));
                }
                assert_eq!(drain.next(pool), None);
            })
            .unwrap();

        // There is room for all of it.
        let mut it = 0..3u32;
        worker.extend_from(&mut pool, &mut it);
        assert_eq!(it.next(), None);
        assert_eq!(worker.spare_capacity(&pool), 1);
    });
}

#[test]
fn lifo_counts_add_up() {
    lifo::with_pool(|mut pool| {
        let worker = lifo::Worker::new(&mut pool, 256);
        let other = lifo::Worker::new(&mut pool, 256);
        worker.extend(&mut pool, vec!["a", "b", "c", "d"].into_iter());
        let mut pop_count = 0;
        pop_count += worker.pop(&mut pool).iter().count();
        let steal_count = worker.stealer().steal(&mut pool, &other, |n| n / 2).unwrap_or(0);
        while worker.pop(&mut pool).is_some() {
            pop_count += 1;
        }
        assert_eq!(steal_count, 1);
        assert_eq!(pop_count + steal_count, 4);
    });
}

// The results of some calls on a queue of capacity 4 whose positions have moved on.
fn lifo_results_after(rotation: usize) -> Vec<Option<usize>> {
    lifo::with_pool(|mut pool| {
        let worker = lifo::Worker::new(&mut pool, 4);
        let other = lifo::Worker::new(&mut pool, 2);
        let stealer = worker.stealer();
        for _ in 0..rotation {
            worker.push(&mut pool, 0).unwrap();
            stealer.steal_and_pop(&mut pool, &other, |_| 1).unwrap();
        }
        let mut results = Vec::new();
        worker.extend(&mut pool, 1..=5);
        results.push(Some(worker.spare_capacity(&pool)));
        results.push(worker.push(&mut pool, 6).err());
        results.push(worker.pop(&mut pool));
        results.push(stealer.steal(&mut pool, &other, |n| n).ok());
        worker
            .drain(&mut pool, |n| n, |pool, drain| {
                results.push(drain.next(pool));
                results.push(worker.pop(pool));
                results.push(other.pop(pool));
                results.push(Some(worker.spare_capacity(pool)));
            })
            .unwrap();
        results
    })
}

#[test]
fn lifo_results_do_not_depend_on_positions() {
    let expected = lifo_results_after(0);
    for rotation in [1, 3, 4, 5, 255, 256, 257, 65535, 65536, 65537] {
        assert_eq!(lifo_results_after(rotation), expected);
    }
}

#[test]
fn lifo_pools_are_independent() {
    lifo::with_pool(|mut pool| {
        let worker = lifo::Worker::new(&mut pool, 2);
        worker.push(&mut pool, 1).unwrap();
        let inner = lifo::with_pool(|mut inner_pool| {
            let inner_worker = lifo::Worker::new(&mut inner_pool, 2);
            inner_worker.push(&mut inner_pool, 2).unwrap();
            assert_eq!(worker.pop(&mut pool), Some(1));
            inner_worker.pop(&mut inner_pool)
        });
        assert_eq!(inner, Some(2));
        assert!(worker.is_empty(&pool));
    });
}

#[test]
fn two_queues_interleaved() {
    // A source queue that holds 1 and 2, and an empty destination queue, both of
    // capacity 2.
    let mut src = [Some(1), Some(2)];
    let mut src_heads = pack(0, 0);
    let src_tail = 2;
    let mut dest = [None, None];
    let mut dest_heads = pack(0, 0);
    let mut dest_tail = 0;
    let mut owner_took = Vec::new();
    let mut thief_took = Vec::new();

    // The thief books one item. The owner of the source takes the other one
    // before the thief has moved its item over.
    let booking = fifo::book_step(src_heads, src_tail, |n| n / 2, 2).unwrap();
    src_heads = booking.next_heads;
    let (position, next) = fifo::pop_step(src_heads, src_tail).unwrap();
    src_heads = next;
    owner_took.extend(src[position as usize % 2].take());
    let next_tail = fifo::push_step(dest_heads, dest_tail, 1).unwrap();
    dest[dest_tail as usize % 2] = src[booking.stealer_head as usize % 2].take();
    dest_tail = next_tail;
    src_heads = fifo::complete_step(src_heads);
    let (position, next) = fifo::pop_step(dest_heads, dest_tail).unwrap();
    dest_heads = next;
    thief_took.extend(dest[position as usize % 2].take());

    assert!(fifo::empty_step(src_heads, src_tail));
    assert!(fifo::empty_step(dest_heads, dest_tail));
    assert_eq!(owner_took, [2]);
    assert_eq!(thief_took, [1]);
}

#[test]
fn fifo_drain_ends_with_its_scope() {
    fifo::with_pool(|mut pool| {
        let worker = fifo::Worker::new(&mut pool, 4);
        let other = fifo::Worker::new(&mut pool, 4);
        let items: Vec<Rc<u32>> = (1..=4).map(Rc::new).collect();
        worker.extend(&mut pool, items.iter().cloned());

        // Two of the three items are left when the scope of the drain ends.
        let first = worker.drain(&mut pool, |_| 3, |pool, drain| drain.next(pool));
        assert_eq!(first.unwrap().map(|i| *i), Some(1));
        assert_eq!(Rc::strong_count(&items[1]), 1);
        assert_eq!(Rc::strong_count(&items[2]), 1);
        assert_eq!(Rc::strong_count(&items[3]), 2);
        assert_eq!(worker.spare_capacity(&pool), 3);
        assert_eq!(worker.stealer().steal(&mut pool, &other, |n| n), Ok(1));
    });
}

#[test]
fn fifo_extend_with_endless_iterator() {
    fifo::with_pool(|mut pool| {
        let worker = fifo::Worker::<u32>::new(&mut pool, 4);
        worker.push(&mut pool, 100).unwrap();
        let mut it = 3..;
        worker.extend_from(&mut pool, &mut it);
        assert_eq!(worker.spare_capacity(&pool), 0);
        assert_eq!(it.next(), Some(6));
        worker.extend(&mut pool, 0..);
        worker
            .drain(&mut pool, |n| n, |pool, drain| {
                for i in [100, 3, 4, 5] {
                    assert_eq!(drain.next(pool), Some(i));
                }
                assert_eq!(drain.next(pool), None);
            })
            .unwrap();
    });
}

#[test]
fn fifo_queue_drops_what_is_left() {
    let mut queue = fifo::Queue::new(4);
    for i in 0..6 {
        queue.push(i).unwrap();
        queue.push(i + 10).unwrap();
        queue.pop().unwrap();
        if i < 3 {
            queue.pop().unwrap();
        }
    }
    assert_eq!(queue.drop(), [14, 5, 15]);
}

#[test]
fn fifo_queue_does_not_drop_booked_items() {
    let mut queue = fifo::Queue::new(4);
    queue.extend(1..=4);
    queue.book_items(|_| 2, 4).unwrap();
    assert_eq!(queue.drop(), [3, 4]);
}

#[test]
fn lifo_drain_ends_with_its_scope() {
    lifo::with_pool(|mut pool| {
        let worker = lifo::Worker::new(&mut pool, 4);
        let other = lifo::Worker::new(&mut pool, 4);
        let items: Vec<Rc<u32>> = (1..=4).map(Rc::new).collect();
        worker.extend(&mut pool, items.iter().cloned());

        // Two of the three items are left when the scope of the drain ends.
        let first = worker.drain(&mut pool, |_| 3, |pool, drain| drain.next(pool));
        assert_eq!(first.unwrap().map(|i| *i), Some(1));
        assert_eq!(Rc::strong_count(&items[1]), 1);
        assert_eq!(Rc::strong_count(&items[2]), 1);
        assert_eq!(Rc::strong_count(&items[3]), 2);
        assert_eq!(worker.spare_capacity(&pool), 3);
        assert_eq!(worker.stealer().steal(&mut pool, &other, |n| n), Ok(1));
    });
}

#[test]
fn lifo_extend_with_endless_iterator() {
    lifo::with_pool(|mut pool| {
        let worker = lifo::Worker::<u32>::new(&mut pool, 4);
        worker.push(&mut pool, 100).unwrap();
        let mut it = 3..;
        worker.extend_from(&mut pool, &mut it);
        assert_eq!(worker.spare_capacity(&pool), 0);
        assert_eq!(it.next(), Some(6));
        worker.extend(&mut pool, 0..);
        worker
            .drain(&mut pool, |n| n, |pool, drain| {
                for i in [100, 3, 4, 5] {
                    assert_eq!(drain.next(pool), Some(i));
                }
                assert_eq!(drain.next(pool), None);
            })
            .unwrap();
    });
}

#[test]
fn lifo_queue_drops_what_is_left() {
    let mut queue = lifo::Queue::new(4);
    for i in 0..6 {
        queue.push(i).unwrap();
        queue.push(i + 10).unwrap();
        queue.pop().unwrap();
        if i < 3 {
            queue.pop().unwrap();
        }
    }
    assert_eq!(queue.drop(), [3, 4, 5]);
}

#[test]
fn lifo_queue_does_not_drop_booked_items() {
    let mut queue = lifo::Queue::new(4);
    queue.extend(1..=4);
    queue.book_items(|_| 2, 4).unwrap();
    assert_eq!(queue.drop(), [3, 4]);
}
