//! Single-threaded scenarios, on ring buffers rotated by various amounts.
use st3::{fifo, lifo, StealError};

#[derive(Debug, Default, PartialEq)]
struct TestValue<T>(T);

impl<T> TestValue<T> {
    fn new(val: T) -> Self {
        Self(val)
    }
}

impl<T> std::ops::Deref for TestValue<T> {
    type Target = T;

    fn deref(&self) -> &T {
        &self.0
    }
}

const ROTATIONS: &[usize] = &[0, 255, 256, 257, 65535, 65536, 65537];

// Rotates the internal ring buffer indices by `n` (FIFO queue).
fn fifo_rotate<'id, T: Default + std::fmt::Debug>(
    pool: &mut fifo::Pool<'id, T>,
    worker: &fifo::Worker<'id, T>,
    n: usize,
) {
    let stealer = worker.stealer();
    let dummy_worker = fifo::Worker::<T>::new(pool, 2);

    for _ in 0..n {
        worker.push(pool, T::default()).unwrap();
        stealer.steal_and_pop(pool, &dummy_worker, |_| 1).unwrap();
    }
}

// Rotates the internal ring buffer indices by `n` (LIFO queue).
fn lifo_rotate<'id, T: Default + std::fmt::Debug>(
    pool: &mut lifo::Pool<'id, T>,
    worker: &lifo::Worker<'id, T>,
    n: usize,
) {
    let stealer = worker.stealer();
    let dummy_worker = lifo::Worker::<T>::new(pool, 2);

    for _ in 0..n {
        worker.push(pool, T::default()).unwrap();
        stealer.steal_and_pop(pool, &dummy_worker, |_| 1).unwrap();
    }
}

#[test]
fn fifo_single_threaded_steal() {
    for &rotation in ROTATIONS {
        fifo::with_pool(|mut pool| {
            let worker1 = fifo::Worker::new(&mut pool, 128);
            let worker2 = fifo::Worker::new(&mut pool, 128);
            let stealer1 = worker1.stealer();
            fifo_rotate(&mut pool, &worker1, rotation);
            fifo_rotate(&mut pool, &worker2, rotation);

            worker1.push(&mut pool, TestValue::new(1)).unwrap();
            worker1.push(&mut pool, TestValue::new(2)).unwrap();
            worker1.push(&mut pool, TestValue::new(3)).unwrap();
            worker1.push(&mut pool, TestValue::new(4)).unwrap();

            assert_eq!(worker1.pop(&mut pool).map(|e| *e), Some(1));
            assert_eq!(
                stealer1
                    .steal_and_pop(&mut pool, &worker2, |_| 2)
                    .map(|(e, s)| (*e, s)),
                Ok((3, 1))
            );
            assert_eq!(worker1.pop(&mut pool).map(|e| *e), Some(4));
            assert_eq!(worker1.pop(&mut pool), None);
            assert_eq!(worker2.pop(&mut pool).map(|e| *e), Some(2));
            assert_eq!(worker2.pop(&mut pool), None);
        });
    }
}

#[test]
fn lifo_single_threaded_steal() {
    for &rotation in ROTATIONS {
        lifo::with_pool(|mut pool| {
            let worker1 = lifo::Worker::new(&mut pool, 128);
            let worker2 = lifo::Worker::new(&mut pool, 128);
            let stealer1 = worker1.stealer();
            lifo_rotate(&mut pool, &worker1, rotation);
            lifo_rotate(&mut pool, &worker2, rotation);

            worker1.push(&mut pool, TestValue::new(1)).unwrap();
            worker1.push(&mut pool, TestValue::new(2)).unwrap();
            worker1.push(&mut pool, TestValue::new(3)).unwrap();
            worker1.push(&mut pool, TestValue::new(4)).unwrap();

            assert_eq!(worker1.pop(&mut pool).map(|e| *e), Some(4));
            assert_eq!(
                stealer1
                    .steal_and_pop(&mut pool, &worker2, |_| 2)
                    .map(|(e, s)| (*e, s)),
                Ok((2, 1))
            );
            assert_eq!(worker1.pop(&mut pool).map(|e| *e), Some(3));
            assert_eq!(worker1.pop(&mut pool), None);
            assert_eq!(worker2.pop(&mut pool).map(|e| *e), Some(1));
            assert_eq!(worker2.pop(&mut pool), None);
        });
    }
}

#[test]
fn fifo_self_steal() {
    for &rotation in ROTATIONS {
        fifo::with_pool(|mut pool| {
            let worker = fifo::Worker::new(&mut pool, 128);
            fifo_rotate(&mut pool, &worker, rotation);
            let stealer = worker.stealer();

            worker.push(&mut pool, TestValue::new(1)).unwrap();
            worker.push(&mut pool, TestValue::new(2)).unwrap();
            worker.push(&mut pool, TestValue::new(3)).unwrap();
            worker.push(&mut pool, TestValue::new(4)).unwrap();

            assert_eq!(worker.pop(&mut pool).map(|e| *e), Some(1));
            assert_eq!(
                stealer.steal_and_pop(&mut pool, &worker, |_| 2).map(|(e, s)| (*e, s)),
                Ok((3, 1))
            );
            assert_eq!(worker.pop(&mut pool).map(|e| *e), Some(4));
            assert_eq!(worker.pop(&mut pool).map(|e| *e), Some(2));
            assert_eq!(worker.pop(&mut pool), None);
        });
    }
}

#[test]
fn lifo_self_steal() {
    for &rotation in ROTATIONS {
        lifo::with_pool(|mut pool| {
            let worker = lifo::Worker::new(&mut pool, 128);
            lifo_rotate(&mut pool, &worker, rotation);
            let stealer = worker.stealer();

            worker.push(&mut pool, TestValue::new(1)).unwrap();
            worker.push(&mut pool, TestValue::new(2)).unwrap();
            worker.push(&mut pool, TestValue::new(3)).unwrap();
            worker.push(&mut pool, TestValue::new(4)).unwrap();

            assert_eq!(worker.pop(&mut pool).map(|e| *e), Some(4));
            assert_eq!(
                stealer.steal_and_pop(&mut pool, &worker, |_| 2).map(|(e, s)| (*e, s)),
                Ok((2, 1))
            );
            assert_eq!(worker.pop(&mut pool).map(|e| *e), Some(1));
            assert_eq!(worker.pop(&mut pool).map(|e| *e), Some(3));
            assert_eq!(worker.pop(&mut pool).map(|e| *e), None);
        });
    }
}

#[test]
fn fifo_drain_steal() {
    for &rotation in ROTATIONS {
        fifo::with_pool(|mut pool| {
            let worker = fifo::Worker::new(&mut pool, 128);
            let dummy_worker = fifo::Worker::new(&mut pool, 128);
            let stealer = worker.stealer();
            fifo_rotate(&mut pool, &worker, rotation);

            worker.push(&mut pool, TestValue::new(1)).unwrap();
            worker.push(&mut pool, TestValue::new(2)).unwrap();
            worker.push(&mut pool, TestValue::new(3)).unwrap();
            worker.push(&mut pool, TestValue::new(4)).unwrap();

            assert_eq!(worker.pop(&mut pool).map(|e| *e), Some(1));
            worker
                .drain(&mut pool, |n| n - 1, |pool, iter| {
                    assert_eq!(
                        stealer.steal_and_pop(pool, &dummy_worker, |_| 1),
                        Err(StealError::Busy)
                    );
                    assert_eq!(iter.next(pool).map(|e| *e), Some(2));
                    assert_eq!(
                        stealer.steal_and_pop(pool, &dummy_worker, |_| 1),
                        Err(StealError::Busy)
                    );
                    assert_eq!(iter.next(pool).map(|e| *e), Some(3));
                    assert_eq!(
                        stealer
                            .steal_and_pop(pool, &dummy_worker, |_| 1)
                            .map(|(e, s)| (*e, s)),
                        Ok((4, 0))
                    );
                    assert_eq!(iter.next(pool), None);
                })
                .unwrap();
        });
    }
}

#[test]
fn lifo_drain_steal() {
    for &rotation in ROTATIONS {
        lifo::with_pool(|mut pool| {
            let worker = lifo::Worker::new(&mut pool, 128);
            let dummy_worker = lifo::Worker::new(&mut pool, 128);
            let stealer = worker.stealer();
            lifo_rotate(&mut pool, &worker, rotation);

            worker.push(&mut pool, TestValue::new(1)).unwrap();
            worker.push(&mut pool, TestValue::new(2)).unwrap();
            worker.push(&mut pool, TestValue::new(3)).unwrap();
            worker.push(&mut pool, TestValue::new(4)).unwrap();

            assert_eq!(worker.pop(&mut pool).map(|e| *e), Some(4));
            worker
                .drain(&mut pool, |n| n - 1, |pool, iter| {
                    assert_eq!(
                        stealer.steal_and_pop(pool, &dummy_worker, |_| 1),
                        Err(StealError::Busy)
                    );
                    assert_eq!(iter.next(pool).map(|e| *e), Some(1));
                    assert_eq!(
                        stealer.steal_and_pop(pool, &dummy_worker, |_| 1),
                        Err(StealError::Busy)
                    );
                    assert_eq!(iter.next(pool).map(|e| *e), Some(2));
                    assert_eq!(
                        stealer
                            .steal_and_pop(pool, &dummy_worker, |_| 1)
                            .map(|(e, s)| (*e, s)),
                        Ok((3, 0))
                    );
                    assert_eq!(iter.next(pool), None);
                })
                .unwrap();
        });
    }
}

#[test]
fn fifo_extend_basic() {
    for &rotation in ROTATIONS {
        fifo::with_pool(|mut pool| {
            let worker = fifo::Worker::new(&mut pool, 128);
            fifo_rotate(&mut pool, &worker, rotation);

            let initial_capacity = worker.spare_capacity(&pool);
            worker.push(&mut pool, TestValue::new(1)).unwrap();
            worker.push(&mut pool, TestValue::new(2)).unwrap();
            worker.extend(&mut pool, [TestValue::new(3), TestValue::new(4)].into_iter());

            assert_eq!(worker.spare_capacity(&pool), initial_capacity - 4);
            assert_eq!(worker.pop(&mut pool).map(|e| *e), Some(1));
            assert_eq!(worker.pop(&mut pool).map(|e| *e), Some(2));
            assert_eq!(worker.pop(&mut pool).map(|e| *e), Some(3));
            assert_eq!(worker.pop(&mut pool).map(|e| *e), Some(4));
            assert_eq!(worker.pop(&mut pool), None);
        });
    }
}

#[test]
fn lifo_extend_basic() {
    for &rotation in ROTATIONS {
        lifo::with_pool(|mut pool| {
            let worker = lifo::Worker::new(&mut pool, 128);
            lifo_rotate(&mut pool, &worker, rotation);

            let initial_capacity = worker.spare_capacity(&pool);
            worker.push(&mut pool, TestValue::new(1)).unwrap();
            worker.push(&mut pool, TestValue::new(2)).unwrap();
            worker.extend(&mut pool, [TestValue::new(3), TestValue::new(4)].into_iter());

            assert_eq!(worker.spare_capacity(&pool), initial_capacity - 4);
            assert_eq!(worker.pop(&mut pool).map(|e| *e), Some(4));
            assert_eq!(worker.pop(&mut pool).map(|e| *e), Some(3));
            assert_eq!(worker.pop(&mut pool).map(|e| *e), Some(2));
            assert_eq!(worker.pop(&mut pool).map(|e| *e), Some(1));
            assert_eq!(worker.pop(&mut pool), None);
        });
    }
}

#[test]
fn fifo_extend_overflow() {
    for &rotation in ROTATIONS {
        fifo::with_pool(|mut pool| {
            let worker = fifo::Worker::new(&mut pool, 128);
            fifo_rotate(&mut pool, &worker, rotation);

            let initial_capacity = worker.spare_capacity(&pool);
            worker.push(&mut pool, 1).unwrap();
            worker.push(&mut pool, 2).unwrap();
            worker.extend(&mut pool, 3..); // try to append infinitely many integers

            assert_eq!(worker.spare_capacity(&pool), 0);
            for i in 1..=initial_capacity {
                assert_eq!(worker.pop(&mut pool), Some(i));
            }
            assert_eq!(worker.pop(&mut pool), None);
        });
    }
}

#[test]
fn lifo_extend_overflow() {
    for &rotation in ROTATIONS {
        lifo::with_pool(|mut pool| {
            let worker = lifo::Worker::new(&mut pool, 128);
            lifo_rotate(&mut pool, &worker, rotation);

            let initial_capacity = worker.spare_capacity(&pool);
            worker.push(&mut pool, 1).unwrap();
            worker.push(&mut pool, 2).unwrap();
            worker.extend(&mut pool, 3..); // try to append infinitely many integers

            assert_eq!(worker.spare_capacity(&pool), 0);
            for i in (1..=initial_capacity).rev() {
                assert_eq!(worker.pop(&mut pool), Some(i));
            }
            assert_eq!(worker.pop(&mut pool), None);
        });
    }
}

