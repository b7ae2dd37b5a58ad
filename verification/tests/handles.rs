//! Handles, capacities and buffers.
use st3::buffers::{Buffer, B128, B16384, B2, B256, B32768};
use st3::{fifo, lifo, StealError};

#[test]
fn fifo_stealer_equality() {
    fifo::with_pool::<u32, _, _>(|mut pool| {
        let worker_a = fifo::Worker::new(&mut pool, 32);
        let worker_b = fifo::Worker::new(&mut pool, 32);

        assert_eq!(worker_a.stealer(), worker_a.stealer());
        assert_ne!(worker_b.stealer(), worker_a.stealer());
        assert_eq!(worker_b.stealer(), worker_b.stealer());
        assert_ne!(worker_a.stealer(), worker_b.stealer());
    });
}

#[test]
fn lifo_stealer_equality() {
    lifo::with_pool::<u32, _, _>(|mut pool| {
        let worker_a = lifo::Worker::new(&mut pool, 32);
        let worker_b = lifo::Worker::new(&mut pool, 32);

        assert_eq!(worker_a.stealer(), worker_a.stealer());
        assert_ne!(worker_b.stealer(), worker_a.stealer());
        assert_eq!(worker_b.stealer(), worker_b.stealer());
        assert_ne!(worker_a.stealer(), worker_b.stealer());
    });
}

#[test]
fn fifo_ref_stealer_equality() {
    fifo::with_pool::<u32, _, _>(|mut pool| {
        let worker_a = fifo::Worker::new(&mut pool, 32);
        let worker_b = fifo::Worker::new(&mut pool, 32);

        assert_eq!(worker_a.stealer_ref(), &worker_a.stealer());
        assert_ne!(worker_b.stealer_ref(), &worker_a.stealer());
        assert_eq!(worker_b.stealer_ref(), &worker_b.stealer());
        assert_ne!(worker_a.stealer_ref(), &worker_b.stealer());
    });
}

#[test]
fn lifo_ref_stealer_equality() {
    lifo::with_pool::<u32, _, _>(|mut pool| {
        let worker_a = lifo::Worker::new(&mut pool, 32);
        let worker_b = lifo::Worker::new(&mut pool, 32);

        assert_eq!(worker_a.stealer_ref(), &worker_a.stealer());
        assert_ne!(worker_b.stealer_ref(), &worker_a.stealer());
        assert_eq!(worker_b.stealer_ref(), &worker_b.stealer());
        assert_ne!(worker_a.stealer_ref(), &worker_b.stealer());
    });
}

#[test]
fn fifo_worker_is_same_as_its_stealers() {
    fifo::with_pool::<u32, _, _>(|mut pool| {
        let worker_a = fifo::Worker::new(&mut pool, 32);
        let worker_b = fifo::Worker::new(&mut pool, 32);

        assert!(worker_a.is_same_as(&worker_a.stealer()));
        assert!(worker_a.is_same_as(&worker_a.stealer().clone()));
        assert!(!worker_a.is_same_as(&worker_b.stealer()));
    });
}

#[test]
fn fifo_queue_capacity() {
    for (min_capacity, expected_capacity) in [(0, 1), (1, 1), (3, 4), (8, 8), (100, 128)] {
        fifo::with_pool(|mut pool| {
            let worker = fifo::Worker::new(&mut pool, min_capacity);

            assert_eq!(worker.capacity(&pool), expected_capacity);
            assert_eq!(worker.spare_capacity(&pool), expected_capacity);
            for _ in 0..expected_capacity {
                assert!(worker.push(&mut pool, 42).is_ok())
            }
            assert!(worker.push(&mut pool, 42).is_err());
            assert_eq!(worker.spare_capacity(&pool), 0);
        });
    }
}

#[test]
fn lifo_queue_capacity() {
    for (min_capacity, expected_capacity) in [(0, 1), (1, 1), (3, 4), (8, 8), (100, 128)] {
        lifo::with_pool(|mut pool| {
            let worker = lifo::Worker::new(&mut pool, min_capacity);

            assert_eq!(worker.capacity(&pool), expected_capacity);
            assert_eq!(worker.spare_capacity(&pool), expected_capacity);
            for _ in 0..expected_capacity {
                assert!(worker.push(&mut pool, 42).is_ok())
            }
            assert!(worker.push(&mut pool, 42).is_err());
            assert_eq!(worker.spare_capacity(&pool), 0);
        });
    }
}

#[test]
fn buffer_sizes() {
    assert_eq!(<B2 as Buffer<u8>>::CAPACITY, 2);
    assert_eq!(<B2 as Buffer<u8>>::MASK, 1);
    assert_eq!(<B128 as Buffer<u8>>::CAPACITY, 128);
    assert_eq!(<B128 as Buffer<u8>>::MASK, 127);
    assert_eq!(<B16384 as Buffer<u8>>::CAPACITY, 16384);
    assert_eq!(<B16384 as Buffer<u8>>::MASK, 16383);
    assert_eq!(<B32768 as Buffer<u8>>::CAPACITY, 32768);
    assert_eq!(<B16384 as Buffer<u8>>::allocate().len(), 16384);
}

#[test]
fn lifo_worker_with_buffer() {
    lifo::with_pool(|mut pool| {
        let worker = lifo::Worker::with_buffer::<B256>(&mut pool);
        let other = lifo::Worker::with_buffer::<B2>(&mut pool);

        assert_eq!(worker.capacity(&pool), 256);
        assert_eq!(other.capacity(&pool), 2);

        worker.push(&mut pool, "a").unwrap();
        worker.push(&mut pool, "b").unwrap();
        worker.push(&mut pool, "c").unwrap();
        worker.push(&mut pool, "d").unwrap();

        let steal_count = worker.stealer().steal(&mut pool, &other, |n| n / 2).unwrap();
        let mut pop_count = 0;
        while worker.pop(&mut pool).is_some() {
            pop_count += 1;
        }
        assert_eq!(steal_count, 2);
        assert_eq!(pop_count + steal_count, 4);
        assert_eq!(other.spare_capacity(&pool), 0);
    });
}

#[test]
fn empty_queue() {
    fifo::with_pool::<u32, _, _>(|mut pool| {
        let worker = fifo::Worker::new(&mut pool, 4);
        let other = fifo::Worker::new(&mut pool, 4);
        assert!(worker.is_empty(&pool));
        assert_eq!(worker.pop(&mut pool), None);
        assert_eq!(
            worker.stealer().steal(&mut pool, &other, |_| 1),
            Err(StealError::Empty)
        );
        assert_eq!(
            worker.stealer().steal_and_pop(&mut pool, &other, |_| 1),
            Err(StealError::Empty)
        );
        assert_eq!(
            worker.drain(&mut pool, |n| n, |_, _| ()),
            Err(StealError::Empty)
        );
        worker.push(&mut pool, 1).unwrap();
        assert!(!worker.is_empty(&pool));
    });

    lifo::with_pool::<u32, _, _>(|mut pool| {
        let worker = lifo::Worker::new(&mut pool, 4);
        let other = lifo::Worker::new(&mut pool, 4);
        assert!(worker.is_empty(&pool));
        assert_eq!(worker.pop(&mut pool), None);
        assert_eq!(
            worker.stealer().steal(&mut pool, &other, |_| 1),
            Err(StealError::Empty)
        );
        assert_eq!(
            worker.stealer().steal_and_pop(&mut pool, &other, |_| 1),
            Err(StealError::Empty)
        );
        assert_eq!(
            worker.drain(&mut pool, |n| n, |_, _| ()),
            Err(StealError::Empty)
        );
        worker.push(&mut pool, 1).unwrap();
        assert!(!worker.is_empty(&pool));
    });
}

#[test]
fn stealing_no_item_is_an_error() {
    fifo::with_pool(|mut pool| {
        let worker = fifo::Worker::new(&mut pool, 4);
        let other = fifo::Worker::new(&mut pool, 4);
        worker.push(&mut pool, 1).unwrap();
        assert_eq!(
            worker.stealer().steal(&mut pool, &other, |_| 0),
            Err(StealError::Empty)
        );
        assert_eq!(worker.pop(&mut pool), Some(1));
    });

    lifo::with_pool(|mut pool| {
        let worker = lifo::Worker::new(&mut pool, 4);
        let other = lifo::Worker::new(&mut pool, 4);
        worker.push(&mut pool, 1).unwrap();
        assert_eq!(
            worker.stealer().steal(&mut pool, &other, |_| 0),
            Err(StealError::Empty)
        );
        assert_eq!(worker.pop(&mut pool), Some(1));
    });
}

#[test]
fn push_returns_the_item_if_full() {
    fifo::with_pool(|mut pool| {
        let worker = fifo::Worker::new(&mut pool, 2);
        assert_eq!(worker.push(&mut pool, 1), Ok(()));
        assert_eq!(worker.push(&mut pool, 2), Ok(()));
        assert_eq!(worker.push(&mut pool, 3), Err(3));
        assert_eq!(worker.pop(&mut pool), Some(1));
        assert_eq!(worker.push(&mut pool, 3), Ok(()));
    });

    lifo::with_pool(|mut pool| {
        let worker = lifo::Worker::new(&mut pool, 2);
        assert_eq!(worker.push(&mut pool, 1), Ok(()));
        assert_eq!(worker.push(&mut pool, 2), Ok(()));
        assert_eq!(worker.push(&mut pool, 3), Err(3));
        assert_eq!(worker.pop(&mut pool), Some(2));
        assert_eq!(worker.push(&mut pool, 3), Ok(()));
    });
}
