# st3

Bounded work-stealing queues with FIFO stealing and LIFO or FIFO semantic for the
worker, verified with Verus.

A queue has one worker, which pushes items at the tail and pops them from the tail
(LIFO) or from the head (FIFO), and any number of stealers, which move batches of
the oldest items to other queues. Queues have a fixed capacity, a power of two, and
track positions in a ring buffer with 32-bit counters that wrap around.

## Layout

`src/` is the verified library.

- `fifo`, `lifo`: the decisions on the words of a queue (`push_step`, `pop_step`,
  `book_step`, ...), the queue itself, and the handles `Worker`, `Stealer` and
  `Drain`. Queues live in a `Pool` that is handed to each operation. A pool is made
  by `with_pool`; a lifetime of its own ties the handles of its queues to it. A drain
  is scoped too: `Worker::drain` ends the stealing operation when its closure returns.
- `model`: the view of a queue in which the contracts are written.
- `ring`, `transfer`, `position`, `cell`: ring buffers, bulk transfer of items,
  arithmetic of positions and the cells of a buffer.
- `buffers`: buffer sizes known at compile time.
- `padded`: counters on cache lines of their own, with `cache_padded`. The contracts
  in this file are trusted.
- `laws`: what holds of sets of queues: no item is lost or duplicated, items come
  out in order, stealing takes the oldest items, a drain is not disturbed, results
  do not depend on how far positions have moved on.
- `fifo_protocol`, `lifo_protocol`: the same decisions taken by a worker and any
  number of stealers whose atomic accesses interleave in any order. Every state
  that can be reached satisfies an invariant, from which it follows that no slot
  is overwritten, read twice or read while empty, and that a thread has to repeat a
  compare-exchange only where another one got ahead.
- `threads`: threads that share several such queues. Each item is obtained by exactly
  one thread.

`app/` holds the queues that threads share. Atomics and slots are accessed there;
each decision is a call of the library.

`tests/` runs the library.

## Assumptions

The interleavings are sequentially consistent. As usual for counters of fixed
width, a stealer must not be preempted between its loads and its compare-exchange
for so long that a counter goes round all 2^32 values.
