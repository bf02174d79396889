# alt-join

Polling many futures as one, and a handshake between two futures, verified with Verus.

A `Join` owns a list of futures and polls only those that have been woken. Its wakers append to a
linked list of scheduled futures, also while a poll takes entries off that list: both proceed in
steps, each of which is one indivisible operation, and steps may come in any order. The first
wake-up after a poll wakes the task that polled the join; later ones only append. A
`handshake` gives two sides, each of which finishes when the other one is ready.

## Layout

- `src/` is the verified library.
  - `join`, `poll`, `schedule`, `waker`, `refcount`: the join, step by step. A step is one operation
    on one word of the shared memory, which `erased` describes; `layout` computes its size.
  - `join_laws`, `join_course`: what the operations do to the list and to the number of pending
    futures.
  - `interleaving`: what holds in whatever order the steps of a poll and of any number of wakers
    come.
  - `handshake`, `handshake_laws`: two sides, and what holds in whatever order their steps come.
  - `raw`, `raw_laws`: a smaller list, without a root entry.
  - `fused_future`, `task`, `dropped`: a future that keeps its output, the parts of `core::task` in
    use, and dropping.
- `app/` implements `Future`, `Drop` and the vtable of the wakers on top of the library. It makes
  each step indivisible by a lock that it holds for that step only.
- `tests/` runs the library with real futures and wakers.

## What is taken for granted

Operations on the shared memory are taken to happen one after the other, as under sequential
consistency. `Waker`, `AtomicWaker`, `core::mem::drop` and `usize::next_multiple_of` come with the
contracts that stand in `src/task.rs`, `src/raw.rs`, `src/dropped.rs` and `src/layout.rs`.
