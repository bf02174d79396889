//! Joining many futures into one, and two sides that wait for each other.
//!
//! A [`join::Join`] polls only those of its futures that have been woken. It keeps them in a linked
//! list to which wakers append while a poll takes entries off. A [`handshake::Side`] waits until
//! the side opposite to it is ready, too.
//!
//! The shared memory is an ordinary value, and everything that reads or writes one word of it is an
//! operation of its own. What a poll or a waker undertakes is a series of such operations, which
//! takes one step at a time; each step is indivisible. So what is proved of these steps holds in
//! whatever order the steps of several threads come. A caller decides how to share the memory so
//! that a step is indivisible, for example by a lock that is held for one step at a time, and who
//! polls the futures.
pub mod dropped;
pub mod task;
pub mod fused_future;

pub mod erased;
pub mod layout;
pub mod refcount;
pub mod schedule;
pub mod poll;
pub mod waker;
pub mod join;
pub mod join_laws;
pub mod schedule_laws;
pub mod join_course;
pub mod interleaving;

pub mod handshake;
pub mod handshake_laws;

pub mod raw;
pub mod raw_laws;
