use std::mem;
use std::sync::atomic::{AtomicUsize, Ordering};
use std::sync::Arc;
use std::task::{Wake, Waker};

use alt_join::raw::{
    scheduled_no_next, Batch, Enlist, EnlistStage, Entry, Header, Link, RawSharedHandle, RawWaking,
};

#[test]
fn layouts() {
    assert_eq!(mem::size_of::<()>(), 0);
    assert_ne!(mem::size_of::<Header<()>>(), 0);
}

#[test]
fn needs_drop() {
    assert!(mem::needs_drop::<String>());
    assert!(!mem::needs_drop::<Entry<String>>());
}

/// A waker that counts how often it is woken.
struct Counter(AtomicUsize);

impl Wake for Counter {
    fn wake(self: Arc<Self>) {
        self.0.fetch_add(1, Ordering::SeqCst);
    }
}

/// The entries of a batch, in order.
fn walk<T>(handle: &RawSharedHandle<T>, mut batch: Batch) -> Vec<usize> {
    let mut seen = Vec::new();
    while let Some(i) = batch.current() {
        seen.push(i);
        batch.advance(handle);
    }
    seen
}

#[test]
fn scheduled_entries_are_polled_in_order() {
    let mut handle: RawSharedHandle<u8> = RawSharedHandle::allocate(4);
    let batch = handle.poll_scheduled();
    assert!(walk(&handle, batch).is_empty());
    handle.schedule_to_poll(3);
    handle.schedule_to_poll(0);
    handle.schedule_to_poll(3);
    handle.schedule_to_poll(1);
    assert_eq!(handle.header().first_to_poll, Link::At(3));
    assert_eq!(handle.header().last_to_poll, Link::At(1));
    assert_eq!(handle.entries()[1].is_scheduled_and_next, scheduled_no_next());
    let batch = handle.poll_scheduled();
    handle.schedule_to_poll(2);
    assert_eq!(walk(&handle, batch), [3, 0, 1]);
    let batch = handle.poll_scheduled();
    assert_eq!(walk(&handle, batch), [2]);
}

#[test]
fn an_entry_that_was_polled_is_not_scheduled_again() {
    let mut handle: RawSharedHandle<u8> = RawSharedHandle::allocate(2);
    handle.schedule_to_poll(1);
    let batch = handle.poll_scheduled();
    assert_eq!(walk(&handle, batch), [1]);
    handle.schedule_to_poll(1);
    let batch = handle.poll_scheduled();
    assert!(walk(&handle, batch).is_empty());
}

#[test]
fn a_forced_poll_visits_all_entries() {
    let handle: RawSharedHandle<u8> = RawSharedHandle::allocate(3);
    assert_eq!(handle.force_poll(), [0, 1, 2]);
    let empty: RawSharedHandle<u8> = RawSharedHandle::allocate(0);
    assert!(empty.force_poll().is_empty());
}

#[test]
fn a_wake_up_wakes_the_registered_waker() {
    let counter = Arc::new(Counter(AtomicUsize::new(0)));
    let waker = Waker::from(Arc::clone(&counter));
    let mut handle: RawSharedHandle<u8> = RawSharedHandle::allocate(1);
    handle.wake_by_ref(0);
    assert_eq!(counter.0.load(Ordering::SeqCst), 0);
    handle.shared.extern_waker.register(&waker);
    handle.wake_by_ref(0);
    assert_eq!(counter.0.load(Ordering::SeqCst), 1);
    handle.wake_by_ref(0);
    assert_eq!(counter.0.load(Ordering::SeqCst), 1);
}

#[test]
fn users_of_the_smaller_list_are_counted() {
    let mut handle: RawSharedHandle<u8> = RawSharedHandle::allocate(2);
    assert_eq!(handle.weak_waker(1).entry, 1);
    assert_eq!(handle.header().allocation_rc, 1);
    assert_eq!(handle.strong_waker(1).entry, 1);
    handle.inc_rc();
    assert_eq!(handle.header().allocation_rc, 3);
    assert!(!handle.wake(1));
    assert!(!handle.dec_rc());
    assert!(handle.dec_rc());
}

#[test]
fn futures_are_dropped_when_told() {
    let token = Arc::new(());
    let mut handle: RawSharedHandle<Arc<()>> = RawSharedHandle::allocate(2);
    handle.list[0].write_future(Arc::clone(&token));
    handle.list[1].write_future(Arc::clone(&token));
    assert_eq!(Arc::strong_count(&token), 3);
    handle.list[1].drop_future();
    assert_eq!(Arc::strong_count(&token), 2);
    handle.list[1].write_future(Arc::clone(&token));
    handle.drop_futures();
    assert_eq!(Arc::strong_count(&token), 1);
    handle.list[0].write_future(Arc::clone(&token));
    drop(handle);
    assert_eq!(Arc::strong_count(&token), 2);
}

#[test]
fn undertakings_that_overlap_append_both_entries() {
    let mut handle: RawSharedHandle<u8> = RawSharedHandle::allocate(2);
    let mut a = Enlist { entry: 0, stage: EnlistStage::Claim };
    let mut b = Enlist { entry: 1, stage: EnlistStage::Claim };
    for _ in 0..3 {
        handle.step(&mut a);
    }
    assert_eq!(a.stage, EnlistStage::Publish { prev: Link::Null });
    for _ in 0..3 {
        handle.step(&mut b);
    }
    assert_eq!(b.stage, EnlistStage::FindLast);
    handle.step(&mut a);
    assert_eq!(a.stage, EnlistStage::Done { appended: true });
    while b.stage != (EnlistStage::Done { appended: true }) {
        handle.step(&mut b);
    }
    let batch = handle.poll_scheduled();
    assert_eq!(walk(&handle, batch), [0, 1]);
}

#[test]
fn the_registered_waker_is_woken_after_the_entry_is_linked() {
    let counter = Arc::new(Counter(AtomicUsize::new(0)));
    let waker = Waker::from(Arc::clone(&counter));
    let mut handle: RawSharedHandle<u8> = RawSharedHandle::allocate(2);
    handle.shared.extern_waker.register(&waker);
    let mut waking = RawWaking::new(1);
    while matches!(waking, RawWaking::Append { .. }) {
        assert_eq!(counter.0.load(Ordering::SeqCst), 0);
        handle.step_waking(&mut waking);
    }
    assert_eq!(waking, RawWaking::Signal { entry: 1, appended: true });
    assert_eq!(handle.header().first_to_poll, Link::At(1));
    assert_eq!(handle.header().last_to_poll, Link::At(1));
    assert_eq!(counter.0.load(Ordering::SeqCst), 0);
    handle.step_waking(&mut waking);
    assert_eq!(waking, RawWaking::Done);
    assert_eq!(counter.0.load(Ordering::SeqCst), 1);
    handle.step_waking(&mut waking);
    assert_eq!(counter.0.load(Ordering::SeqCst), 1);
}

#[test]
fn one_that_finds_its_entry_scheduled_leaves_the_linking_to_the_other() {
    let mut handle: RawSharedHandle<u8> = RawSharedHandle::allocate(1);
    let mut a = RawWaking::new(0);
    let mut b = RawWaking::new(0);
    handle.step_waking(&mut a);
    handle.step_waking(&mut b);
    assert_eq!(b, RawWaking::Signal { entry: 0, appended: false });
    assert_eq!(handle.header().first_to_poll, Link::Null);
    while matches!(a, RawWaking::Append { .. }) {
        handle.step_waking(&mut a);
    }
    assert_eq!(a, RawWaking::Signal { entry: 0, appended: true });
    assert_eq!(handle.header().first_to_poll, Link::At(0));
}
