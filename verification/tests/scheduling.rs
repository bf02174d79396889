use std::task::Poll;

use alt_join::erased::{entry_subheader, header, EntryPtr};
use alt_join::join::Join;
use alt_join::poll::Polling;
use alt_join::refcount::{dec_rc, inc_rc};
use alt_join::schedule::{schedule_entry, Schedule, Stage};
use alt_join::waker::{take_extern_waker, weak_waker};
use noop_waker::noop_waker;

type Unit = std::future::Pending<()>;

/// A join whose entries have all been taken by a poll.
fn drained(n: usize) -> Join<Unit> {
    let mut join = Join::from_vec((0..n).map(|_| std::future::pending()).collect());
    let mut polling = join.start_poll(&noop_waker());
    while let Some((index, future)) = join.next_entry(&mut polling) {
        join.finish_entry(index, future, Poll::Pending);
    }
    join
}

fn next(join: &Join<Unit>, p: EntryPtr) -> EntryPtr {
    entry_subheader(&join.base, p).next_scheduled
}

/// The entries behind the root entry.
fn waiting(join: &Join<Unit>) -> Vec<EntryPtr> {
    let end = EntryPtr::At(join.count());
    let mut list = Vec::new();
    let mut p = next(join, EntryPtr::Root);
    while p != end {
        list.push(p);
        p = next(join, p);
    }
    list
}

#[test]
fn a_poll_walks_along_its_batch_in_order() {
    let mut join = Join::from_vec((0..3).map(|_| std::future::pending::<()>()).collect());
    let mut polling = join.start_poll(&noop_waker());
    assert_eq!(polling, Polling::Walk { current: EntryPtr::At(0) });
    let mut seen = Vec::new();
    while let Some((index, future)) = join.next_entry(&mut polling) {
        seen.push(index);
        if index == 1 {
            let _ = weak_waker(EntryPtr::At(1)).wake_by_ref(&mut join.base);
            let _ = weak_waker(EntryPtr::At(0)).wake_by_ref(&mut join.base);
            let _ = weak_waker(EntryPtr::At(2)).wake_by_ref(&mut join.base);
        }
        join.finish_entry(index, future, Poll::Pending);
    }
    assert_eq!(seen, [0, 1, 2]);
    assert_eq!(waiting(&join), [EntryPtr::At(1), EntryPtr::At(0)]);
    let polling = join.start_poll(&noop_waker());
    assert_eq!(polling, Polling::Walk { current: EntryPtr::At(1) });
    assert!(waiting(&join).is_empty());
}

#[test]
fn an_empty_batch_is_over_at_once() {
    let mut join = drained(2);
    let mut polling = join.start_poll(&noop_waker());
    assert_eq!(polling, Polling::Walk { current: EntryPtr::Root });
    assert!(join.next_entry(&mut polling).is_none());
    assert_eq!(next(&join, EntryPtr::Root), EntryPtr::At(2));
    assert_eq!(next(&join, EntryPtr::Buffer), EntryPtr::Null);
    assert_eq!(header(&join.base).last_to_poll, EntryPtr::Root);
}

#[test]
fn an_entry_is_scheduled_once() {
    let mut join = drained(3);
    assert_eq!(schedule_entry(EntryPtr::At(2), &mut join.base), Some(EntryPtr::Root));
    assert_eq!(schedule_entry(EntryPtr::At(0), &mut join.base), Some(EntryPtr::At(2)));
    assert_eq!(schedule_entry(EntryPtr::At(2), &mut join.base), None);
    assert_eq!(waiting(&join), [EntryPtr::At(2), EntryPtr::At(0)]);
}

#[test]
fn undertakings_that_overlap_do_not_lose_an_entry() {
    let mut join = drained(3);
    let mut a = Schedule::new(EntryPtr::At(0));
    let mut b = Schedule::new(EntryPtr::At(1));
    a.step(&mut join.base);
    b.step(&mut join.base);
    a.step(&mut join.base);
    b.step(&mut join.base);
    assert_eq!(b.stage, Stage::Link { last: EntryPtr::Root });
    a.step(&mut join.base);
    assert_eq!(a.stage, Stage::Publish { last: EntryPtr::Root });
    b.step(&mut join.base);
    assert_eq!(b.stage, Stage::FindLast);
    a.step(&mut join.base);
    assert_eq!(a.stage, Stage::Done { behind: Some(EntryPtr::Root) });
    while !matches!(b.stage, Stage::Done { .. }) {
        b.step(&mut join.base);
    }
    assert_eq!(b.stage, Stage::Done { behind: Some(EntryPtr::At(0)) });
    assert_eq!(waiting(&join), [EntryPtr::At(0), EntryPtr::At(1)]);
}

#[test]
fn an_undertaking_that_a_poll_overtakes_goes_to_the_next_batch() {
    let mut join = drained(2);
    assert_eq!(schedule_entry(EntryPtr::At(0), &mut join.base), Some(EntryPtr::Root));
    let mut late = Schedule::new(EntryPtr::At(1));
    late.step(&mut join.base);
    late.step(&mut join.base);
    assert_eq!(late.stage, Stage::Link { last: EntryPtr::At(0) });
    let mut polling = join.start_poll(&noop_waker());
    let (index, future) = join.next_entry(&mut polling).unwrap();
    assert_eq!(index, 0);
    join.finish_entry(index, future, Poll::Pending);
    assert_eq!(next(&join, EntryPtr::At(0)), EntryPtr::Null);
    late.step(&mut join.base);
    assert_eq!(late.stage, Stage::FindLast);
    while !matches!(late.stage, Stage::Done { .. }) {
        late.step(&mut join.base);
    }
    assert_eq!(late.stage, Stage::Done { behind: Some(EntryPtr::Root) });
    assert!(join.next_entry(&mut polling).is_none());
    assert_eq!(waiting(&join), [EntryPtr::At(1)]);
}

#[test]
fn what_is_woken_while_a_poll_begins_is_not_lost() {
    for steps in 0..14 {
        let mut join = drained(3);
        assert_eq!(schedule_entry(EntryPtr::At(2), &mut join.base), Some(EntryPtr::Root));
        let waker = noop_waker();
        let mut polling = Polling::new();
        let mut late = Schedule::new(EntryPtr::At(0));
        for _ in 0..steps {
            polling.step(&mut join.base, &waker);
        }
        late.step(&mut join.base);
        late.step(&mut join.base);
        while !matches!(late.stage, Stage::Done { .. }) {
            if !matches!(polling, Polling::Walk { .. }) {
                polling.step(&mut join.base, &waker);
            }
            late.step(&mut join.base);
        }
        while !matches!(polling, Polling::Walk { .. }) {
            polling.step(&mut join.base, &waker);
        }
        let mut seen = Vec::new();
        while let Some((index, future)) = join.next_entry(&mut polling) {
            seen.push(EntryPtr::At(index));
            join.finish_entry(index, future, Poll::Pending);
        }
        seen.extend(waiting(&join));
        assert_eq!(seen, [EntryPtr::At(2), EntryPtr::At(0)]);
    }
}

#[test]
fn only_the_first_one_takes_the_external_waker() {
    let mut join = drained(2);
    assert!(take_extern_waker(&mut join.base, None).is_none());
    assert!(take_extern_waker(&mut join.base, Some(EntryPtr::At(0))).is_none());
    assert!(take_extern_waker(&mut join.base, Some(EntryPtr::Root)).is_some());
    assert!(take_extern_waker(&mut join.base, Some(EntryPtr::Root)).is_none());
}

#[test]
fn users_are_counted() {
    let mut join = drained(1);
    let weak = weak_waker(EntryPtr::At(0));
    assert_eq!(header(&join.base).allocation_rc, 1);
    let strong = weak.clone(&mut join.base);
    assert_eq!(header(&join.base).allocation_rc, 2);
    inc_rc(&mut join.base);
    assert!(!dec_rc(&mut join.base));
    let (woken, free) = strong.wake(&mut join.base);
    assert!(woken.is_some());
    assert!(!free);
    assert!(join.drop());
    assert_eq!(header(&join.base).allocation_rc, 0);
}

#[test]
fn the_last_waker_frees_the_memory_of_a_dropped_join() {
    let mut join = drained(2);
    let strong = weak_waker(EntryPtr::At(1)).clone(&mut join.base);
    assert!(!join.drop());
    assert!(join.take_future(0).is_none());
    assert!(join.take_future(1).is_none());
    assert_eq!(next(&join, EntryPtr::Root), EntryPtr::Buffer);
    let (woken, free) = strong.wake(&mut join.base);
    assert!(woken.is_none());
    assert!(free);
    assert_eq!(waiting(&join), [EntryPtr::Buffer, EntryPtr::At(1)]);
}

#[test]
fn the_count_wraps_around() {
    let mut join = drained(0);
    assert!(dec_rc(&mut join.base));
    assert!(!dec_rc(&mut join.base));
    assert_eq!(header(&join.base).allocation_rc, usize::MAX);
    inc_rc(&mut join.base);
    assert_eq!(header(&join.base).allocation_rc, 0);
}
