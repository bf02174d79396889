use std::future;
use std::sync::atomic::{AtomicUsize, Ordering};
use std::sync::{Arc, Mutex};
use std::task::{Context, Poll, Wake, Waker};

use alt_join::handshake::{
    alive_flag, handshake, ready_flag, untag, ReadyCall, Side, State, FIRST_ALIVE, SECOND_ALIVE,
};

/// Asks a side whether both are ready, and wakes whom it has to wake.
fn ask(side: &Side, state: &Mutex<State>, cx: &Context<'_>) -> Poll<()> {
    let (answer, woken) = side.ready(&mut state.lock().unwrap(), cx.waker());
    if let Some(waker) = woken {
        waker.wake();
    }
    answer
}

#[test]
fn simple() {
    let (state, sides) = handshake();
    let state = Mutex::new(state);
    futures_lite::future::block_on(future::poll_fn(|cx| {
        if let [Poll::Ready(()), Poll::Ready(())] = sides.each_ref().map(|side| ask(side, &state, cx)) {
            Poll::Ready(())
        } else {
            Poll::Pending
        }
    }));
}

/// A waker that counts how often it is woken.
struct Counter(AtomicUsize);

impl Wake for Counter {
    fn wake(self: Arc<Self>) {
        self.0.fetch_add(1, Ordering::SeqCst);
    }
}

fn counter() -> (Arc<Counter>, Waker) {
    let counter = Arc::new(Counter(AtomicUsize::new(0)));
    (Arc::clone(&counter), Waker::from(counter))
}

#[test]
fn flags_of_the_sides() {
    assert_eq!(alive_flag(0), FIRST_ALIVE);
    assert_eq!(alive_flag(1), SECOND_ALIVE);
    assert_eq!(ready_flag(0), 0b100);
    assert_eq!(ready_flag(1), 0b1000);
}

#[test]
fn tags_come_off() {
    assert_eq!(untag(0x1000), (0, 0x1000));
    assert_eq!(untag(0x1001), (1, 0x1000));
    let (_, [first, second]) = handshake();
    assert_eq!(first.side_and_state().0, 0);
    assert_eq!(second.side_and_state().0, 1);
    assert_eq!(first.side_and_state().1, second.side_and_state().1);
    assert_eq!(first.side_and_state().1 % 2, 0);
    assert_ne!(first.side_and_state().1, 0);
}

#[test]
fn the_second_side_wakes_the_first() {
    let (first_count, first_waker) = counter();
    let (second_count, second_waker) = counter();
    let (mut state, [first, second]) = handshake();

    let (answer, woken) = first.ready(&mut state, &first_waker);
    assert_eq!(answer, Poll::Pending);
    assert!(woken.is_none());

    let (answer, woken) = second.ready(&mut state, &second_waker);
    assert_eq!(answer, Poll::Ready(()));
    woken.expect("the first side waits").wake();
    assert_eq!(first_count.0.load(Ordering::SeqCst), 1);
    assert_eq!(second_count.0.load(Ordering::SeqCst), 0);

    for side in [&first, &second] {
        let (answer, woken) = side.ready(&mut state, &first_waker);
        assert_eq!(answer, Poll::Ready(()));
        assert!(woken.is_none());
    }
}

#[test]
fn a_side_that_asks_again_leaves_its_newest_waker() {
    let (old_count, old_waker) = counter();
    let (new_count, new_waker) = counter();
    let (mut state, [first, second]) = handshake();
    assert_eq!(second.ready(&mut state, &old_waker).0, Poll::Pending);
    assert_eq!(second.ready(&mut state, &new_waker).0, Poll::Pending);
    assert_eq!(second.ready(&mut state, &new_waker).0, Poll::Pending);
    let (answer, woken) = first.ready(&mut state, &old_waker);
    assert_eq!(answer, Poll::Ready(()));
    woken.expect("the second side waits").wake();
    assert_eq!(old_count.0.load(Ordering::SeqCst), 0);
    assert_eq!(new_count.0.load(Ordering::SeqCst), 1);
}

#[test]
fn sides_that_become_ready_at_once_wake_nobody() {
    let (_, waker) = counter();
    let (mut state, [first, second]) = handshake();
    let mut a = ReadyCall::Announce;
    let mut b = ReadyCall::Announce;
    assert!(first.step(&mut a, &mut state, &waker).is_none());
    assert_eq!(a, ReadyCall::Register { init: false });
    assert!(second.step(&mut b, &mut state, &waker).is_none());
    assert_eq!(b, ReadyCall::Answer { both: true });
    assert!(first.step(&mut a, &mut state, &waker).is_none());
    assert!(first.step(&mut a, &mut state, &waker).is_none());
    assert_eq!(a, ReadyCall::Answer { both: true });
}

#[test]
fn the_last_side_frees_the_state_and_drops_the_waker() {
    let (count, waker) = counter();
    let (mut state, [first, second]) = handshake();
    assert_eq!(first.ready(&mut state, &waker).0, Poll::Pending);
    assert_eq!(Arc::strong_count(&count), 3);
    assert!(!first.drop(&mut state));
    assert_eq!(Arc::strong_count(&count), 3);
    assert!(second.drop(&mut state));
    assert_eq!(Arc::strong_count(&count), 2);
}

#[test]
fn a_side_that_was_dropped_is_still_woken() {
    let (count, waker) = counter();
    let (mut state, [first, second]) = handshake();
    assert_eq!(second.ready(&mut state, &waker).0, Poll::Pending);
    assert!(!second.drop(&mut state));
    let (answer, woken) = first.ready(&mut state, &waker);
    assert_eq!(answer, Poll::Ready(()));
    woken.expect("the second side waited").wake();
    assert_eq!(count.0.load(Ordering::SeqCst), 1);
    assert!(first.drop(&mut state));
}

#[test]
fn a_waker_that_is_replaced_is_dropped() {
    let (old_count, old_waker) = counter();
    let (_, new_waker) = counter();
    let (mut state, [first, _second]) = handshake();
    assert_eq!(first.ready(&mut state, &old_waker).0, Poll::Pending);
    assert_eq!(Arc::strong_count(&old_count), 3);
    assert_eq!(first.ready(&mut state, &new_waker).0, Poll::Pending);
    assert_eq!(Arc::strong_count(&old_count), 2);
}
