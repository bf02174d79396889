use std::future::Future;
use std::pin::Pin;
use std::sync::atomic::{AtomicUsize, Ordering};
use std::sync::{Arc, Mutex};
use std::task::{Context, Poll, Wake, Waker};
use std::{hint, iter};

use alt_join::erased::{
    entries, entry, entry_header, entry_subheader, erase_entry, erase_entry_subheader, header,
    EntryPtr, HeaderField,
};
use alt_join::fused_future::FusedFuture;
use alt_join::join::Join;
use alt_join::waker::weak_waker;
use noop_waker::noop_waker;

/// A join as a future: it polls the futures that the join names.
struct Joined<F: Future> {
    join: Arc<Mutex<Join<F>>>,
}

struct EntryWake<F: Future> {
    join: Arc<Mutex<Join<F>>>,
    entry: usize,
}

impl<F> Wake for EntryWake<F>
where
    F: Future + Send + 'static,
    F::Output: Send,
{
    fn wake(self: Arc<Self>) {
        self.wake_by_ref();
    }

    fn wake_by_ref(self: &Arc<Self>) {
        let woken = {
            let mut join = self.join.lock().unwrap();
            weak_waker(EntryPtr::At(self.entry)).wake_by_ref(&mut join.base)
        };
        if let Some(waker) = woken {
            waker.wake();
        }
    }
}

impl<F: Future> Joined<F> {
    fn from_vec(v: Vec<F>) -> Self {
        Joined {
            join: Arc::new(Mutex::new(Join::from_vec(v))),
        }
    }
}

impl<F> Future for Joined<F>
where
    F: Future + Unpin + Send + 'static,
    F::Output: Send,
{
    type Output = ();

    fn poll(self: Pin<&mut Self>, cx: &mut Context<'_>) -> Poll<()> {
        let mut polling = self.join.lock().unwrap().start_poll(cx.waker());
        loop {
            let taken = self.join.lock().unwrap().next_entry(&mut polling);
            let Some((index, mut future)) = taken else {
                return self.join.lock().unwrap().finish_poll();
            };
            let waker = Waker::from(Arc::new(EntryWake {
                join: Arc::clone(&self.join),
                entry: index,
            }));
            let mut cx = Context::from_waker(&waker);
            let inner = match &mut future {
                FusedFuture::Pending(f) => Pin::new(f).poll(&mut cx),
                FusedFuture::Ready(_) => Poll::Pending,
            };
            self.join.lock().unwrap().finish_entry(index, future, inner);
        }
    }
}

#[test]
fn ready() {
    let waker = noop_waker();
    let mut cx = Context::from_waker(&waker);

    for i in 0..16 {
        let mut join = Joined::from_vec(iter::repeat_with(|| std::future::ready(42)).take(i).collect());
        assert_eq!(Pin::new(&mut join).poll(&mut cx), Poll::Ready(()));
        hint::black_box(join);
    }
}

#[test]
fn yield_now() {
    let waker = noop_waker();
    let mut cx = Context::from_waker(&waker);

    for i in 1..16 {
        let mut join = Joined::from_vec(
            iter::repeat_with(|| futures_lite::future::yield_now()).take(i).collect(),
        );
        assert_eq!(Pin::new(&mut join).poll(&mut cx), Poll::Pending);
        assert_eq!(Pin::new(&mut join).poll(&mut cx), Poll::Ready(()));
        hint::black_box(join);
    }
}

/// A waker that counts how often it is woken.
struct Counter(AtomicUsize);

impl Wake for Counter {
    fn wake(self: Arc<Self>) {
        self.0.fetch_add(1, Ordering::SeqCst);
    }
}

fn counter() -> (Arc<Counter>, Waker) {
    let counter = Arc::new(Counter(AtomicUsize::new(0)));
    (Arc::clone(&counter), Waker::from(counter))
}

impl Counter {
    fn count(&self) -> usize {
        self.0.load(Ordering::SeqCst)
    }
}

/// Answers `Pending` until it is told that it is done, and hands out the waker it was polled with.
#[derive(Default)]
struct Gate {
    done: AtomicUsize,
    polls: AtomicUsize,
    waker: Mutex<Option<Waker>>,
}

struct Passage(Arc<Gate>);

impl Future for Passage {
    type Output = u32;

    fn poll(self: Pin<&mut Self>, cx: &mut Context<'_>) -> Poll<u32> {
        self.0.polls.fetch_add(1, Ordering::SeqCst);
        *self.0.waker.lock().unwrap() = Some(cx.waker().clone());
        if self.0.done.load(Ordering::SeqCst) != 0 {
            Poll::Ready(7)
        } else {
            Poll::Pending
        }
    }
}

impl Gate {
    fn wake(&self) {
        let waker = self.waker.lock().unwrap().clone();
        waker.expect("the future has been polled").wake();
    }

    fn open(&self) {
        self.done.store(1, Ordering::SeqCst);
        self.wake();
    }

    fn polls(&self) -> usize {
        self.polls.load(Ordering::SeqCst)
    }
}

fn gates(n: usize) -> (Vec<Arc<Gate>>, Joined<Passage>) {
    let gates: Vec<Arc<Gate>> = (0..n).map(|_| Arc::new(Gate::default())).collect();
    let join = Joined::from_vec(gates.iter().map(|gate| Passage(Arc::clone(gate))).collect());
    (gates, join)
}

fn poll_once<F>(join: &mut Joined<F>, waker: &Waker) -> Poll<()>
where
    F: Future + Unpin + Send + 'static,
    F::Output: Send,
{
    Pin::new(join).poll(&mut Context::from_waker(waker))
}

#[test]
fn counts_follow_the_futures() {
    let waker = noop_waker();
    let (gates, mut join) = gates(3);
    assert_eq!(join.join.lock().unwrap().count(), 3);
    assert_eq!(join.join.lock().unwrap().pending_count(), 3);
    assert!(!join.join.lock().unwrap().is_complete());
    assert_eq!(poll_once(&mut join, &waker), Poll::Pending);
    gates[1].open();
    assert_eq!(poll_once(&mut join, &waker), Poll::Pending);
    assert_eq!(join.join.lock().unwrap().pending_count(), 2);
    gates[2].open();
    gates[0].open();
    assert_eq!(poll_once(&mut join, &waker), Poll::Ready(()));
    assert_eq!(join.join.lock().unwrap().pending_count(), 0);
    assert_eq!(join.join.lock().unwrap().count(), 3);
    assert!(join.join.lock().unwrap().is_complete());
    assert_eq!(poll_once(&mut join, &waker), Poll::Ready(()));
}

#[test]
fn only_woken_futures_are_polled_again() {
    let waker = noop_waker();
    let (gates, mut join) = gates(3);
    assert_eq!(poll_once(&mut join, &waker), Poll::Pending);
    assert_eq!(gates.iter().map(|gate| gate.polls()).collect::<Vec<_>>(), [1, 1, 1]);
    gates[2].wake();
    gates[2].wake();
    gates[0].wake();
    assert_eq!(poll_once(&mut join, &waker), Poll::Pending);
    assert_eq!(gates.iter().map(|gate| gate.polls()).collect::<Vec<_>>(), [2, 1, 2]);
    assert_eq!(poll_once(&mut join, &waker), Poll::Pending);
    assert_eq!(gates.iter().map(|gate| gate.polls()).collect::<Vec<_>>(), [2, 1, 2]);
}

#[test]
fn the_first_wake_up_wakes_the_external_waker() {
    let (counter, waker) = counter();
    let (gates, mut join) = gates(3);
    assert_eq!(poll_once(&mut join, &waker), Poll::Pending);
    assert_eq!(counter.count(), 0);
    gates[1].wake();
    assert_eq!(counter.count(), 1);
    gates[0].wake();
    gates[1].wake();
    assert_eq!(counter.count(), 1);
    assert_eq!(poll_once(&mut join, &waker), Poll::Pending);
    assert_eq!(counter.count(), 1);
    gates[2].wake();
    assert_eq!(counter.count(), 2);
}

#[test]
fn the_waker_of_the_last_poll_is_the_one_that_is_woken() {
    let (first, first_waker) = counter();
    let (second, second_waker) = counter();
    let (gates, mut join) = gates(2);
    assert_eq!(poll_once(&mut join, &first_waker), Poll::Pending);
    assert_eq!(poll_once(&mut join, &second_waker), Poll::Pending);
    gates[0].wake();
    assert_eq!((first.count(), second.count()), (0, 1));
    assert_eq!(poll_once(&mut join, &first_waker), Poll::Pending);
    assert_eq!(poll_once(&mut join, &first_waker), Poll::Pending);
    gates[1].wake();
    assert_eq!((first.count(), second.count()), (1, 1));
}

#[test]
fn a_finished_future_that_is_woken_is_not_counted_again() {
    let waker = noop_waker();
    let (gates, mut join) = gates(2);
    assert_eq!(poll_once(&mut join, &waker), Poll::Pending);
    gates[0].open();
    assert_eq!(poll_once(&mut join, &waker), Poll::Pending);
    assert_eq!(gates[0].polls(), 2);
    gates[0].wake();
    assert_eq!(poll_once(&mut join, &waker), Poll::Pending);
    assert_eq!(gates[0].polls(), 2);
    assert_eq!(join.join.lock().unwrap().pending_count(), 1);
    gates[1].open();
    assert_eq!(poll_once(&mut join, &waker), Poll::Ready(()));
    gates[0].wake();
    assert_eq!(poll_once(&mut join, &waker), Poll::Ready(()));
    assert_eq!(join.join.lock().unwrap().pending_count(), 0);
}

/// Finishes at once or never, and wakes itself whenever it is polled.
struct Restless(bool);

impl Future for Restless {
    type Output = ();

    fn poll(self: Pin<&mut Self>, cx: &mut Context<'_>) -> Poll<()> {
        cx.waker().wake_by_ref();
        if self.0 {
            Poll::Ready(())
        } else {
            Poll::Pending
        }
    }
}

#[test]
fn a_future_that_wakes_itself_and_finishes_is_counted_once() {
    let waker = noop_waker();
    let mut join = Joined {
        join: Arc::new(Mutex::new(Join::from_vec(vec![Restless(true), Restless(false)]))),
    };
    for _ in 0..4 {
        assert_eq!(Pin::new(&mut join).poll(&mut Context::from_waker(&waker)), Poll::Pending);
        assert_eq!(join.join.lock().unwrap().pending_count(), 1);
    }
}

#[test]
fn a_dropped_join_drops_futures_and_outputs() {
    let token = Arc::new(());
    let mut join = Join::from_vec(vec![
        std::future::ready(Arc::clone(&token)),
        std::future::ready(Arc::clone(&token)),
    ]);
    let mut polling = join.start_poll(&noop_waker());
    let (index, future) = join.next_entry(&mut polling).unwrap();
    join.finish_entry(index, future, Poll::Ready(Arc::clone(&token)));
    assert_eq!(join.pending_count(), 1);
    assert_eq!(Arc::strong_count(&token), 3);
    while let Some((index, future)) = join.next_entry(&mut polling) {
        join.finish_entry(index, future, Poll::Pending);
    }
    assert!(join.drop());
    assert_eq!(Arc::strong_count(&token), 1);
}

#[test]
fn outputs_are_kept() {
    let waker = noop_waker();
    let (gates, mut join) = gates(2);
    assert_eq!(poll_once(&mut join, &waker), Poll::Pending);
    gates[1].open();
    assert_eq!(poll_once(&mut join, &waker), Poll::Pending);
    let mut core = join.join.lock().unwrap();
    let pending = core.take_future(0).expect("the future is there");
    let ready = core.take_future(1).expect("the future is there");
    assert!(matches!(pending.into_output(), Poll::Pending));
    assert!(matches!(ready.into_output(), Poll::Ready(7)));
    assert!(core.take_future(1).is_none());
}

#[test]
fn a_new_join_lists_all_of_its_entries() {
    let join = Join::from_vec(vec![std::future::ready(1), std::future::ready(2)]);
    assert_eq!(entry_subheader(&join.base, EntryPtr::Root).next_scheduled, EntryPtr::At(0));
    assert_eq!(entry_subheader(&join.base, EntryPtr::At(0)).next_scheduled, EntryPtr::At(1));
    assert_eq!(entry_header(&join.base, EntryPtr::At(1)).inner.next_scheduled, EntryPtr::At(2));
    assert_eq!(entry_subheader(&join.base, EntryPtr::Buffer).next_scheduled, EntryPtr::Null);
    assert_eq!(header(&join.base).last_to_poll, EntryPtr::At(1));
    assert_eq!(header(&join.base).allocation_rc, 1);
    assert_eq!(entries(&join.base).len(), 2);
    assert!(matches!(entry(&join.base, EntryPtr::At(1)).future, Some(FusedFuture::Pending(_))));
    assert_eq!(erase_entry(2), EntryPtr::At(2));
    assert_eq!(erase_entry_subheader(HeaderField::RootEntry), EntryPtr::Root);
    assert_eq!(erase_entry_subheader(HeaderField::BufferEntry), EntryPtr::Buffer);

    let empty: Join<std::future::Ready<u32>> = Join::from_vec(Vec::new());
    assert_eq!(entry_subheader(&empty.base, EntryPtr::Root).next_scheduled, EntryPtr::At(0));
    assert_eq!(header(&empty.base).last_to_poll, EntryPtr::Root);
}

#[test]
fn fused_futures_finish_once() {
    let mut fused = FusedFuture::new(std::future::pending::<u32>());
    assert_eq!(fused.poll(Poll::Pending), Poll::Pending);
    assert_eq!(fused.poll(Poll::Ready(1)), Poll::Ready(()));
    assert_eq!(fused.poll(Poll::Ready(2)), Poll::Ready(()));
    assert_eq!(fused.poll(Poll::Pending), Poll::Ready(()));
    assert_eq!(fused.into_output(), Poll::Ready(1));

    let mut fused = FusedFuture::new(std::future::pending::<u32>());
    assert!(!fused.settle(Poll::Pending));
    assert!(fused.settle(Poll::Ready(3)));
    assert!(!fused.settle(Poll::Ready(4)));
    assert_eq!(fused.into_output(), Poll::Ready(3));
}
