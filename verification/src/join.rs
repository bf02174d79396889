//! A future that finishes when all futures of a list have finished.
use core::future::Future;
use core::task::Poll;
use core::task::Waker;
use vstd::prelude::*;
use crate::erased::{
    alloc_join_impl, erase_entry, erase_entry_subheader, header, EntryPtr, HeaderField, JoinHeader,
    JoinImpl, JoinView, Links,
};
use crate::dropped::dropped;
use crate::fused_future::FusedFuture;
use crate::poll::Polling;
use crate::refcount::dec_rc;
use crate::schedule::{schedule_entry, stage_rank, Stage};
use crate::task::registered;

verus! {

/// A list of futures that are polled together.
pub struct Join<F> where F: Future {
    pub base: JoinImpl<F>,
}

/// The links of a join that has not been polled: all of its `count` entries are scheduled, in
/// order.
pub open spec fn initial_links(count: nat) -> Links {
    Links {
        count,
        next: Map::new(
            |p: EntryPtr|
                match p {
                    EntryPtr::Null => false,
                    EntryPtr::Root => true,
                    EntryPtr::Buffer => true,
                    EntryPtr::At(i) => i < count,
                },
            |p: EntryPtr|
                match p {
                    EntryPtr::Root => EntryPtr::At(0),
                    EntryPtr::At(i) => EntryPtr::At((i + 1) as usize),
                    _ => EntryPtr::Null,
                },
        ),
        last: if count == 0 {
            EntryPtr::Root
        } else {
            EntryPtr::At((count - 1) as usize)
        },
    }
}

impl<F> View for Join<F> where F: Future {
    type V = JoinView<F>;

    open spec fn view(&self) -> JoinView<F> {
        self.base@
    }
}

impl<F> Join<F> where F: Future {
    /// The join of the futures in `v`.
    pub fn from_vec(v: Vec<F>) -> (join: Self)
        ensures
            join.base.wf(),
            join@ == (JoinView {
                links: initial_links(v@.len()),
                rc: 1,
                pending: v@.len() as usize,
                extern_waker: None,
                futures: v@.map_values(|future: F| Some(FusedFuture::<F>::Pending(future))),
            }),
    {
        let entry_count = v.len();
        let mut base: JoinImpl<F> = alloc_join_impl(entry_count);
        let root = erase_entry_subheader(HeaderField::RootEntry);
        let _ = base.swap_next(root, erase_entry(0));
        if entry_count != 0 {
            let _ = base.exchange_last(root, erase_entry(entry_count - 1));
        }
        let ghost futures = v@;
        let ghost start = base@;
        let mut i: usize = 0;
        for future in it: v
            invariant
                it.seq() == futures,
                i == it.index(),
                entry_count == futures.len(),
                base.wf(),
                base@.links.count == entry_count,
                base@.links.last == start.links.last,
                base@.links.next[EntryPtr::Root] == EntryPtr::At(0),
                base@.links.next[EntryPtr::Buffer] == EntryPtr::Null,
                forall|j: int|
                    0 <= j < i ==> (#[trigger] base.entries@[j]).header.inner.next_scheduled
                        == EntryPtr::At((j + 1) as usize) && base.entries@[j].future == Some(
                        FusedFuture::<F>::Pending(futures[j]),
                    ),
                base@.rc == 1,
                base@.pending == entry_count,
                base@.extern_waker is None,
        {
            base.entries[i].future = Some(FusedFuture::new(future));
            base.entries[i].header.inner.next_scheduled = erase_entry(i + 1);
            i += 1;
        }
        assert(base@.links =~= initial_links(futures.len()));
        assert(base@.futures =~= futures.map_values(
            |future: F| Some(FusedFuture::<F>::Pending(future)),
        ));
        Join { base }
    }

    /// The header of the memory of this join.
    pub fn header(&self) -> (h: &JoinHeader)
        ensures
            *h == self.base.header,
    {
        header(&self.base)
    }

    /// The number of futures.
    pub fn count(&self) -> (count: usize)
        ensures
            count == self.base.header.entry_count,
            self.base.wf() ==> count == self@.links.count,
    {
        self.header().entry_count
    }

    /// The number of futures that have not finished.
    pub fn pending_count(&self) -> (pending: usize)
        ensures
            pending == self@.pending,
    {
        self.header().pending_entry_count
    }

    /// Whether all futures have finished.
    pub fn is_complete(&self) -> (complete: bool)
        ensures
            complete == (self@.pending == 0),
    {
        self.pending_count() == 0
    }

    /// Whether a poll may begin: no waker is in the midst of appending, and the buffer entry is
    /// not in the list.
    pub open spec fn idle(&self) -> bool {
        &&& self.base.wf()
        &&& self@.links.settled()
        &&& self@.links.next[EntryPtr::Buffer] == EntryPtr::Null
    }

    /// Begins a poll for the task of `waker`: what has been scheduled becomes the batch to walk
    /// along, what is scheduled from now on waits for the next poll.
    pub fn start_poll(&mut self, waker: &Waker) -> (polling: Polling)
        requires
            old(self).idle(),
        ensures
            final(self).idle(),
            polling == (Polling::Walk { current: old(self)@.links.batch() }),
            if old(self)@.links.last == EntryPtr::Root {
                registered(old(self)@.extern_waker, *waker, final(self)@.extern_waker)
            } else {
                final(self)@.extern_waker is Some && cloned(*waker, final(self)@.extern_waker->0)
            },
            final(self)@ == (JoinView {
                links: old(self)@.links.batch_taken(),
                extern_waker: final(self)@.extern_waker,
                ..old(self)@
            }),
    {
        let ghost start = self@;
        let mut polling = Polling::new();
        loop
            invariant
                self.base.wf(),
                start == old(self)@,
                start.links.settled(),
                start.links.count == old(self).base.entries@.len(),
                start.links.next[EntryPtr::Buffer] == EntryPtr::Null,
                self@ == (JoinView {
                    links: self@.links,
                    extern_waker: self@.extern_waker,
                    ..start
                }),
                prologue_at(start.links, polling, self@.links),
                polling is EnterBuffer || polling is Register ==> self@.extern_waker
                    == start.extern_waker,
                !(polling is EnterBuffer || polling is Register) ==> {
                    if start.links.last == EntryPtr::Root {
                        registered(start.extern_waker, *waker, self@.extern_waker)
                    } else {
                        self@.extern_waker is Some && cloned(*waker, self@.extern_waker->0)
                    }
                },
            decreases prologue_rank(polling),
        {
            if let Polling::Walk { .. } = polling {
                return polling;
            }
            polling.step(&mut self.base, waker);
            proof {
                if polling is Walk {
                    assert(self@.links =~= start.links.batch_taken());
                }
            }
        }
    }

    /// Whether a poll that has come to `current` can go on: it is at the root entry, or at an
    /// entry whose future is in its place.
    pub open spec fn can_walk(&self, current: EntryPtr) -> bool {
        &&& self.base.wf()
        &&& current == EntryPtr::Root || (self@.links.has_future(current)
            && self@.futures[current->At_0 as int] is Some)
    }

    /// Takes the future of the entry at `i` out, if it is there.
    pub fn take_future(&mut self, i: usize) -> (future: Option<FusedFuture<F>>)
        requires
            old(self).base.wf(),
            i < old(self)@.links.count,
        ensures
            final(self).base.wf(),
            future == old(self)@.futures[i as int],
            final(self)@ == (JoinView {
                futures: old(self)@.futures.update(i as int, None),
                ..old(self)@
            }),
    {
        let future = self.base.entries[i].future.take();
        assert(self@ =~= JoinView {
            futures: old(self)@.futures.update(i as int, None),
            ..old(self)@
        });
        future
    }

    /// Takes the next future of the batch out, to be polled, with its index.
    ///
    /// From here on its entry is not scheduled, so that a wake-up during the poll schedules it
    /// again.
    pub fn next_entry(&mut self, polling: &mut Polling) -> (taken: Option<(usize, FusedFuture<F>)>)
        requires
            *old(polling) is Walk,
            old(self).can_walk(old(polling)->current),
        ensures
            final(self).base.wf(),
            match old(polling)->current {
                EntryPtr::At(i) => {
                    &&& taken == Some((i, old(self)@.futures[i as int]->0))
                    &&& *final(polling) == (Polling::Walk {
                        current: old(self)@.links.next[EntryPtr::At(i)],
                    })
                    &&& final(self)@ == old(self)@.taken(i)
                },
                _ => taken is None && *final(polling) == *old(polling) && final(self)@ == old(
                    self,
                )@,
            },
    {
        if let Polling::Walk { current } = *polling {
            if let EntryPtr::At(i) = current {
                let next = self.base.swap_next(current, EntryPtr::Null);
                *polling = Polling::Walk { current: next };
                if let Some(future) = self.take_future(i) {
                    return Some((i, future));
                }
            }
        }
        None
    }

    /// Puts the future of the entry at `index` back. If it has `finished` with the poll it was taken
    /// out for, it counts as one pending future less.
    pub fn put_back(&mut self, index: usize, future: FusedFuture<F>, finished: bool)
        requires
            old(self).base.wf(),
            index < old(self)@.links.count,
            finished ==> old(self)@.pending > 0,
        ensures
            final(self).base.wf(),
            final(self)@ == old(self)@.restored(index as int, future, finished),
            final(self)@.futures == old(self)@.futures.update(index as int, Some(future)),
            final(self)@.pending == old(self)@.pending - (if finished {
                1int
            } else {
                0int
            }),
            final(self)@.links == old(self)@.links,
    {
        if finished {
            self.base.header.pending_entry_count -= 1;
        }
        self.base.entries[index].future = Some(future);
        assert(self@ =~= old(self)@.restored(index as int, future, finished));
    }

    /// Puts `future`, the one of the entry at `index`, back after its inner future answered `inner`
    /// to a poll. If it finishes with that, it is dropped, and it counts as one pending future less.
    ///
    /// A future that had finished before is not polled again: it keeps its output, and `inner` is
    /// not looked at.
    pub fn finish_entry(&mut self, index: usize, future: FusedFuture<F>, inner: Poll<F::Output>)
        requires
            old(self).base.wf(),
            index < old(self)@.links.count,
            future is Pending && inner is Ready ==> old(self)@.pending > 0,
        ensures
            final(self).base.wf(),
            final(self)@ == old(self)@.finished(index as int, future, inner),
            forall|j: int|
                0 <= j < old(self)@.futures.len() && j != index ==> (#[trigger] final(self)@.futures[j])
                    == old(self)@.futures[j],
            final(self)@.futures[index as int] == Some(future.polled(inner)),
            future is Pending && inner is Ready ==> dropped(future),
    {
        let mut future = future;
        let finished = future.settle(inner);
        self.put_back(index, future, finished);
    }

    /// The answer to a poll whose batch is over.
    pub fn finish_poll(&self) -> (out: Poll<()>)
        ensures
            out == (if self@.pending == 0 {
                Poll::Ready(())
            } else {
                Poll::Pending
            }),
    {
        if self.is_complete() {
            Poll::Ready(())
        } else {
            Poll::Pending
        }
    }

    /// Puts the buffer entry into the list for good, so that no waker comes first any more and
    /// uses the external waker.
    pub fn shut(&mut self)
        requires
            old(self).idle(),
        ensures
            final(self).base.wf(),
            final(self)@ == (JoinView {
                links: old(self)@.links.appended(EntryPtr::Buffer),
                ..old(self)@
            }),
    {
        let _ = schedule_entry(erase_entry_subheader(HeaderField::BufferEntry), &mut self.base);
    }

    /// Drops a future that has been taken out of a join that has been shut. If it wakes others while
    /// it is dropped, the external waker is out of their reach.
    pub fn discard(&self, future: Option<FusedFuture<F>>)
        requires
            self@.links.next[EntryPtr::Buffer] != EntryPtr::Null,
        ensures
            dropped(future),
    {
        drop(future);
    }

    /// Gives the join up: shuts it, drops its futures, or the outputs they left, and answers whether no waker uses the memory
    /// any more, so that it is to be freed.
    pub fn drop(&mut self) -> (free: bool)
        requires
            old(self).idle(),
        ensures
            final(self).base.wf(),
            final(self)@ == (JoinView {
                links: old(self)@.links.appended(EntryPtr::Buffer),
                rc: old(self)@.rc.wrapping_sub(1),
                futures: Seq::new(old(self)@.links.count, |i: int| None),
                ..old(self)@
            }),
            forall|j: int|
                0 <= j < old(self)@.futures.len() ==> dropped(#[trigger] old(self)@.futures[j])
                    && discarded_shut(
                    old(self)@.links.appended(EntryPtr::Buffer),
                    old(self)@.rc,
                    old(self)@.futures[j],
                ),
            free == (old(self)@.rc == 1),
    {
        self.shut();
        let ghost closed = self@;
        let entry_count = self.count();
        let mut i: usize = 0;
        while i < entry_count
            invariant
                self.base.wf(),
                i <= entry_count == closed.links.count,
                self@ == (JoinView { futures: self@.futures, ..closed }),
                closed.futures == old(self)@.futures,
                closed.futures.len() == closed.links.count,
                forall|j: int| 0 <= j < i ==> (#[trigger] self@.futures[j]) is None,
                forall|j: int|
                    i <= j < entry_count ==> #[trigger] self@.futures[j] == closed.futures[j],
                closed.links == old(self)@.links.appended(EntryPtr::Buffer),
                closed.links.next[EntryPtr::Buffer] != EntryPtr::Null,
                closed.rc == old(self)@.rc,
                forall|j: int|
                    0 <= j < i ==> dropped(#[trigger] closed.futures[j]) && discarded_shut(
                        closed.links,
                        closed.rc,
                        closed.futures[j],
                    ),
            decreases entry_count - i,
        {
            let future = self.take_future(i);
            self.discard(future);
            assert(discarded_by(*self, future));
            i += 1;
        }
        assert(self@.futures =~= Seq::new(closed.links.count, |i: int| None));
        dec_rc(&mut self.base)
    }
}

/// Whether [`Join::discard`] may have been called for `future` when the join was `join`.
pub open spec fn discarded_by<F: Future>(join: Join<F>, future: Option<FusedFuture<F>>) -> bool {
    call_ensures(Join::<F>::discard, (&join, future), ())
}

/// Whether `future` may have been dropped while a join had these links and this count of users.
pub open spec fn discarded_shut<F: Future>(
    links: Links,
    rc: usize,
    future: Option<FusedFuture<F>>,
) -> bool {
    exists|join: Join<F>| #[trigger]
        discarded_by(join, future) && join@.links == links && join@.rc == rc
}

impl<F> JoinView<F> where F: Future {
    /// The memory after the future at `i` has been taken out to be polled.
    pub open spec fn taken(self, i: usize) -> JoinView<F> {
        JoinView {
            links: self.links.linked(EntryPtr::At(i), EntryPtr::Null),
            futures: self.futures.update(i as int, None),
            ..self
        }
    }

    /// The memory after `future` has been put back at `i`, counted off if it has `finished`.
    pub open spec fn restored(self, i: int, future: FusedFuture<F>, finished: bool) -> JoinView<F> {
        JoinView {
            futures: self.futures.update(i, Some(future)),
            pending: if finished {
                (self.pending - 1) as usize
            } else {
                self.pending
            },
            ..self
        }
    }

    /// The memory after `future`, whose inner future answered `inner` to a poll, has been put back
    /// at `i`. Only a future that finishes with this answer is counted off.
    pub open spec fn finished(
        self,
        i: int,
        future: FusedFuture<F>,
        inner: Poll<F::Output>,
    ) -> JoinView<F> {
        self.restored(i, future.polled(inner), future is Pending && inner is Ready)
    }
}

impl Links {
    /// The entry with which the batch of scheduled entries begins; the root entry if it is empty.
    pub open spec fn batch(self) -> EntryPtr {
        if self.last == EntryPtr::Root {
            EntryPtr::Root
        } else {
            self.next[EntryPtr::Root]
        }
    }

    /// The links after the scheduled entries have been taken as a batch, which then ends at the
    /// root entry.
    pub open spec fn batch_taken(self) -> Links {
        if self.last == EntryPtr::Root {
            self
        } else {
            self.linked(EntryPtr::Root, self.end()).linked(self.last, EntryPtr::Root).published(
                EntryPtr::Root,
            )
        }
    }
}

/// The links that a poll has made of `start` when nothing else came in between.
spec fn prologue_at(start: Links, polling: Polling, links: Links) -> bool {
    let claimed = start.linked(EntryPtr::Buffer, start.end());
    let entered = start.appended(EntryPtr::Buffer);
    let taken = entered.linked(EntryPtr::Root, EntryPtr::Null);
    let root_claimed = taken.linked(EntryPtr::Root, taken.end());
    let first = entered.next[EntryPtr::Root];
    let mid = start.last;
    let separated = taken.appended(EntryPtr::Root);
    match polling {
        Polling::EnterBuffer { schedule } => {
            &&& schedule.entry == EntryPtr::Buffer
            &&& match schedule.stage {
                Stage::Claim => links == start,
                Stage::FindLast => links == claimed,
                Stage::Link { last } => last == mid && links == claimed,
                Stage::Publish { last } => last == mid && links == claimed.linked(
                    mid,
                    EntryPtr::Buffer,
                ),
                Stage::Done { .. } => false,
            }
        },
        Polling::Register { intermediate } => intermediate == mid && links == entered,
        Polling::TakeBatch { intermediate } => intermediate == mid && links == entered,
        Polling::EnterRoot { intermediate, first: f, schedule } => {
            &&& intermediate == mid
            &&& f == first
            &&& schedule.entry == EntryPtr::Root
            &&& match schedule.stage {
                Stage::Claim => links == taken,
                Stage::FindLast => links == root_claimed,
                Stage::Link { last } => last == EntryPtr::Buffer && links == root_claimed,
                Stage::Publish { last } => last == EntryPtr::Buffer && links
                    == root_claimed.linked(EntryPtr::Buffer, EntryPtr::Root),
                Stage::Done { .. } => false,
            }
        },
        Polling::TakeBuffer { intermediate, first: f } => {
            &&& intermediate == mid
            &&& f == first
            &&& links == separated
        },
        Polling::Bypass { intermediate, first: f, next } => {
            &&& intermediate == mid
            &&& mid != EntryPtr::Root
            &&& f == first
            &&& next == EntryPtr::Root
            &&& links == separated.linked(EntryPtr::Buffer, EntryPtr::Null)
        },
        Polling::Walk { current } => current == start.batch() && links == start.batch_taken(),
    }
}

/// The number of steps that are left when nothing else comes in between.
spec fn prologue_rank(polling: Polling) -> int {
    match polling {
        Polling::EnterBuffer { schedule } => 9 + stage_rank(schedule.stage),
        Polling::Register { .. } => 9,
        Polling::TakeBatch { .. } => 8,
        Polling::EnterRoot { schedule, .. } => 3 + stage_rank(schedule.stage),
        Polling::TakeBuffer { .. } => 2,
        Polling::Bypass { .. } => 1,
        Polling::Walk { .. } => 0,
    }
}

} // verus!
