//! Taking a batch of scheduled entries off the list.
//!
//! A poll of a join first brings the list into the state in which everything scheduled so far
//! stands before the root entry and everything scheduled later stands behind it. Then it walks
//! along the former. Like a [`Schedule`], a [`Polling`] takes steps that are one indivisible
//! operation each, so that wakers may append in between.
use core::future::Future;
use core::task::Waker;
use vstd::prelude::*;
use crate::erased::{erase_entry_subheader, EntryPtr, HeaderField, JoinImpl, JoinView, Links};
use crate::schedule::{Schedule, Stage};
use crate::task::{register_waker, registered, serves, settle_waker};

verus! {

/// What a poll does next.
#[derive(Clone, Copy, Debug, PartialEq, Eq, Structural)]
pub enum Polling {
    /// Append the buffer entry, so that no waker comes first and uses the external waker.
    EnterBuffer { schedule: Schedule },
    /// Store the external waker; the buffer entry stands behind `intermediate`.
    Register { intermediate: EntryPtr },
    /// Take everything behind the root entry.
    TakeBatch { intermediate: EntryPtr },
    /// Append the root entry, so that what is woken from now on stands behind it.
    EnterRoot { intermediate: EntryPtr, first: EntryPtr, schedule: Schedule },
    /// Take the buffer entry out.
    TakeBuffer { intermediate: EntryPtr, first: EntryPtr },
    /// Close the gap that the buffer entry leaves.
    Bypass { intermediate: EntryPtr, first: EntryPtr, next: EntryPtr },
    /// Go on with the entry at `current`; at the root entry the batch is over.
    Walk { current: EntryPtr },
}

impl Polling {
    /// Begins a poll.
    pub fn new() -> (polling: Polling)
        ensures
            polling == (Polling::EnterBuffer {
                schedule: Schedule { entry: EntryPtr::Buffer, stage: Stage::Claim },
            }),
    {
        Polling::EnterBuffer {
            schedule: Schedule::new(erase_entry_subheader(HeaderField::BufferEntry)),
        }
    }

    /// Whether the next step can be taken: what it reads or writes lies in the shared memory, and
    /// the buffer entry is not in the list when it is to be appended.
    pub open spec fn in_bounds(self, links: Links) -> bool {
        match self {
            Polling::EnterBuffer { schedule } => {
                &&& schedule.in_bounds(links)
                &&& schedule.stage is Claim ==> links.next[schedule.entry] == EntryPtr::Null
                &&& !(schedule.stage is Done)
            },
            Polling::EnterRoot { schedule, .. } => schedule.in_bounds(links),
            Polling::Bypass { intermediate, .. } => links.is_entry(intermediate),
            _ => true,
        }
    }

    /// What becomes of the poll and of the links in one step.
    pub open spec fn stepped(self, links: Links) -> (Polling, Links) {
        match self {
            Polling::EnterBuffer { schedule } => {
                let (schedule, links) = schedule.stepped(links);
                match schedule.stage {
                    Stage::Done { behind: Some(intermediate) } => (
                        Polling::Register { intermediate },
                        links,
                    ),
                    _ => (Polling::EnterBuffer { schedule }, links),
                }
            },
            Polling::Register { intermediate } => (Polling::TakeBatch { intermediate }, links),
            Polling::TakeBatch { intermediate } => (
                Polling::EnterRoot {
                    intermediate,
                    first: links.next[EntryPtr::Root],
                    schedule: Schedule { entry: EntryPtr::Root, stage: Stage::Claim },
                },
                links.linked(EntryPtr::Root, EntryPtr::Null),
            ),
            Polling::EnterRoot { intermediate, first, schedule } => {
                let (schedule, links) = schedule.stepped(links);
                match schedule.stage {
                    Stage::Done { .. } => (Polling::TakeBuffer { intermediate, first }, links),
                    _ => (Polling::EnterRoot { intermediate, first, schedule }, links),
                }
            },
            Polling::TakeBuffer { intermediate, first } => {
                let next = links.next[EntryPtr::Buffer];
                let links = links.linked(EntryPtr::Buffer, EntryPtr::Null);
                if intermediate == EntryPtr::Root {
                    (Polling::Walk { current: next }, links)
                } else {
                    (Polling::Bypass { intermediate, first, next }, links)
                }
            },
            Polling::Bypass { intermediate, first, next } => (
                Polling::Walk { current: first },
                links.linked(intermediate, next),
            ),
            Polling::Walk { .. } => (self, links),
        }
    }

    /// What the slot of the external waker may hold after one step with `waker` at hand.
    ///
    /// Only registering changes it. If the buffer entry stands behind the root entry, nothing has
    /// been scheduled since the last poll, and the waker of that poll may be kept.
    pub open spec fn may_hold(
        self,
        before: Option<Waker>,
        waker: Waker,
        after: Option<Waker>,
    ) -> bool {
        match self {
            Polling::Register { intermediate } => {
                if intermediate == EntryPtr::Root {
                    registered(before, waker, after)
                } else {
                    after is Some && cloned(waker, after->0)
                }
            },
            _ => after == before,
        }
    }

    /// Takes one step. A poll that has come to walk along the batch is left as it is.
    pub fn step<T: Future>(&mut self, base: &mut JoinImpl<T>, waker: &Waker)
        requires
            old(base).wf(),
            old(self).in_bounds(old(base)@.links),
        ensures
            final(base).wf(),
            *final(self) == old(self).stepped(old(base)@.links).0,
            old(self).may_hold(old(base)@.extern_waker, *waker, final(base)@.extern_waker),
            *old(self) is Register ==> {
                &&& final(base)@.extern_waker is Some
                &&& serves(final(base)@.extern_waker->0, *waker)
            },
            !(*old(self) is Register) ==> final(base)@.extern_waker == old(base)@.extern_waker,
            final(base)@ == (JoinView {
                links: old(self).stepped(old(base)@.links).1,
                extern_waker: final(base)@.extern_waker,
                ..old(base)@
            }),
    {
        let root = erase_entry_subheader(HeaderField::RootEntry);
        let buffer = erase_entry_subheader(HeaderField::BufferEntry);
        let next_state = match *self {
            Polling::EnterBuffer { schedule } => {
                let mut schedule = schedule;
                schedule.step(base);
                match schedule.stage {
                    Stage::Done { behind: Some(intermediate) } => Polling::Register {
                        intermediate,
                    },
                    _ => Polling::EnterBuffer { schedule },
                }
            },
            Polling::Register { intermediate } => {
                let ghost before = base@;
                if intermediate == root {
                    register_waker(&mut base.header.extern_waker, waker);
                } else {
                    settle_waker(&mut base.header.extern_waker, waker, false);
                }
                assert(base@ =~= JoinView { extern_waker: base@.extern_waker, ..before });
                Polling::TakeBatch { intermediate }
            },
            Polling::TakeBatch { intermediate } => {
                let first = base.swap_next(root, EntryPtr::Null);
                Polling::EnterRoot { intermediate, first, schedule: Schedule::new(root) }
            },
            Polling::EnterRoot { intermediate, first, schedule } => {
                let mut schedule = schedule;
                schedule.step(base);
                match schedule.stage {
                    Stage::Done { .. } => Polling::TakeBuffer { intermediate, first },
                    _ => Polling::EnterRoot { intermediate, first, schedule },
                }
            },
            Polling::TakeBuffer { intermediate, first } => {
                let next = base.swap_next(buffer, EntryPtr::Null);
                if intermediate == root {
                    // The batch began with the buffer entry.
                    Polling::Walk { current: next }
                } else {
                    Polling::Bypass { intermediate, first, next }
                }
            },
            Polling::Bypass { intermediate, first, next } => {
                let _ = base.swap_next(intermediate, next);
                Polling::Walk { current: first }
            },
            Polling::Walk { current } => Polling::Walk { current },
        };
        *self = next_state;
    }
}

} // verus!
