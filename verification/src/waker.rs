//! The wakers that a join hands to its futures.
use core::future::Future;
use core::task::Waker;
use vstd::prelude::*;
use crate::erased::{erase_entry_subheader, EntryPtr, HeaderField, JoinImpl, JoinView};
use crate::refcount::{dec_rc, inc_rc};
use crate::schedule::schedule_entry;

verus! {

/// A waker for the future of one entry.
pub struct EntryWaker {
    pub entry: EntryPtr,
}

/// A waker for the future of the entry at `current`.
///
/// It does not count as a user of the memory, but its clones do.
pub fn weak_waker(current: EntryPtr) -> (waker: EntryWaker)
    ensures
        waker.entry == current,
{
    EntryWaker { entry: current }
}

/// What a waker takes out of the slot of the external waker, once its entry stands behind
/// `behind`: only the one that came first after the root entry may use it.
pub fn take_extern_waker<T: Future>(base: &mut JoinImpl<T>, behind: Option<EntryPtr>) -> (waker:
    Option<Waker>)
    requires
        old(base).wf(),
    ensures
        final(base).wf(),
        waker == (if behind == Some(EntryPtr::Root) {
            old(base)@.extern_waker
        } else {
            None
        }),
        final(base)@ == (if behind == Some(EntryPtr::Root) {
            JoinView { extern_waker: None, ..old(base)@ }
        } else {
            old(base)@
        }),
{
    if let Some(last) = behind {
        if last == erase_entry_subheader(HeaderField::RootEntry) {
            let waker = base.header.extern_waker.take();
            assert(base@ =~= JoinView { extern_waker: None, ..old(base)@ });
            return waker;
        }
    }
    None
}

impl EntryWaker {
    /// Another waker for the same future. It counts as one more user of the memory.
    pub fn clone<T: Future>(&self, base: &mut JoinImpl<T>) -> (waker: EntryWaker)
        requires
            old(base).wf(),
        ensures
            final(base).wf(),
            waker == *self,
            final(base)@ == (JoinView { rc: old(base)@.rc.wrapping_add(1), ..old(base)@ }),
    {
        inc_rc(base);
        EntryWaker { entry: self.entry }
    }

    /// Schedules the future. Answers the external waker if that one is to be woken.
    pub fn wake_by_ref<T: Future>(&self, base: &mut JoinImpl<T>) -> (waker: Option<Waker>)
        requires
            old(base).wf(),
            old(base)@.links.is_entry(self.entry),
            old(base)@.links.settled(),
        ensures
            final(base).wf(),
            final(base)@ == old(base)@.woken(self.entry).0,
            waker == old(base)@.woken(self.entry).1,
            final(base)@.links.next[self.entry] != EntryPtr::Null,
            waker == (if old(base)@.links.next[self.entry] == EntryPtr::Null && old(
                base,
            )@.links.last == EntryPtr::Root {
                old(base)@.extern_waker
            } else {
                None
            }),
    {
        let behind = schedule_entry(self.entry, base);
        take_extern_waker(base, behind)
    }

    /// Schedules the future and gives this waker up. Answers the external waker if that one is to
    /// be woken, and whether the memory is to be freed.
    pub fn wake<T: Future>(self, base: &mut JoinImpl<T>) -> (answer: (Option<Waker>, bool))
        requires
            old(base).wf(),
            old(base)@.links.is_entry(self.entry),
            old(base)@.links.settled(),
        ensures
            final(base).wf(),
            final(base)@ == (JoinView {
                rc: old(base)@.rc.wrapping_sub(1),
                ..old(base)@.woken(self.entry).0
            }),
            answer.0 == old(base)@.woken(self.entry).1,
            answer.1 == (old(base)@.rc == 1),
    {
        let waker = self.wake_by_ref(base);
        (waker, self.drop_waker(base))
    }

    /// Gives this waker up. Answers whether the memory is to be freed.
    pub fn drop_waker<T: Future>(self, base: &mut JoinImpl<T>) -> (free: bool)
        requires
            old(base).wf(),
        ensures
            final(base).wf(),
            final(base)@ == (JoinView { rc: old(base)@.rc.wrapping_sub(1), ..old(base)@ }),
            free == (old(base)@.rc == 1),
    {
        dec_rc(base)
    }
}

impl<T> JoinView<T> where T: Future {
    /// The memory after the entry at `p` has been woken, and the external waker that is to be
    /// woken in turn.
    pub open spec fn woken(self, p: EntryPtr) -> (JoinView<T>, Option<Waker>) {
        if self.links.next[p] != EntryPtr::Null {
            (self, None)
        } else if self.links.last == EntryPtr::Root {
            (
                JoinView { links: self.links.appended(p), extern_waker: None, ..self },
                self.extern_waker,
            )
        } else {
            (JoinView { links: self.links.appended(p), ..self }, None)
        }
    }
}

} // verus!
