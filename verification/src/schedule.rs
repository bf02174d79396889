//! Appending an entry to the list of scheduled entries.
//!
//! Several wakers may append at the same time, and a poll may take entries off the list
//! meanwhile. A [`Schedule`] is one such undertaking; each of its steps is one indivisible
//! operation on the shared memory, so the steps of several undertakings may come in any order.
use core::future::Future;
use vstd::prelude::*;
use crate::erased::{erase_entry, header, EntryPtr, JoinImpl, JoinView, Links};

verus! {

/// What an undertaking does next.
#[derive(Clone, Copy, Debug, PartialEq, Eq, Structural)]
pub enum Stage {
    /// Claim the entry by marking it as scheduled.
    Claim,
    /// Read which entry is the last one.
    FindLast,
    /// Link the entry behind `last`.
    Link { last: EntryPtr },
    /// Make the entry the last one, as soon as `last` is.
    Publish { last: EntryPtr },
    /// Nothing: the entry stands behind this one, or had been scheduled before.
    Done { behind: Option<EntryPtr> },
}

/// An undertaking to append `entry`.
#[derive(Clone, Copy, Debug, PartialEq, Eq, Structural)]
pub struct Schedule {
    pub entry: EntryPtr,
    pub stage: Stage,
}

impl Schedule {
    /// Begins to append `entry`.
    pub fn new(entry: EntryPtr) -> (schedule: Schedule)
        ensures
            schedule == (Schedule { entry, stage: Stage::Claim }),
    {
        Schedule { entry, stage: Stage::Claim }
    }

    /// Whether what the next step reads or writes lies in the shared memory.
    pub open spec fn in_bounds(self, links: Links) -> bool {
        &&& links.is_entry(self.entry)
        &&& self.stage matches Stage::Link { last } ==> links.is_entry(last)
    }

    /// The undertaking at another stage.
    pub open spec fn at(self, stage: Stage) -> Schedule {
        Schedule { stage, ..self }
    }

    /// What becomes of the undertaking and of the links in one step.
    pub open spec fn stepped(self, links: Links) -> (Schedule, Links) {
        match self.stage {
            Stage::Claim => if links.next[self.entry] == EntryPtr::Null {
                (self.at(Stage::FindLast), links.linked(self.entry, links.end()))
            } else {
                (self.at(Stage::Done { behind: None }), links)
            },
            Stage::FindLast => (self.at(Stage::Link { last: links.last }), links),
            Stage::Link { last } => if links.next[last] == links.end() {
                (self.at(Stage::Publish { last }), links.linked(last, self.entry))
            } else {
                (self.at(Stage::FindLast), links)
            },
            Stage::Publish { last } => if links.last == last {
                (self.at(Stage::Done { behind: Some(last) }), links.published(self.entry))
            } else {
                (self, links)
            },
            Stage::Done { .. } => (self, links),
        }
    }

    /// Takes one step.
    pub fn step<T: Future>(&mut self, base: &mut JoinImpl<T>)
        requires
            old(base).wf(),
            old(self).in_bounds(old(base)@.links),
        ensures
            final(base).wf(),
            *final(self) == old(self).stepped(old(base)@.links).0,
            final(base)@ == (JoinView {
                links: old(self).stepped(old(base)@.links).1,
                ..old(base)@
            }),
            final(self).entry == old(self).entry,
            !(old(self).stage is Done) ==> (final(self).stage matches Stage::Done { behind } ==> {
                match behind {
                    None => old(base)@.links.next[old(self).entry] != EntryPtr::Null,
                    Some(last) => old(base)@.links.last == last && final(base)@.links.last == old(
                        self,
                    ).entry,
                }
            }),
            old(self).stage is Claim ==> final(base)@.links.next[old(self).entry] != EntryPtr::Null,
    {
        let end = erase_entry(header(base).entry_count);
        let stage = match self.stage {
            Stage::Claim => if base.exchange_next(self.entry, EntryPtr::Null, end) {
                Stage::FindLast
            } else {
                Stage::Done { behind: None }
            },
            Stage::FindLast => Stage::Link { last: base.load_last() },
            // If something stands behind `last`, its own undertaking has yet to publish it. If
            // `last` is no longer scheduled, a poll has taken it off the list, and the entry has
            // to go to the next batch. Either way another entry is, or will be, the last one.
            Stage::Link { last } => if base.exchange_next(last, end, self.entry) {
                Stage::Publish { last }
            } else {
                Stage::FindLast
            },
            Stage::Publish { last } => if base.exchange_last(last, self.entry) {
                Stage::Done { behind: Some(last) }
            } else {
                Stage::Publish { last }
            },
            Stage::Done { behind } => Stage::Done { behind },
        };
        self.stage = stage;
    }
}

impl Links {
    /// No undertaking stands between linking and publishing: nothing is behind the last entry.
    pub open spec fn settled(self) -> bool {
        &&& self.is_entry(self.last)
        &&& self.next[self.last] == self.end()
    }

    /// The links after `entry` has been appended.
    pub open spec fn appended(self, entry: EntryPtr) -> Links {
        self.linked(entry, self.end()).linked(self.last, entry).published(entry)
    }
}

/// The number of steps that are left when nothing else comes in between.
pub open spec fn stage_rank(stage: Stage) -> int {
    match stage {
        Stage::Claim => 4,
        Stage::FindLast => 3,
        Stage::Link { .. } => 2,
        Stage::Publish { .. } => 1,
        Stage::Done { .. } => 0,
    }
}

/// Appends `entry`, unless it is scheduled already, and answers behind which entry it stands.
pub fn schedule_entry<T: Future>(entry: EntryPtr, base: &mut JoinImpl<T>) -> (behind: Option<
    EntryPtr,
>)
    requires
        old(base).wf(),
        old(base)@.links.is_entry(entry),
        old(base)@.links.settled(),
    ensures
        final(base).wf(),
        behind == (if old(base)@.links.next[entry] == EntryPtr::Null {
            Some(old(base)@.links.last)
        } else {
            None
        }),
        final(base)@ == (if behind is Some {
            JoinView { links: old(base)@.links.appended(entry), ..old(base)@ }
        } else {
            old(base)@
        }),
{
    let mut schedule = Schedule::new(entry);
    loop
        invariant
            base.wf(),
            schedule.entry == entry,
            old(base)@.links.is_entry(entry),
            old(base)@.links.settled(),
            match schedule.stage {
                Stage::Claim => base@ == old(base)@,
                Stage::FindLast => old(base)@.links.next[entry] == EntryPtr::Null && base@ == (
                JoinView {
                    links: old(base)@.links.linked(entry, old(base)@.links.end()),
                    ..old(base)@
                }),
                Stage::Link { last } => old(base)@.links.next[entry] == EntryPtr::Null && last
                    == old(base)@.links.last && base@ == (JoinView {
                    links: old(base)@.links.linked(entry, old(base)@.links.end()),
                    ..old(base)@
                }),
                Stage::Publish { last } => old(base)@.links.next[entry] == EntryPtr::Null && last
                    == old(base)@.links.last && base@ == (JoinView {
                    links: old(base)@.links.linked(entry, old(base)@.links.end()).linked(
                        last,
                        entry,
                    ),
                    ..old(base)@
                }),
                Stage::Done { behind: None } => old(base)@.links.next[entry] != EntryPtr::Null
                    && base@ == old(base)@,
                Stage::Done { behind: Some(last) } => old(base)@.links.next[entry]
                    == EntryPtr::Null && last == old(base)@.links.last && base@ == (JoinView {
                    links: old(base)@.links.appended(entry),
                    ..old(base)@
                }),
            },
        decreases stage_rank(schedule.stage),
    {
        if let Stage::Done { behind } = schedule.stage {
            return behind;
        }
        schedule.step(base);
    }
}

} // verus!
