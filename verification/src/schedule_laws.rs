//! What the steps of a waker and of a poll come to when nothing else comes in between, and which
//! words of the shared memory they touch.
use core::future::Future;
use vstd::prelude::*;
use crate::erased::{EntryPtr, JoinImpl, Links};
use crate::join::Join;
use crate::join_laws::{
    a_list_is_idle, a_poll_takes_all_that_wait, a_poll_walks_along_its_batch,
    woken_entries_wait_in_order,
};
use crate::poll::Polling;
use crate::schedule::{Schedule, Stage};

verus! {

/// Changing the link of one entry leaves everything else as it is, and so does changing the last
/// entry.
pub proof fn one_word_is_changed(links: Links, p: EntryPtr, to: EntryPtr)
    ensures
        links.linked(p, to).next[p] == to,
        forall|x: EntryPtr|
            x != p && links.next.dom().contains(x) ==> #[trigger] links.linked(p, to).next[x]
                == links.next[x],
        links.linked(p, to).last == links.last,
        links.linked(p, to).count == links.count,
        links.published(p).last == p,
        links.published(p).next == links.next,
        links.published(p).count == links.count,
{
}

/// Appending an entry puts it behind the one that was the last, makes it the last one, and leaves all
/// other links as they are.
pub proof fn appending_puts_an_entry_behind_the_last(links: Links, p: EntryPtr)
    requires
        links.settled(),
        links.is_entry(p),
        p != links.last,
    ensures
        links.appended(p).next[links.last] == p,
        links.appended(p).next[p] == links.end(),
        links.appended(p).last == p,
        links.appended(p).count == links.count,
        links.appended(p).settled(),
        forall|x: EntryPtr|
            x != p && x != links.last && links.next.dom().contains(x)
                ==> #[trigger] links.appended(p).next[x] == links.next[x],
{
}

/// The view of the memory shows what lies in it.
pub proof fn the_view_shows_the_memory<T: Future>(base: JoinImpl<T>)
    ensures
        base@.rc == base.header.allocation_rc,
        base@.pending == base.header.pending_entry_count,
        base@.extern_waker == base.header.extern_waker,
        base@.links.last == base.header.last_to_poll,
        base@.links.count == base.entries@.len(),
        base@.links.next[EntryPtr::Root] == base.header.root_entry.next_scheduled,
        base@.links.next[EntryPtr::Buffer] == base.header.buffer_entry.next_scheduled,
        base@.futures.len() == base.entries@.len(),
        forall|i: int|
            0 <= i < base.entries@.len() ==> (#[trigger] base.entries@[i]).future
                == base@.futures[i],
        forall|i: usize|
            i < base.entries@.len() ==> base.entries@[i as int].header.inner.next_scheduled
                == #[trigger] base@.links.next[EntryPtr::At(i)],
        base.wf() <==> base.header.entry_count == base.entries@.len(),
{
}

/// A join whose links make up a list can be polled: a poll can begin when none is going on, and can
/// go on at each entry of its batch whose future is in its place, and at the root entry.
pub proof fn a_join_can_be_polled<F: Future>(
    join: Join<F>,
    batch: Seq<EntryPtr>,
    waiting: Seq<EntryPtr>,
)
    requires
        join.base.wf(),
        join@.links.represent(batch, waiting),
    ensures
        join.idle(),
        join.can_walk(EntryPtr::Root),
        batch.len() > 0 && join@.futures[batch[0]->At_0 as int] is Some ==> join.can_walk(batch[0]),
{
    a_list_is_idle(join@.links, batch, waiting);
    if batch.len() > 0 {
        a_poll_walks_along_its_batch(join@.links, batch, waiting);
    }
}

/// The only words that a step of an undertaking changes are: the link of its own entry, if that was
/// not scheduled; a link that marked the end of the list, which then leads to the entry; and the last
/// entry, which then is the entry.
pub proof fn an_undertaking_touches_only_its_own(schedule: Schedule, links: Links)
    requires
        schedule.in_bounds(links),
    ensures
        ({
            let (after, changed) = schedule.stepped(links);
            &&& after.entry == schedule.entry
            &&& changed.count == links.count
            &&& changed.last == links.last || (changed.last == schedule.entry && after.stage is Done)
            &&& forall|x: EntryPtr| links.is_entry(x) ==> {
                ||| #[trigger] changed.next[x] == links.next[x]
                ||| x == schedule.entry && links.next[x] == EntryPtr::Null && changed.next[x]
                    == links.end()
                ||| links.next[x] == links.end() && changed.next[x] == schedule.entry
            }
        }),
{
}

/// What becomes of an undertaking and of the links in `n` steps.
pub open spec fn schedule_run(schedule: Schedule, links: Links, n: nat) -> (Schedule, Links)
    decreases n,
{
    if n == 0 {
        (schedule, links)
    } else {
        let (schedule, links) = schedule.stepped(links);
        schedule_run(schedule, links, (n - 1) as nat)
    }
}

/// A waker that is not interrupted has put its entry behind all that wait after four steps, unless
/// the entry was in the list already; and it knows behind which one.
pub proof fn a_waker_alone_appends_its_entry(
    links: Links,
    batch: Seq<EntryPtr>,
    waiting: Seq<EntryPtr>,
    entry: EntryPtr,
)
    requires
        links.represent(batch, waiting),
        links.has_future(entry),
        links.count <= usize::MAX,
    ensures
        ({
            let list = Links::list(batch, waiting);
            let (schedule, after) = schedule_run(
                Schedule { entry, stage: Stage::Claim },
                links,
                4,
            );
            if list.contains(entry) {
                schedule.stage == (Stage::Done { behind: None }) && after == links
            } else {
                &&& schedule.stage == (Stage::Done { behind: Some(list.last()) })
                &&& after.represent(batch, waiting.push(entry))
                &&& after.count == links.count
            }
        }),
{
    reveal_with_fuel(schedule_run, 5);
    woken_entries_wait_in_order(links, batch, waiting, entry);
    a_list_is_idle(links, batch, waiting);
    let list = Links::list(batch, waiting);
    if !list.contains(entry) {
        assert(list[list.len() - 1] == links.last);
        assert(list.contains(links.last));
        let (schedule, after) = schedule_run(Schedule { entry, stage: Stage::Claim }, links, 4);
        assert(after =~= links.appended(entry));
    }
}

/// What becomes of a poll and of the links in `n` steps.
pub open spec fn poll_run(polling: Polling, links: Links, n: nat) -> (Polling, Links)
    decreases n,
{
    if n == 0 {
        (polling, links)
    } else {
        let (polling, links) = polling.stepped(links);
        poll_run(polling, links, (n - 1) as nat)
    }
}

/// A poll that is not interrupted has made all that wait its batch after twelve steps, in their
/// order, and stands at the first of them.
pub proof fn a_poll_alone_takes_all_that_wait(links: Links, waiting: Seq<EntryPtr>)
    requires
        links.represent(Seq::empty(), waiting),
        links.count <= usize::MAX,
        forall|x: EntryPtr| links.is_entry(x) ==> #[trigger] links.next.dom().contains(x),
    ensures
        ({
            let (polling, after) = poll_run(
                Polling::EnterBuffer {
                    schedule: Schedule { entry: EntryPtr::Buffer, stage: Stage::Claim },
                },
                links,
                12,
            );
            &&& polling == (Polling::Walk { current: Links::list(waiting, Seq::empty())[0] })
            &&& after.represent(waiting, Seq::empty())
            &&& after.count == links.count
        }),
{
    a_list_is_idle(links, Seq::empty(), waiting);
    a_poll_takes_all_that_wait(links, waiting);
    let list = Links::list(Seq::empty(), waiting);
    assert(list[list.len() - 1] == links.last);
    assert(list[0] == EntryPtr::Root);
    assert(links.last != EntryPtr::Buffer);
    let polling = Polling::EnterBuffer {
        schedule: Schedule { entry: EntryPtr::Buffer, stage: Stage::Claim },
    };
    assert(links.is_entry(EntryPtr::Buffer) && links.is_entry(EntryPtr::Root));
    lemma_poll_runs(links, polling);
}

/// The twelve steps one after the other.
proof fn lemma_poll_runs(links: Links, polling: Polling)
    requires
        links.settled(),
        links.count <= usize::MAX,
        links.next[EntryPtr::Buffer] == EntryPtr::Null,
        links.last != EntryPtr::Buffer,
        polling == (Polling::EnterBuffer {
            schedule: Schedule { entry: EntryPtr::Buffer, stage: Stage::Claim },
        }),
        links.next.dom().contains(EntryPtr::Buffer),
        links.next.dom().contains(EntryPtr::Root),
        links.next.dom().contains(links.last),
    ensures
        poll_run(polling, links, 12).0 == (Polling::Walk { current: links.batch() }),
        poll_run(polling, links, 12).1 == links.batch_taken(),
{
    reveal_with_fuel(poll_run, 13);
    let (polling, after) = poll_run(polling, links, 12);
    assert(after =~= links.batch_taken());
}

} // verus!
