//! What the operations of a join do to the list of scheduled entries.
//!
//! The list has two parts: what is left of the batch that a poll walks along, and the entries that
//! wait for the next poll. The root entry stands between them.
use core::future::Future;
use core::task::Poll;
use core::task::Waker;
use vstd::prelude::*;
use crate::erased::{EntryPtr, JoinView, Links};
use crate::fused_future::FusedFuture;
use crate::join::initial_links;

verus! {

impl Links {
    /// The whole list: the rest of the batch, the root entry, the waiting entries.
    pub open spec fn list(batch: Seq<EntryPtr>, waiting: Seq<EntryPtr>) -> Seq<EntryPtr> {
        batch + seq![EntryPtr::Root] + waiting
    }

    /// The links make up the list of `batch` and `waiting`: each entry points to the one behind
    /// it, the last one to the end, and an entry that is not in the list points nowhere.
    pub open spec fn represent(self, batch: Seq<EntryPtr>, waiting: Seq<EntryPtr>) -> bool {
        let list = Links::list(batch, waiting);
        &&& list.no_duplicates()
        &&& forall|k: int|
            0 <= k < list.len() ==> self.is_entry(#[trigger] list[k]) && list[k]
                != EntryPtr::Buffer
        &&& forall|k: int, l: int|
            0 <= k && l == k + 1 && l < list.len() ==> self.next[#[trigger] list[k]]
                == #[trigger] list[l]
        &&& self.last == list.last()
        &&& self.next[list.last()] == self.end()
        &&& forall|p: EntryPtr|
            self.is_entry(p) && !list.contains(p) ==> #[trigger] self.next[p] == EntryPtr::Null
    }
}

/// A new join waits to poll all of its futures, in order.
pub proof fn all_entries_wait_at_first(count: usize)
    ensures
        initial_links(count as nat).represent(
            Seq::empty(),
            Seq::new(count as nat, |i: int| EntryPtr::At(i as usize)),
        ),
        initial_links(count as nat).count == count,
{
    let batch: Seq<EntryPtr> = Seq::empty();
    let waiting = Seq::new(count as nat, |i: int| EntryPtr::At(i as usize));
    let list = Links::list(batch, waiting);
    assert(list =~= Seq::new(
        (count + 1) as nat,
        |k: int|
            if k == 0 {
                EntryPtr::Root
            } else {
                EntryPtr::At((k - 1) as usize)
            },
    ));
    let links = initial_links(count as nat);
    assert forall|p: EntryPtr|
        links.is_entry(p) && !list.contains(p) implies #[trigger] links.next[p]
        == EntryPtr::Null by {
        if p is At {
            assert(list[p->At_0 as int + 1] == p);
        } else if p is Root {
            assert(list[0] == p);
        }
    }
}

/// In a represented list no waker is in the midst of appending, and the buffer entry is out.
pub proof fn a_list_is_idle(links: Links, batch: Seq<EntryPtr>, waiting: Seq<EntryPtr>)
    requires
        links.represent(batch, waiting),
    ensures
        links.settled(),
        links.next[EntryPtr::Buffer] == EntryPtr::Null,
{
    let list = Links::list(batch, waiting);
    assert(list[list.len() - 1] == links.last);
    assert(links.is_entry(EntryPtr::Buffer));
}

/// Waking an entry that is not scheduled puts it behind all that wait. Waking one that is
/// scheduled changes nothing, so no entry is ever twice in the list.
pub proof fn woken_entries_wait_in_order(
    links: Links,
    batch: Seq<EntryPtr>,
    waiting: Seq<EntryPtr>,
    entry: EntryPtr,
)
    requires
        links.represent(batch, waiting),
        links.has_future(entry),
    ensures
        links.next[entry] == EntryPtr::Null <==> !Links::list(batch, waiting).contains(entry),
        links.next[entry] == EntryPtr::Null ==> links.appended(entry).represent(
            batch,
            waiting.push(entry),
        ),
{
    let list = Links::list(batch, waiting);
    if list.contains(entry) {
        let k = choose|k: int| 0 <= k < list.len() && list[k] == entry;
        if k + 1 < list.len() {
            assert(links.is_entry(list[k + 1]));
            assert(links.next[list[k]] == list[k + 1]);
        }
    } else {
        let longer = Links::list(batch, waiting.push(entry));
        assert(longer =~= list.push(entry));
        let after = links.appended(entry);
        assert forall|k: int, l: int| 0 <= k && l == k + 1 && l < longer.len() implies after.next[
        #[trigger] longer[k]] == #[trigger] longer[l] by {
            if l < list.len() {
                assert(links.next[list[k]] == list[l]);
                assert(list[k] != list[list.len() - 1]);
                assert(list.contains(list[k]));
            } else {
                assert(longer[k] == list.last());
            }
        }
        assert(list.contains(list.last()));
        assert forall|p: EntryPtr|
            after.is_entry(p) && !longer.contains(p) implies #[trigger] after.next[p]
            == EntryPtr::Null by {
            assert(longer[list.len() as int] == entry);
            if list.contains(p) {
                let k = choose|k: int| 0 <= k < list.len() && list[k] == p;
                assert(longer[k] == p);
            }
        }
    }
}

/// A poll takes all entries that wait, in their order, as its batch.
pub proof fn a_poll_takes_all_that_wait(links: Links, waiting: Seq<EntryPtr>)
    requires
        links.represent(Seq::empty(), waiting),
    ensures
        links.batch_taken().represent(waiting, Seq::empty()),
        links.batch() == Links::list(waiting, Seq::empty())[0],
        links.batch_taken().count == links.count,
{
    let list = Links::list(Seq::empty(), waiting);
    let turned = Links::list(waiting, Seq::empty());
    assert(list =~= seq![EntryPtr::Root] + waiting);
    assert(turned =~= waiting.push(EntryPtr::Root));
    let after = links.batch_taken();
    assert(list[0] == EntryPtr::Root);
    if waiting.len() > 0 {
        assert(links.next[list[0]] == list[1]);
        assert(list.last() == waiting.last());
        assert(list[list.len() - 1] != list[0]);
        assert forall|k: int|
            0 <= k < waiting.len() implies turned[k] == #[trigger] list[k + 1] by {}
        assert forall|k: int, l: int| 0 <= k && l == k + 1 && l < turned.len() implies after.next[
        #[trigger] turned[k]] == #[trigger] turned[l] by {
            assert(turned[k] == list[k + 1]);
            assert(list[k + 1] != list[0]);
            if l < waiting.len() {
                assert(turned[l] == list[l + 1]);
                assert(links.next[list[k + 1]] == list[l + 1]);
                assert(list[k + 1] != list[list.len() - 1]);
            }
        }
        assert forall|p: EntryPtr|
            after.is_entry(p) && !turned.contains(p) implies #[trigger] after.next[p]
            == EntryPtr::Null by {
            assert(turned[waiting.len() as int] == EntryPtr::Root);
            if list.contains(p) {
                let k = choose|k: int| 0 <= k < list.len() && list[k] == p;
                assert(k > 0);
                assert(turned[k - 1] == p);
            }
            assert(turned[waiting.len() - 1] == list.last());
        }
        assert forall|k: int| 0 <= k < turned.len() implies after.is_entry(#[trigger] turned[k])
            && turned[k] != EntryPtr::Buffer by {
            if k < waiting.len() {
                assert(turned[k] == list[k + 1]);
            }
        }
        assert(turned.no_duplicates()) by {
            assert forall|a: int, b: int|
                0 <= a < b < turned.len() implies turned[a] != turned[b] by {
                assert(turned[a] == list[a + 1]);
                if b < waiting.len() {
                    assert(turned[b] == list[b + 1]);
                }
            }
        }
    } else {
        assert(turned =~= list);
    }
}

/// A poll that goes on to the next entry takes the first one off the batch, and comes to the one
/// behind it; at the root entry the batch is over.
pub proof fn a_poll_walks_along_its_batch(
    links: Links,
    batch: Seq<EntryPtr>,
    waiting: Seq<EntryPtr>,
)
    requires
        links.represent(batch, waiting),
        batch.len() > 0,
    ensures
        links.linked(batch[0], EntryPtr::Null).represent(batch.drop_first(), waiting),
        links.next[batch[0]] == Links::list(batch.drop_first(), waiting)[0],
        links.has_future(batch[0]),
        batch[0] != EntryPtr::Root,
{
    let list = Links::list(batch, waiting);
    let rest = Links::list(batch.drop_first(), waiting);
    let after = links.linked(batch[0], EntryPtr::Null);
    assert(rest =~= list.drop_first());
    assert(list[0] == batch[0]);
    assert(list[batch.len() as int] == EntryPtr::Root);
    assert(links.is_entry(list[0]));
    assert(links.next[list[0]] == list[1]);
    assert(rest.last() == list.last());
    assert(list[list.len() - 1] != list[0]);
    assert forall|k: int, l: int| 0 <= k && l == k + 1 && l < rest.len() implies after.next[
    #[trigger] rest[k]] == #[trigger] rest[l] by {
        assert(rest[k] == list[k + 1]);
        assert(rest[l] == list[l + 1]);
        assert(list[k + 1] != list[0]);
    }
    assert forall|p: EntryPtr|
        after.is_entry(p) && !rest.contains(p) implies #[trigger] after.next[p]
        == EntryPtr::Null by {
        if list.contains(p) {
            let k = choose|k: int| 0 <= k < list.len() && list[k] == p;
            if k > 0 {
                assert(rest[k - 1] == p);
            }
        }
    }
}

/// Of the wake-ups between two polls only the first one is passed on to the external waker. Each of
/// them puts its entry behind all that wait, unless it is scheduled already.
pub proof fn only_the_first_wake_up_is_passed_on<F: Future>(
    join: JoinView<F>,
    batch: Seq<EntryPtr>,
    waiting: Seq<EntryPtr>,
    entry: EntryPtr,
)
    requires
        join.links.represent(batch, waiting),
        join.links.has_future(entry),
    ensures
        join.links.next[entry] != EntryPtr::Null ==> join.woken(entry) == (join, None::<Waker>),
        join.links.next[entry] == EntryPtr::Null ==> {
            &&& join.woken(entry).0.links.represent(batch, waiting.push(entry))
            &&& join.woken(entry).1 == (if waiting.len() == 0 {
                join.extern_waker
            } else {
                None
            })
        },
{
    woken_entries_wait_in_order(join.links, batch, waiting, entry);
    let list = Links::list(batch, waiting);
    assert(list[batch.len() as int] == EntryPtr::Root);
    if waiting.len() == 0 {
        assert(list.last() == EntryPtr::Root);
    } else {
        assert(list[list.len() - 1] != list[batch.len() as int]);
    }
}

/// A wake-up leaves the futures, their number, the number of the pending ones and the count of users
/// as they are. It takes the external waker out of its slot exactly if it hands it out, and leaves
/// its entry scheduled.
pub proof fn a_wake_up_leaves_the_rest<F: Future>(join: JoinView<F>, entry: EntryPtr)
    requires
        join.links.has_future(entry),
        join.links.settled(),
        join.links.count <= usize::MAX,
    ensures
        ({
            let (after, handed_out) = join.woken(entry);
            &&& after.futures == join.futures
            &&& after.pending == join.pending
            &&& after.rc == join.rc
            &&& after.links.count == join.links.count
            &&& after.links.next[entry] != EntryPtr::Null
            &&& forall|x: EntryPtr|
                join.links.is_entry(x) && join.links.next[x] != EntryPtr::Null
                    ==> #[trigger] after.links.next[x] != EntryPtr::Null
            &&& handed_out is Some ==> handed_out == join.extern_waker
            &&& after.extern_waker == join.extern_waker || (handed_out == join.extern_waker
                && after.extern_waker is None)
            &&& handed_out is Some ==> after.extern_waker is None
        }),
{
}

/// Taking the future at `i` out, to be polled, and putting it back concerns its own entry alone.
pub proof fn a_future_is_put_back_in_its_place<F: Future>(
    join: JoinView<F>,
    i: int,
    future: FusedFuture<F>,
    inner: Poll<F::Output>,
)
    requires
        0 <= i < join.futures.len(),
    ensures
        ({
            let after = join.finished(i, future, inner);
            &&& after.futures.len() == join.futures.len()
            &&& forall|j: int|
                0 <= j < join.futures.len() && j != i ==> #[trigger] after.futures[j]
                    == join.futures[j]
            &&& after.futures[i] == Some(
                match (future, inner) {
                    (FusedFuture::Pending(_), Poll::Ready(output)) => FusedFuture::<F>::Ready(
                        output,
                    ),
                    _ => future,
                },
            )
            &&& after.links == join.links
            &&& after.rc == join.rc
            &&& after.extern_waker == join.extern_waker
        }),
{
}

/// Taking the future of an entry out to be polled takes that entry off the list and leaves all others
/// where they are.
pub proof fn a_future_is_taken_from_its_place<F: Future>(join: JoinView<F>, i: usize)
    requires
        i < join.futures.len(),
    ensures
        ({
            let after = join.taken(i);
            &&& after.futures.len() == join.futures.len()
            &&& after.futures[i as int] is None
            &&& forall|j: int|
                0 <= j < join.futures.len() && j != i ==> #[trigger] after.futures[j]
                    == join.futures[j]
            &&& after.links.next[EntryPtr::At(i)] == EntryPtr::Null
            &&& forall|x: EntryPtr|
                x != EntryPtr::At(i) && join.links.next.dom().contains(x)
                    ==> #[trigger] after.links.next[x] == join.links.next[x]
            &&& after.links.last == join.links.last
            &&& after.links.count == join.links.count
            &&& after.pending == join.pending
            &&& after.rc == join.rc
            &&& after.extern_waker == join.extern_waker
        }),
{
}

/// Shutting a join makes the buffer entry the last one. From then on no wake-up is passed on to the
/// external waker, and none changes that.
pub proof fn a_shut_join_wakes_nobody<F: Future>(join: JoinView<F>, entry: EntryPtr)
    requires
        join.links.has_future(entry),
    ensures
        join.links.appended(EntryPtr::Buffer).last == EntryPtr::Buffer,
        ({
            let shut = JoinView { links: join.links.appended(EntryPtr::Buffer), ..join };
            &&& shut.woken(entry).1 is None
            &&& shut.woken(entry).0.links.last != EntryPtr::Root
        }),
        join.links.last != EntryPtr::Root ==> {
            &&& join.woken(entry).1 is None
            &&& join.woken(entry).0.links.last != EntryPtr::Root
        },
{
}

/// Whether the future in this slot has not finished.
pub open spec fn unfinished<F: Future>(slot: Option<FusedFuture<F>>) -> bool {
    !(slot matches Some(FusedFuture::Ready(_)))
}

/// The number of futures that have not finished.
pub open spec fn unfinished_count<F: Future>(futures: Seq<Option<FusedFuture<F>>>) -> nat
    decreases futures.len(),
{
    if futures.len() == 0 {
        0
    } else {
        unfinished_count(futures.drop_last()) + (if unfinished(futures.last()) {
            1nat
        } else {
            0nat
        })
    }
}

pub(crate) proof fn lemma_count_updated<F: Future>(
    futures: Seq<Option<FusedFuture<F>>>,
    i: int,
    slot: Option<FusedFuture<F>>,
)
    requires
        0 <= i < futures.len(),
    ensures
        unfinished_count(futures.update(i, slot)) - unfinished_count(futures) == (if unfinished(
            slot,
        ) {
            1int
        } else {
            0int
        }) - (if unfinished(futures[i]) {
            1int
        } else {
            0int
        }),
    decreases futures.len(),
{
    let updated = futures.update(i, slot);
    if i == futures.len() - 1 {
        assert(updated.drop_last() =~= futures.drop_last());
    } else {
        lemma_count_updated(futures.drop_last(), i, slot);
        assert(updated.drop_last() =~= futures.drop_last().update(i, slot));
    }
}

proof fn lemma_count_full<F: Future>(futures: Seq<Option<FusedFuture<F>>>)
    requires
        forall|i: int| 0 <= i < futures.len() ==> unfinished(#[trigger] futures[i]),
    ensures
        unfinished_count(futures) == futures.len(),
    decreases futures.len(),
{
    if futures.len() > 0 {
        lemma_count_full(futures.drop_last());
    }
}

/// At first the number of pending futures is the number of those that have not finished.
pub proof fn all_futures_are_pending_at_first<F: Future>(v: Seq<F>)
    ensures
        unfinished_count(v.map_values(|future: F| Some(FusedFuture::<F>::Pending(future))))
            == v.len(),
{
    lemma_count_full(v.map_values(|future: F| Some(FusedFuture::<F>::Pending(future))));
}

/// The number of pending futures stays the number of those that have not finished when a future is
/// polled, whatever it answers and whether or not it had finished before; and there is one to be
/// counted off if it finishes.
pub proof fn pending_futures_are_the_unfinished<F: Future>(
    join: JoinView<F>,
    i: usize,
    inner: Poll<F::Output>,
)
    requires
        i < join.futures.len(),
        join.futures[i as int] is Some,
        join.pending == unfinished_count(join.futures),
    ensures
        ({
            let future = join.futures[i as int]->0;
            let after = join.taken(i).finished(i as int, future, inner);
            &&& after.pending == unfinished_count(after.futures)
            &&& future is Pending && inner is Ready ==> join.taken(i).pending > 0
        }),
{
    let future = join.futures[i as int]->0;
    lemma_count_updated(join.futures, i as int, None);
    lemma_count_updated(
        join.futures.update(i as int, None),
        i as int,
        Some(future.polled(inner)),
    );
}

/// As long as the pending futures are the ones that have not finished, a join is complete exactly
/// when all of its futures have finished, and then it holds all of their outputs.
pub proof fn a_complete_join_holds_all_outputs<F: Future>(join: JoinView<F>)
    requires
        join.pending == unfinished_count(join.futures),
    ensures
        join.pending == 0 <==> forall|i: int|
            0 <= i < join.futures.len() ==> (#[trigger] join.futures[i] matches Some(
                FusedFuture::Ready(_),
            )),
{
    lemma_count_empty(join.futures);
}

proof fn lemma_count_empty<F: Future>(futures: Seq<Option<FusedFuture<F>>>)
    ensures
        unfinished_count(futures) == 0 <==> forall|i: int|
            0 <= i < futures.len() ==> !unfinished(#[trigger] futures[i]),
    decreases futures.len(),
{
    if futures.len() > 0 {
        let shorter = futures.drop_last();
        lemma_count_empty(shorter);
        if forall|i: int| 0 <= i < futures.len() ==> !unfinished(#[trigger] futures[i]) {
            assert forall|i: int| 0 <= i < shorter.len() implies !unfinished(
                #[trigger] shorter[i],
            ) by {
                assert(shorter[i] == futures[i]);
            }
            assert(!unfinished(futures[futures.len() - 1]));
        } else if unfinished_count(futures) == 0 {
            assert forall|i: int| 0 <= i < futures.len() implies !unfinished(
                #[trigger] futures[i],
            ) by {
                if i < shorter.len() {
                    assert(!unfinished(shorter[i]));
                }
            }
        }
    }
}

} // verus!
