//! What holds of a join, its futures and its wakers in whatever order they are used.
//!
//! Here every operation is taken as a whole; [`crate::interleaving`] is about their single steps.
use core::future::Future;
use core::task::Poll;
use core::task::Waker;
use vstd::prelude::*;
use crate::erased::{EntryPtr, JoinView, Links};
use crate::fused_future::{an_answer_is_kept, FusedFuture};
use crate::join::initial_links;
use crate::join_laws::{
    a_complete_join_holds_all_outputs, a_future_is_put_back_in_its_place, a_list_is_idle, a_poll_takes_all_that_wait,
    a_poll_walks_along_its_batch, all_entries_wait_at_first, all_futures_are_pending_at_first,
    a_wake_up_leaves_the_rest, lemma_count_updated, only_the_first_wake_up_is_passed_on, unfinished, unfinished_count,
};

verus! {

/// A join and the poll that is going on.
#[verifier::reject_recursive_types(F)]
pub struct JoinSystem<F> where F: Future {
    pub join: JoinView<F>,
    /// Where the poll is, if one is going on.
    pub current: Option<EntryPtr>,
    /// The future that has been taken out to be polled, with its index.
    pub out: Option<(usize, FusedFuture<F>)>,
    /// What has become of each future: the future itself, or the output it has come to.
    pub own: Seq<FusedFuture<F>>,
    /// The external waker, if it has been registered and not been woken since.
    pub slot: Option<Waker>,
    /// The entries that have been woken since they were last taken off the list.
    pub due: Set<EntryPtr>,
    /// The entries that were scheduled when the poll began and that it has not come to yet.
    pub owed: Set<EntryPtr>,
}

/// What can happen next.
#[verifier::reject_recursive_types(F)]
pub enum JoinMove<F> where F: Future {
    /// The future of an entry is woken.
    Wake { entry: EntryPtr },
    /// A poll begins and registers `waker`.
    StartPoll { waker: Waker },
    /// The poll takes the next future out.
    NextEntry,
    /// The future that has been taken out answers `inner` to the poll, which makes it `left`, and is
    /// put back. If it had finished before, it is put back as it is.
    FinishEntry { left: F, inner: Poll<F::Output> },
    /// The batch is over and the poll answers.
    FinishPoll,
}

impl<F> JoinSystem<F> where F: Future {
    /// The join of the futures in `v`.
    pub open spec fn initial(self, v: Seq<F>) -> bool {
        &&& v.len() <= usize::MAX
        &&& self.join.links == initial_links(v.len())
        &&& self.join.pending == v.len()
        &&& self.join.futures == v.map_values(
            |future: F| Some(FusedFuture::<F>::Pending(future)),
        )
        &&& self.join.rc == 1
        &&& self.join.extern_waker is None
        &&& self.current is None
        &&& self.out is None
        &&& self.own == v.map_values(|future: F| FusedFuture::<F>::Pending(future))
        &&& self.slot is None
        &&& self.due == Set::<EntryPtr>::empty()
        &&& self.owed == Set::<EntryPtr>::empty()
    }

    /// Whether the entry at `x` has a future and is scheduled.
    pub open spec fn is_scheduled(self, x: EntryPtr) -> bool {
        self.join.links.has_future(x) && self.join.links.next[x] != EntryPtr::Null
    }

    /// Whether no entry waits for the next poll: nothing stands behind the root entry.
    pub open spec fn none_waits(self) -> bool {
        self.join.links.next[EntryPtr::Root] == self.join.links.end()
    }

    /// What `m` makes of the system.
    pub open spec fn moves(self, next: JoinSystem<F>, m: JoinMove<F>) -> bool {
        match m {
            JoinMove::Wake { entry } => {
                &&& self.join.links.has_future(entry)
                &&& next == (JoinSystem {
                    join: self.join.woken(entry).0,
                    slot: if !self.is_scheduled(entry) && self.none_waits() {
                        None
                    } else {
                        self.slot
                    },
                    due: self.due.insert(entry),
                    ..self
                })
            },
            JoinMove::StartPoll { waker } => {
                &&& self.current is None
                &&& next == (JoinSystem {
                    join: JoinView {
                        links: self.join.links.batch_taken(),
                        extern_waker: Some(waker),
                        ..self.join
                    },
                    current: Some(self.join.links.batch()),
                    slot: Some(waker),
                    owed: Set::new(|x: EntryPtr| self.is_scheduled(x)),
                    ..self
                })
            },
            JoinMove::NextEntry => {
                &&& self.out is None
                &&& self.current matches Some(EntryPtr::At(i))
                &&& next == (JoinSystem {
                    join: self.join.taken(i),
                    current: Some(self.join.links.next[EntryPtr::At(i)]),
                    out: Some((i, self.join.futures[i as int]->0)),
                    due: self.due.remove(EntryPtr::At(i)),
                    owed: self.owed.remove(EntryPtr::At(i)),
                    ..self
                })
            },
            JoinMove::FinishEntry { left, inner } => {
                &&& self.out matches Some((i, future))
                &&& next == (JoinSystem {
                    join: self.join.finished(
                        i as int,
                        if future is Pending {
                            FusedFuture::Pending(left)
                        } else {
                            future
                        },
                        inner,
                    ),
                    out: None,
                    own: match (self.own[i as int], inner) {
                        (FusedFuture::Ready(_), _) => self.own,
                        (_, Poll::Ready(output)) => self.own.update(
                            i as int,
                            FusedFuture::Ready(output),
                        ),
                        (_, Poll::Pending) => self.own.update(
                            i as int,
                            FusedFuture::Pending(left),
                        ),
                    },
                    ..self
                })
            },
            JoinMove::FinishPoll => {
                &&& self.out is None
                &&& self.current == Some(EntryPtr::Root)
                &&& next == (JoinSystem { current: None, ..self })
            },
        }
    }

    /// Whether the list consists of `batch` and `waiting`, and the poll is at its beginning.
    pub open spec fn has_list(self, batch: Seq<EntryPtr>, waiting: Seq<EntryPtr>) -> bool {
        &&& self.join.links.represent(batch, waiting)
        &&& match self.current {
            None => batch.len() == 0,
            Some(current) => current == Links::list(batch, waiting)[0],
        }
    }

    /// Every future is in its place, but for the one that has been taken out.
    pub open spec fn futures_in_place(self) -> bool {
        &&& self.join.futures.len() == self.join.links.count
        &&& forall|i: int|
            0 <= i < self.join.futures.len() ==> ((#[trigger] self.join.futures[i]) is None <==> (
            self.out is Some && i == (self.out->0).0))
        &&& self.out matches Some((i, _)) ==> i < self.join.futures.len()
    }

    /// Every entry holds its own future, or the output that this one has come to, but for while it
    /// is being polled; and what is being polled is the future of the entry it was taken from.
    pub open spec fn entries_keep_their_own(self) -> bool {
        &&& self.own.len() == self.join.futures.len()
        &&& forall|i: int|
            0 <= i < self.own.len() && (#[trigger] self.join.futures[i]) is Some
                ==> self.join.futures[i] == Some(self.own[i])
        &&& self.out matches Some((i, future)) ==> future == self.own[i as int]
    }

    /// The external waker is in its slot until it is handed out to be woken. It is handed out by the
    /// first wake-up of an entry that is not scheduled, when no other one waits.
    pub open spec fn wakes_are_passed_on(self) -> bool {
        &&& self.join.extern_waker == self.slot
        &&& forall|entry: EntryPtr|
            self.join.links.has_future(entry) ==> (#[trigger] self.join.woken(entry)).1 == (if
            !self.is_scheduled(entry) && self.none_waits() {
                self.slot
            } else {
                None
            })
    }

    /// Every entry that has been woken since it was last taken off is scheduled. A poll comes to
    /// those entries that were scheduled when it began, to each of them once, and to no other.
    pub open spec fn polls_come_to_all(self) -> bool {
        &&& forall|x: EntryPtr| #[trigger] self.due.contains(x) ==> self.is_scheduled(x)
        &&& self.current is None || self.current == Some(EntryPtr::Root) ==> self.owed == Set::<
            EntryPtr,
        >::empty()
        &&& self.current matches Some(current) ==> current == EntryPtr::Root || self.owed.contains(
            current,
        )
    }

    /// Every operation can be used: a poll can begin when none is going on, and one that is going
    /// on can go on, until its batch is over.
    pub open spec fn can_go_on(self) -> bool {
        &&& self.current is None ==> {
            &&& self.join.links.settled()
            &&& self.join.links.next[EntryPtr::Buffer] == EntryPtr::Null
        }
        &&& self.out is None ==> (self.current matches Some(current) ==> current == EntryPtr::Root
            || (self.join.links.has_future(current)
            && self.join.futures[current->At_0 as int] is Some))
        &&& self.out matches Some((_, future)) ==> self.current is Some && (future is Pending
            ==> self.join.pending > 0)
    }

    /// The number of futures that have not finished, the one that has been taken out included.
    pub open spec fn unfinished_futures(self) -> int {
        unfinished_count(self.join.futures) - (match self.out {
            // The empty slot counts as unfinished.
            Some((_, FusedFuture::Ready(_))) => 1int,
            _ => 0int,
        })
    }

    /// The number of pending futures is the number of those that have not finished. So the poll
    /// answers that the join is complete if all futures have finished, and only then.
    pub open spec fn answers_are_true(self) -> bool {
        &&& self.join.pending == self.unfinished_futures()
        &&& self.out is None ==> (self.join.pending == 0 <==> forall|i: int|
            0 <= i < self.join.futures.len() ==> (#[trigger] self.join.futures[i] matches Some(
                FusedFuture::Ready(_),
            )))
    }

    /// All of the above.
    pub open spec fn sound(self) -> bool {
        &&& exists|batch: Seq<EntryPtr>, waiting: Seq<EntryPtr>| self.has_list(batch, waiting)
        &&& self.futures_in_place()
        &&& self.can_go_on()
        &&& self.answers_are_true()
        &&& self.entries_keep_their_own()
        &&& self.wakes_are_passed_on()
        &&& self.polls_come_to_all()
        &&& self.join.rc == 1
    }

    /// What holds at any time.
    spec fn inv(self, batch: Seq<EntryPtr>, waiting: Seq<EntryPtr>) -> bool {
        &&& self.has_list(batch, waiting)
        &&& self.futures_in_place()
        &&& self.out is Some ==> self.current is Some
        &&& self.join.pending == self.unfinished_futures()
        &&& self.entries_keep_their_own()
        &&& self.join.extern_waker == self.slot
        &&& self.join.rc == 1
        &&& self.join.links.count <= usize::MAX
        &&& forall|x: EntryPtr| #[trigger] self.due.contains(x) ==> self.is_scheduled(x)
        &&& forall|x: EntryPtr| #[trigger] self.owed.contains(x) <==> batch.contains(x)
    }
}

/// The invariant makes a state sound.
proof fn lemma_inv_sound<F: Future>(
    s: JoinSystem<F>,
    batch: Seq<EntryPtr>,
    waiting: Seq<EntryPtr>,
)
    requires
        s.inv(batch, waiting),
    ensures
        s.sound(),
{
    a_list_is_idle(s.join.links, batch, waiting);
    if s.out is None {
        a_complete_join_holds_all_outputs(s.join);
    }
    let list = Links::list(batch, waiting);
    if batch.len() > 0 {
        a_poll_walks_along_its_batch(s.join.links, batch, waiting);
    }
    assert(batch.len() == 0 ==> list[0] == EntryPtr::Root);
    assert(s.wakes_are_passed_on()) by {
        assert forall|entry: EntryPtr| s.join.links.has_future(entry) implies (
        #[trigger] s.join.woken(entry)).1 == (if !s.is_scheduled(entry) && s.none_waits() {
            s.slot
        } else {
            None
        }) by {
            only_the_first_wake_up_is_passed_on(s.join, batch, waiting, entry);
            lemma_none_waits(s, batch, waiting);
        }
    }
    assert(s.polls_come_to_all()) by {
        if batch.len() == 0 {
            assert(s.owed =~= Set::<EntryPtr>::empty());
        } else {
            assert(batch.contains(batch[0]));
            assert(list[0] == batch[0]);
        }
    }
    if let Some((i, _)) = s.out {
        assert(s.join.futures[i as int] is None);
        lemma_count_positive(s.join.futures, i as int);
    }
}

/// Nothing stands behind the root entry exactly if no entry waits.
proof fn lemma_none_waits<F: Future>(
    s: JoinSystem<F>,
    batch: Seq<EntryPtr>,
    waiting: Seq<EntryPtr>,
)
    requires
        s.join.links.represent(batch, waiting),
        s.join.links.count <= usize::MAX,
    ensures
        s.none_waits() <==> waiting.len() == 0,
{
    let list = Links::list(batch, waiting);
    let r = batch.len() as int;
    assert(list[r] == EntryPtr::Root);
    if waiting.len() == 0 {
        assert(list.last() == EntryPtr::Root);
    } else {
        assert(s.join.links.next[list[r]] == list[r + 1]);
        assert(s.join.links.is_entry(list[r + 1]));
    }
}

/// Where there is a future that has not finished, the number of those is not zero.
proof fn lemma_count_positive<F: Future>(futures: Seq<Option<FusedFuture<F>>>, i: int)
    requires
        0 <= i < futures.len(),
        unfinished(futures[i]),
    ensures
        unfinished_count(futures) > 0,
    decreases futures.len(),
{
    if i < futures.len() - 1 {
        lemma_count_positive(futures.drop_last(), i);
    }
}

/// What stands in the list is scheduled.
proof fn lemma_in_list(links: Links, batch: Seq<EntryPtr>, waiting: Seq<EntryPtr>, x: EntryPtr)
    requires
        links.represent(batch, waiting),
        batch.contains(x) || waiting.contains(x),
    ensures
        links.next[x] != EntryPtr::Null,
        links.is_entry(x),
{
    let list = Links::list(batch, waiting);
    let k = if batch.contains(x) {
        choose|k: int| 0 <= k < batch.len() && batch[k] == x
    } else {
        batch.len() + 1 + choose|k: int| 0 <= k < waiting.len() && waiting[k] == x
    };
    assert(list[k] == x);
    assert(links.is_entry(list[k]));
    if k + 1 < list.len() {
        assert(links.next[list[k]] == list[k + 1]);
        assert(links.is_entry(list[k + 1]));
    } else {
        assert(links.next[list.last()] == links.end());
    }
}

/// Between polls the scheduled entries are those that wait.
proof fn lemma_all_wait<F: Future>(s: JoinSystem<F>, waiting: Seq<EntryPtr>)
    requires
        s.join.links.represent(Seq::empty(), waiting),
    ensures
        forall|x: EntryPtr| #[trigger] waiting.contains(x) <==> s.is_scheduled(x),
{
    let links = s.join.links;
    let list = Links::list(Seq::empty(), waiting);
    assert(list =~= seq![EntryPtr::Root] + waiting);
    assert forall|x: EntryPtr| #[trigger] waiting.contains(x) <==> s.is_scheduled(x) by {
        if waiting.contains(x) {
            lemma_in_list(links, Seq::empty(), waiting, x);
            let k = choose|k: int| 0 <= k < waiting.len() && waiting[k] == x;
            assert(list[k + 1] == x);
            assert(list[0] == EntryPtr::Root);
            assert(list[k + 1] != list[0]);
            assert(list[k + 1] != EntryPtr::Buffer);
        }
        if s.is_scheduled(x) {
            assert(list.contains(x));
            let k = choose|k: int| 0 <= k < list.len() && list[k] == x;
            assert(k > 0);
            assert(waiting[k - 1] == x);
        }
    }
}

/// What is left of a batch when its first entry has been taken off.
proof fn lemma_rest(links: Links, batch: Seq<EntryPtr>, waiting: Seq<EntryPtr>, x: EntryPtr)
    requires
        links.represent(batch, waiting),
        batch.len() > 0,
    ensures
        batch.drop_first().contains(x) <==> batch.contains(x) && x != batch[0],
{
    let list = Links::list(batch, waiting);
    let rest = batch.drop_first();
    if rest.contains(x) {
        let k = choose|k: int| 0 <= k < rest.len() && rest[k] == x;
        assert(batch[k + 1] == x);
        assert(list[0] != list[k + 1]);
    }
    if batch.contains(x) && x != batch[0] {
        let k = choose|k: int| 0 <= k < batch.len() && batch[k] == x;
        assert(rest[k - 1] == x);
    }
}

/// Every move keeps the invariant.
proof fn lemma_move<F: Future>(
    s: JoinSystem<F>,
    next: JoinSystem<F>,
    m: JoinMove<F>,
    batch: Seq<EntryPtr>,
    waiting: Seq<EntryPtr>,
) -> (r: (Seq<EntryPtr>, Seq<EntryPtr>))
    requires
        s.inv(batch, waiting),
        s.moves(next, m),
    ensures
        next.inv(r.0, r.1),
{
    match m {
        JoinMove::Wake { entry } => {
            only_the_first_wake_up_is_passed_on(s.join, batch, waiting, entry);
            a_list_is_idle(s.join.links, batch, waiting);
            a_wake_up_leaves_the_rest(s.join, entry);
            lemma_none_waits(s, batch, waiting);
            if s.join.links.next[entry] == EntryPtr::Null {
                assert(Links::list(batch, waiting.push(entry)) =~= Links::list(
                    batch,
                    waiting,
                ).push(entry));
                (batch, waiting.push(entry))
            } else {
                (batch, waiting)
            }
        },
        JoinMove::StartPoll { .. } => {
            assert(batch =~= Seq::empty());
            a_poll_takes_all_that_wait(s.join.links, waiting);
            lemma_all_wait(s, waiting);
            assert forall|x: EntryPtr| #[trigger] next.due.contains(x) implies next.is_scheduled(
                x,
            ) by {
                assert(s.is_scheduled(x));
                assert(waiting.contains(x));
                lemma_in_list(next.join.links, waiting, Seq::empty(), x);
            }
            (waiting, Seq::empty())
        },
        JoinMove::NextEntry => {
            let i = s.current->0->At_0;
            assert(batch.len() == 0 ==> Links::list(batch, waiting)[0] == EntryPtr::Root);
            a_poll_walks_along_its_batch(s.join.links, batch, waiting);
            lemma_count_updated(s.join.futures, i as int, None);
            assert(Links::list(batch, waiting)[0] == batch[0]);
            assert forall|x: EntryPtr| #[trigger] next.owed.contains(x)
                <==> batch.drop_first().contains(x) by {
                lemma_rest(s.join.links, batch, waiting, x);
            }
            (batch.drop_first(), waiting)
        },
        JoinMove::FinishEntry { left, inner } => {
            let (i, future) = s.out->0;
            let put = if future is Pending {
                FusedFuture::Pending(left)
            } else {
                future
            };
            lemma_count_positive(s.join.futures, i as int);
            lemma_count_updated(s.join.futures, i as int, Some(put.polled(inner)));
            a_future_is_put_back_in_its_place(s.join, i as int, put, inner);
            an_answer_is_kept(put, inner);
            (batch, waiting)
        },
        JoinMove::FinishPoll => {
            if batch.len() > 0 {
                a_poll_walks_along_its_batch(s.join.links, batch, waiting);
            }
            (batch, waiting)
        },
    }
}

/// Something happens to the system at `k` of a course.
pub open spec fn moves_on<F: Future>(course: Seq<JoinSystem<F>>, k: int) -> bool {
    exists|m: JoinMove<F>| #[trigger] course[k].moves(course[k + 1], m)
}

/// A course that the join of the futures in `v` takes: each state comes from the one before by a
/// move.
pub open spec fn is_course<F: Future>(course: Seq<JoinSystem<F>>, v: Seq<F>) -> bool {
    &&& course.len() > 0
    &&& course[0].initial(v)
    &&& forall|k: int| 0 <= k < course.len() - 1 ==> #[trigger] moves_on(course, k)
}

proof fn lemma_join_course<F: Future>(course: Seq<JoinSystem<F>>, v: Seq<F>, k: int) -> (r: (
    Seq<EntryPtr>,
    Seq<EntryPtr>,
))
    requires
        is_course(course, v),
        0 <= k < course.len(),
    ensures
        course[k].inv(r.0, r.1),
    decreases k,
{
    if k == 0 {
        let waiting = Seq::new(v.len(), |i: int| EntryPtr::At(i as usize));
        all_entries_wait_at_first(v.len() as usize);
        all_futures_are_pending_at_first(v);
        (Seq::empty(), waiting)
    } else {
        let (batch, waiting) = lemma_join_course(course, v, k - 1);
        assert(moves_on(course, k - 1));
        let m = choose|m: JoinMove<F>| #[trigger] course[k - 1].moves(course[k - 1 + 1], m);
        lemma_move(course[k - 1], course[k], m, batch, waiting)
    }
}

/// However a join is polled, whatever its futures answer and whenever they are woken, during a poll
/// or between polls, before or after they have finished: the list holds each scheduled entry once,
/// every entry keeps its own future, or its output, but for the one that is being polled, a poll
/// comes to exactly those entries that were scheduled when it began, no operation is used where
/// it cannot be, the number of pending futures is the number of those that have not finished, and
/// the join is complete exactly when all of its futures have finished.
pub proof fn every_course_is_sound<F: Future>(course: Seq<JoinSystem<F>>, v: Seq<F>, k: int)
    requires
        is_course(course, v),
        0 <= k < course.len(),
    ensures
        course[k].sound(),
{
    let (batch, waiting) = lemma_join_course(course, v, k);
    lemma_inv_sound(course[k], batch, waiting);
}

/// Whether the future that is being polled finishes with the move `m`.
pub open spec fn finishes<F: Future>(s: JoinSystem<F>, m: JoinMove<F>) -> bool {
    &&& m matches JoinMove::FinishEntry { inner, .. }
    &&& inner is Ready
    &&& s.out matches Some((_, FusedFuture::Pending(_)))
}

/// The number of futures stays, and the number of pending ones goes down by one whenever a future
/// finishes, and only then.
pub proof fn pending_futures_are_counted_off<F: Future>(
    course: Seq<JoinSystem<F>>,
    v: Seq<F>,
    k: int,
    m: JoinMove<F>,
)
    requires
        is_course(course, v),
        0 <= k < course.len() - 1,
        course[k].moves(course[k + 1], m),
    ensures
        course[k + 1].join.links.count == course[k].join.links.count,
        course[k + 1].join.pending == course[k].join.pending - (if finishes(course[k], m) {
            1int
        } else {
            0int
        }),
        course[k].join.pending <= course[k].join.links.count,
{
    let (batch, waiting) = lemma_join_course(course, v, k);
    lemma_inv_sound(course[k], batch, waiting);
    lemma_count_bounded(course[k].join.futures);
}

/// No more futures have not finished than there are.
proof fn lemma_count_bounded<F: Future>(futures: Seq<Option<FusedFuture<F>>>)
    ensures
        unfinished_count(futures) <= futures.len(),
    decreases futures.len(),
{
    if futures.len() > 0 {
        lemma_count_bounded(futures.drop_last());
    }
}

} // verus!
