//! What holds of the smaller list: of its operations one after the other, and of their steps in any
//! order.
use atomic_waker::AtomicWaker;
use vstd::prelude::*;
use crate::raw::{
    fresh, signalled, signalled_by, Enlist, EnlistStage, Link, RawSharedHandle, RawView, RawWaking,
};

verus! {

impl<T> RawView<T> {
    /// The entries of `list` point to one another, in order, and the last one to none.
    pub open spec fn chained(self, list: Seq<usize>) -> bool {
        &&& list.no_duplicates()
        &&& forall|k: int| 0 <= k < list.len() ==> #[trigger] list[k] < self.next.len()
        &&& forall|k: int|
            0 <= k < list.len() ==> self.next[#[trigger] list[k] as int] == behind(list, k)
    }

    /// The scheduled entries are those of `list`, in order.
    pub open spec fn lists(self, list: Seq<usize>) -> bool {
        &&& self.chained(list)
        &&& self.first == (if list.len() == 0 {
            Link::Null
        } else {
            Link::At(list[0])
        })
        &&& self.last == (if list.len() == 0 {
            Link::Null
        } else {
            Link::At(list.last())
        })
    }
}

/// What stands behind the element at `k` of a list.
pub open spec fn behind(list: Seq<usize>, k: int) -> Link {
    if k + 1 < list.len() {
        Link::At(list[k + 1])
    } else {
        Link::NoNext
    }
}

/// A list is settled.
pub proof fn a_list_is_settled<T>(view: RawView<T>, list: Seq<usize>)
    requires
        view.lists(list),
    ensures
        view.settled(),
{
    if list.len() > 0 {
        assert(view.next[list[list.len() - 1] as int] == behind(list, list.len() - 1));
    }
}

/// Scheduling an entry that has not been scheduled puts it at the end of the list; scheduling one
/// that has changes nothing.
pub proof fn an_entry_is_scheduled_once<T>(view: RawView<T>, list: Seq<usize>, i: usize)
    requires
        view.lists(list),
        i < view.next.len(),
    ensures
        view.next[i as int] == Link::Null ==> view.scheduled(i).lists(list.push(i)),
        view.next[i as int] != Link::Null ==> view.scheduled(i) == view,
        view.scheduled(i).next[i as int] != Link::Null,
{
    if view.next[i as int] == Link::Null {
        let after = view.scheduled(i);
        let longer = list.push(i);
        assert(!list.contains(i)) by {
            if list.contains(i) {
                let k = choose|k: int| 0 <= k < list.len() && list[k] == i;
                assert(view.next[list[k] as int] == behind(list, k));
            }
        }
        assert forall|k: int| 0 <= k < longer.len() implies after.next[#[trigger] longer[k] as int]
            == behind(longer, k) by {
            if k < list.len() {
                assert(view.next[list[k] as int] == behind(list, k));
                assert(list.contains(list[k]));
                if k + 1 < list.len() {
                    assert(list[k] != list[list.len() - 1]);
                }
            }
        }
        assert forall|k: int|
            0 <= k < longer.len() implies #[trigger] longer[k] < after.next.len() by {
            if k < list.len() {
                assert(list[k] < view.next.len());
            }
        }
        assert(longer.no_duplicates()) by {
            assert forall|a: int, b: int|
                0 <= a < longer.len() && 0 <= b < longer.len() && a != b implies longer[a]
                != longer[b] by {
                if a < list.len() {
                    assert(list.contains(list[a]));
                }
                if b < list.len() {
                    assert(list.contains(list[b]));
                }
            }
        }
    }
}

/// A poll takes the whole list, in order, and leaves it empty; its entries stay marked, so they are
/// not scheduled again.
pub proof fn a_poll_takes_the_list<T>(view: RawView<T>, list: Seq<usize>)
    requires
        view.lists(list),
    ensures
        ({
            let after = RawView { first: Link::Null, last: Link::Null, ..view };
            &&& after.lists(Seq::empty())
            &&& after.chained(list)
            &&& forall|k: int|
                0 <= k < list.len() ==> #[trigger] after.scheduled(list[k]) == after
        }),
{
    let after = RawView { first: Link::Null, last: Link::Null, ..view };
    assert forall|k: int|
        0 <= k < list.len() implies #[trigger] after.scheduled(list[k]) == after by {
        assert(view.next[list[k] as int] == behind(list, k));
    }
}

/// Scheduling entries while a poll walks along its batch leaves the batch as it is.
pub proof fn a_batch_stays_as_it_is<T>(
    view: RawView<T>,
    batch: Seq<usize>,
    list: Seq<usize>,
    i: usize,
)
    requires
        view.chained(batch),
        view.lists(list),
        forall|k: int, l: int|
            0 <= k < batch.len() && 0 <= l < list.len() ==> #[trigger] batch[k]
                != #[trigger] list[l],
        i < view.next.len(),
    ensures
        view.scheduled(i).chained(batch),
{
    let after = view.scheduled(i);
    assert forall|k: int| 0 <= k < batch.len() implies after.next[#[trigger] batch[k] as int]
        == behind(batch, k) by {
        assert(view.next[batch[k] as int] == behind(batch, k));
        if list.len() > 0 {
            assert(batch[k] != list[list.len() - 1]);
        }
    }
    assert forall|k: int| 0 <= k < batch.len() implies #[trigger] batch[k] < after.next.len() by {
        assert(batch[k] < view.next.len());
    }
}

/// What a poll of the smaller list is doing.
pub enum Gathering {
    /// Nothing.
    Idle,
    /// It has taken the beginning of the list away.
    TookFirst { first: Link },
    /// It walks along its batch.
    Walk { current: Link },
}

/// The smaller list, its wakers that are being used and its poll.
pub struct RawSystem<T> {
    pub view: RawView<T>,
    /// The undertakings of the wakers, by arbitrary numbers.
    pub wakers: Map<int, RawWaking>,
    pub poller: Gathering,
    /// The entries that have been linked: another one, or the beginning, has led to them.
    pub linked: Set<usize>,
    /// The entries for which the external waker has been woken after they had been linked.
    pub told: Set<usize>,
}

/// What can happen next.
pub enum RawMove {
    /// The undertaking `t` to wake the future at `i` begins.
    Begin { t: int, i: usize },
    /// The undertaking `t` takes a step.
    Step { t: int },
    /// The undertaking `t` fails to make its entry the last one although it could have.
    Retry { t: int },
    /// The undertaking `t` is over.
    End { t: int },
    /// The poll takes a step.
    Poll,
}

/// Whether the beginning of the list, or the link of an entry, leads to the entry at `i`.
pub open spec fn leads_to<T>(view: RawView<T>, i: usize) -> bool {
    ||| view.first == Link::At(i)
    ||| exists|j: int| 0 <= j < view.next.len() && #[trigger] view.next[j] == Link::At(i)
}

/// Whether an undertaking is about to link its entry, and nothing stands there.
pub open spec fn links_now<T>(waking: RawWaking, view: RawView<T>) -> bool {
    &&& waking matches RawWaking::Append { enlist }
    &&& enlist.stage matches EnlistStage::Link { prev }
    &&& view.open_behind(prev)
}

/// An undertaking that comes to a place where nothing stands makes that place lead to its entry.
pub proof fn a_raw_undertaking_takes_a_free_place<T>(waking: RawWaking, view: RawView<T>)
    requires
        waking.in_bounds(view),
        links_now(waking, view),
    ensures
        leads_to(waking.stepped(view).1, waking->enlist.entry),
        match waking->enlist.stage->Link_prev {
            Link::At(l) => {
                &&& view.next[l as int] == Link::NoNext
                &&& waking.stepped(view).1.next[l as int] == Link::At(waking->enlist.entry)
            },
            _ => {
                &&& view.first == Link::Null
                &&& waking.stepped(view).1.first == Link::At(waking->enlist.entry)
            },
        },
{
    if let Link::At(l) = waking->enlist.stage->Link_prev {
        assert(waking.stepped(view).1.next[l as int] == Link::At(waking->enlist.entry));
    }
}

impl<T> RawSystem<T> {
    /// `count` entries none of which is scheduled.
    pub open spec fn initial(self, count: usize) -> bool {
        &&& self.view.next == Seq::new(count as nat, |i: int| Link::Null)
        &&& self.view.first == Link::Null
        &&& self.view.last == Link::Null
        &&& self.wakers == Map::<int, RawWaking>::empty()
        &&& self.poller is Idle
        &&& self.linked == Set::<usize>::empty()
        &&& self.told == Set::<usize>::empty()
    }

    /// What `m` makes of the system.
    pub open spec fn moves(self, next: RawSystem<T>, m: RawMove) -> bool {
        match m {
            RawMove::Begin { t, i } => {
                &&& !self.wakers.dom().contains(t)
                &&& i < self.view.next.len()
                &&& next == (RawSystem {
                    wakers: self.wakers.insert(
                        t,
                        RawWaking::Append {
                            enlist: Enlist { entry: i, stage: EnlistStage::Claim },
                        },
                    ),
                    ..self
                })
            },
            RawMove::Step { t } => {
                &&& self.wakers.dom().contains(t)
                &&& next == (RawSystem {
                    view: self.wakers[t].stepped(self.view).1,
                    wakers: self.wakers.insert(t, self.wakers[t].stepped(self.view).0),
                    linked: Set::new(
                        |i: usize| self.linked.contains(i) || leads_to(next.view, i),
                    ),
                    told: match self.wakers[t] {
                        RawWaking::Signal { entry, .. } => if self.linked.contains(entry) {
                            self.told.insert(entry)
                        } else {
                            self.told
                        },
                        _ => self.told,
                    },
                    ..self
                })
            },
            RawMove::Retry { t } => {
                &&& self.wakers.dom().contains(t)
                &&& self.wakers[t] matches RawWaking::Append { enlist }
                &&& enlist.stage is Publish
                &&& next == (RawSystem {
                    wakers: self.wakers.insert(
                        t,
                        RawWaking::Append {
                            enlist: enlist.at(EnlistStage::Link { prev: self.view.last }),
                        },
                    ),
                    ..self
                })
            },
            RawMove::End { t } => {
                &&& self.wakers.dom().contains(t)
                &&& self.wakers[t] is Done
                &&& next == (RawSystem { wakers: self.wakers.remove(t), ..self })
            },
            RawMove::Poll => match self.poller {
                Gathering::Idle => {
                    next == (RawSystem {
                        view: RawView { first: Link::Null, ..self.view },
                        poller: if self.view.first == Link::Null {
                            Gathering::Idle
                        } else {
                            Gathering::TookFirst { first: self.view.first }
                        },
                        ..self
                    })
                },
                Gathering::TookFirst { first } => {
                    next == (RawSystem {
                        view: RawView { last: Link::Null, ..self.view },
                        poller: Gathering::Walk { current: first },
                        ..self
                    })
                },
                Gathering::Walk { current } => {
                    next == (RawSystem {
                        poller: match current {
                            Link::At(i) => Gathering::Walk { current: self.view.next[i as int] },
                            _ => Gathering::Idle,
                        },
                        ..self
                    })
                },
            },
        }
    }

    /// Whether `link` leads to a scheduled entry.
    pub open spec fn leads(self, link: Link) -> bool {
        link matches Link::At(i) && self.view.is_scheduled(i)
    }

    /// Every step can be taken: none reaches outside the memory, the external waker is woken for
    /// scheduled entries only, and a poll that walks along its batch stands at a scheduled entry or
    /// at the end.
    pub open spec fn in_bounds(self) -> bool {
        &&& forall|t: int| #[trigger]
            self.wakers.dom().contains(t) ==> self.wakers[t].in_bounds(self.view)
        &&& self.poller matches Gathering::Walk { current } ==> current == Link::NoNext
            || self.leads(current)
    }

    /// The undertaking `t` has marked the entry at `i` as scheduled and will wake the external
    /// waker once it has linked it.
    pub open spec fn will_tell(self, t: int, i: usize) -> bool {
        &&& self.wakers.dom().contains(t)
        &&& match self.wakers[t] {
            RawWaking::Append { enlist } => enlist.entry == i && (enlist.stage is FindLast
                || enlist.stage is Link || enlist.stage is Publish),
            RawWaking::Signal { entry, appended } => entry == i && appended,
            RawWaking::Done => false,
        }
    }

    /// Whoever is about to wake the external waker has its entry marked as scheduled before. One
    /// that has appended it has linked it before; if one that found it scheduled comes before it is
    /// linked, another one is about to link it and to wake the external waker afterwards.
    pub open spec fn signals_come_last(self) -> bool {
        forall|t: int| #[trigger]
            self.wakers.dom().contains(t) ==> {
                self.wakers[t] matches RawWaking::Signal { entry, appended } ==> {
                    &&& self.view.is_scheduled(entry)
                    &&& appended ==> self.linked.contains(entry)
                    &&& self.linked.contains(entry) || exists|u: int|
                        u != t && #[trigger] self.will_tell(u, entry)
                }
            }
    }

    /// For every entry that is scheduled, the external waker has been woken since the entry was
    /// linked, or an undertaking is about to do so.
    pub open spec fn no_signal_is_lost(self) -> bool {
        forall|i: usize| #[trigger]
            self.view.is_scheduled(i) ==> (self.linked.contains(i) && self.told.contains(i))
                || exists|t: int| #[trigger] self.will_tell(t, i)
    }

    /// What holds at any time: every link leads to a scheduled entry, if anywhere, and who has
    /// woken the external waker, or will, has linked its entry.
    spec fn inv(self) -> bool {
        &&& self.view.first == Link::Null || self.leads(self.view.first)
        &&& self.view.last == Link::Null || self.leads(self.view.last)
        &&& forall|i: int|
            0 <= i < self.view.next.len() ==> (#[trigger] self.view.next[i]) == Link::Null
                || self.view.next[i] == Link::NoNext || self.leads(self.view.next[i])
        &&& forall|t: int| #[trigger]
            self.wakers.dom().contains(t) ==> self.waker_inv(self.wakers[t])
        &&& match self.poller {
            Gathering::Idle => true,
            Gathering::TookFirst { first } => self.leads(first),
            Gathering::Walk { current } => current == Link::NoNext || self.leads(current),
        }
        &&& forall|i: usize| #[trigger] self.told.contains(i) ==> self.linked.contains(i)
        &&& self.no_signal_is_lost()
    }

    /// What holds of one waker at any time.
    spec fn waker_inv(self, waking: RawWaking) -> bool {
        match waking {
            RawWaking::Append { enlist } => {
                &&& enlist.entry < self.view.next.len()
                &&& !(enlist.stage is Done)
                &&& !(enlist.stage is Claim) ==> self.view.is_scheduled(enlist.entry)
                &&& enlist.stage matches EnlistStage::Link { prev } ==> prev == Link::Null
                    || self.leads(prev)
                &&& enlist.stage is Publish ==> self.linked.contains(enlist.entry)
            },
            RawWaking::Signal { entry, appended } => {
                &&& self.view.is_scheduled(entry)
                &&& appended ==> self.linked.contains(entry)
            },
            RawWaking::Done => true,
        }
    }
}

/// No move takes a mark away.
proof fn lemma_marks_kept<T>(s: RawSystem<T>, next: RawSystem<T>, m: RawMove)
    requires
        s.inv(),
        s.moves(next, m),
    ensures
        next.view.next.len() == s.view.next.len(),
        forall|i: usize| #[trigger] s.view.is_scheduled(i) ==> next.view.is_scheduled(i),
        forall|i: usize| #[trigger] s.linked.contains(i) ==> next.linked.contains(i),
{
}

/// Every move keeps it true that no signal is lost.
proof fn lemma_signals_kept<T>(s: RawSystem<T>, next: RawSystem<T>, m: RawMove)
    requires
        s.inv(),
        s.moves(next, m),
    ensures
        next.no_signal_is_lost(),
{
    lemma_marks_kept(s, next, m);
    assert forall|i: usize| #[trigger] next.view.is_scheduled(i) implies (next.linked.contains(i)
        && next.told.contains(i)) || exists|t: int| #[trigger] next.will_tell(t, i) by {
        if s.view.is_scheduled(i) {
            if !(s.linked.contains(i) && s.told.contains(i)) {
                let t = choose|t: int| #[trigger] s.will_tell(t, i);
                assert(s.waker_inv(s.wakers[t]));
                if !next.will_tell(t, i) {
                    assert(m == RawMove::Step { t });
                    assert(next.told.contains(i));
                }
            }
        } else {
            assert(m is Step);
            assert(next.will_tell(m->Step_t, i));
        }
    }
}

/// Every move keeps the invariant.
proof fn lemma_raw_inv_kept<T>(s: RawSystem<T>, next: RawSystem<T>, m: RawMove)
    requires
        s.inv(),
        s.moves(next, m),
    ensures
        next.inv(),
{
    lemma_marks_kept(s, next, m);
    lemma_signals_kept(s, next, m);
    assert forall|t: int| #[trigger] next.wakers.dom().contains(t) implies next.waker_inv(
        next.wakers[t],
    ) by {
        if s.wakers.dom().contains(t) {
            assert(s.waker_inv(s.wakers[t]));
            if m == (RawMove::Step { t }) {
                lemma_linking_leads(s.wakers[t], s.view);
            }
        }
    }
}

/// An undertaking that goes on to make its entry the last one has made another one, or the
/// beginning, lead to it.
proof fn lemma_linking_leads<T>(waking: RawWaking, view: RawView<T>)
    requires
        waking.in_bounds(view),
    ensures
        ({
            let (after, changed) = waking.stepped(view);
            waking is Append && waking->enlist.stage is Link && after is Append
                && after->enlist.stage is Publish ==> leads_to(changed, waking->enlist.entry)
        }),
{
    let (after, changed) = waking.stepped(view);
    if waking is Append && waking->enlist.stage is Link && after is Append
        && after->enlist.stage is Publish {
        let prev = waking->enlist.stage->Link_prev;
        if let Link::At(l) = prev {
            assert(changed.next[l as int] == Link::At(waking->enlist.entry));
        }
    }
}

/// Something happens to the system at `k` of a course.
pub open spec fn moves_on<T>(course: Seq<RawSystem<T>>, k: int) -> bool {
    exists|m: RawMove| #[trigger] course[k].moves(course[k + 1], m)
}

/// A course that a list of `count` entries takes: each state comes from the one before by a move.
pub open spec fn is_course<T>(course: Seq<RawSystem<T>>, count: usize) -> bool {
    &&& course.len() > 0
    &&& course[0].initial(count)
    &&& forall|k: int| 0 <= k < course.len() - 1 ==> #[trigger] moves_on(course, k)
}

proof fn lemma_raw_course<T>(course: Seq<RawSystem<T>>, count: usize, k: int)
    requires
        is_course(course, count),
        0 <= k < course.len(),
    ensures
        course[k].inv(),
    decreases k,
{
    if k > 0 {
        lemma_raw_course(course, count, k - 1);
        assert(moves_on(course, k - 1));
        let m = choose|m: RawMove| #[trigger] course[k - 1].moves(course[k - 1 + 1], m);
        lemma_raw_inv_kept(course[k - 1], course[k], m);
    }
}

/// In whatever order a poll and any number of wakers take their steps, each step can be taken, and
/// none reaches outside the memory.
pub proof fn every_course_is_in_bounds<T>(course: Seq<RawSystem<T>>, count: usize, k: int)
    requires
        is_course(course, count),
        0 <= k < course.len(),
    ensures
        course[k].in_bounds(),
{
    lemma_raw_course(course, count, k);
    assert forall|t: int| #[trigger] course[k].wakers.dom().contains(t) implies course[k].wakers[t]
        .in_bounds(course[k].view) by {
        assert(course[k].waker_inv(course[k].wakers[t]));
    }
}

/// In whatever order a poll and any number of wakers take their steps, a waker wakes the external
/// waker only after its entry has been scheduled, and for every scheduled entry the external waker
/// is woken after the entry has been linked.
pub proof fn signals_follow_the_links<T>(course: Seq<RawSystem<T>>, count: usize, k: int)
    requires
        is_course(course, count),
        0 <= k < course.len(),
    ensures
        course[k].signals_come_last(),
        course[k].no_signal_is_lost(),
{
    lemma_raw_course(course, count, k);
    let s = course[k];
    assert forall|t: int| #[trigger] s.wakers.dom().contains(t) implies (
    s.wakers[t] matches RawWaking::Signal { entry, appended } ==> {
        &&& s.view.is_scheduled(entry)
        &&& appended ==> s.linked.contains(entry)
        &&& s.linked.contains(entry) || exists|u: int| u != t && #[trigger] s.will_tell(u, entry)
    }) by {
        assert(s.waker_inv(s.wakers[t]));
        if let RawWaking::Signal { entry, appended } = s.wakers[t] {
            if !s.linked.contains(entry) {
                let u = choose|u: int| #[trigger] s.will_tell(u, entry);
                assert(u != t);
            }
        }
    }
}

/// An entry that has been scheduled stays marked as scheduled, whatever happens next.
pub proof fn scheduled_entries_stay_marked<T>(
    course: Seq<RawSystem<T>>,
    count: usize,
    k: int,
    i: usize,
)
    requires
        is_course(course, count),
        0 <= k < course.len() - 1,
        course[k].view.is_scheduled(i),
    ensures
        course[k + 1].view.is_scheduled(i),
{
    lemma_raw_course(course, count, k);
    assert(moves_on(course, k));
    let m = choose|m: RawMove| #[trigger] course[k].moves(course[k + 1], m);
    lemma_marks_kept(course[k], course[k + 1], m);
}

/// What becomes of an undertaking and of the memory in `n` steps.
pub open spec fn waking_run<T>(waking: RawWaking, view: RawView<T>, n: nat) -> (
    RawWaking,
    RawView<T>,
)
    decreases n,
{
    if n == 0 {
        (waking, view)
    } else {
        let (waking, view) = waking.stepped(view);
        waking_run(waking, view, (n - 1) as nat)
    }
}

/// A waker that is not interrupted has put its entry at the end of the list after four steps, and is
/// about to wake the external waker; if the entry was scheduled before, it comes to that at once.
pub proof fn a_raw_waker_alone_appends_its_entry<T>(view: RawView<T>, list: Seq<usize>, i: usize)
    requires
        view.lists(list),
        i < view.next.len(),
    ensures
        ({
            let start = RawWaking::Append {
                enlist: Enlist { entry: i, stage: EnlistStage::Claim },
            };
            if view.next[i as int] == Link::Null {
                let (waking, after) = waking_run(start, view, 4);
                &&& waking == (RawWaking::Signal { entry: i, appended: true })
                &&& after.lists(list.push(i))
                &&& after.rc == view.rc
                &&& after.futures == view.futures
                &&& after.extern_waker == view.extern_waker
                &&& waking_run(start, view, 5) == (RawWaking::Done, after)
            } else {
                &&& waking_run(start, view, 1) == (
                    RawWaking::Signal { entry: i, appended: false },
                    view,
                )
                &&& waking_run(start, view, 2) == (RawWaking::Done, view)
            }
        }),
{
    reveal_with_fuel(waking_run, 6);
    a_list_is_settled(view, list);
    an_entry_is_scheduled_once(view, list, i);
    if view.next[i as int] == Link::Null {
        let start = RawWaking::Append { enlist: Enlist { entry: i, stage: EnlistStage::Claim } };
        let (waking, after) = waking_run(start, view, 4);
        assert(after =~= view.scheduled(i));
    }
}

/// Scheduling an entry leaves alone the futures, the count of users, the cell of the external waker,
/// and all links but that of the entry itself and that of the one it is put behind.
pub proof fn scheduling_leaves_the_rest<T>(view: RawView<T>, i: usize)
    requires
        view.settled(),
        i < view.next.len(),
    ensures
        ({
            let after = view.scheduled(i);
            &&& after.futures == view.futures
            &&& after.rc == view.rc
            &&& after.extern_waker == view.extern_waker
            &&& after.next.len() == view.next.len()
            &&& after.is_scheduled(i)
            &&& forall|j: int|
                0 <= j < view.next.len() && j != i && view.last != Link::At(j as usize)
                    ==> #[trigger] after.next[j] == view.next[j]
            &&& view.first != Link::Null ==> after.first == view.first
        }),
{
}

/// The only words that a step of an undertaking changes are: the link of its own entry, if that was
/// not scheduled; a link that marked the end of the list, or the beginning of an empty one, which
/// then lead to the entry; and the last entry, which then is the entry.
pub proof fn a_raw_undertaking_touches_only_its_own<T>(enlist: Enlist, view: RawView<T>)
    requires
        enlist.in_bounds(view),
    ensures
        ({
            let (after, changed) = enlist.stepped(view);
            let entry = Link::At(enlist.entry);
            &&& after.entry == enlist.entry
            &&& changed.futures == view.futures
            &&& changed.rc == view.rc
            &&& changed.extern_waker == view.extern_waker
            &&& changed.next.len() == view.next.len()
            &&& changed.first == view.first || (view.first == Link::Null && changed.first == entry)
            &&& changed.last == view.last || (changed.last == entry && after.stage is Done)
            &&& forall|j: int| 0 <= j < view.next.len() ==> {
                ||| #[trigger] changed.next[j] == view.next[j]
                ||| j == enlist.entry && view.next[j] == Link::Null && changed.next[j]
                    == Link::NoNext
                ||| view.next[j] == Link::NoNext && changed.next[j] == entry
            }
            &&& enlist.stage is Claim ==> changed.is_scheduled(enlist.entry)
            &&& after.stage == (EnlistStage::Done { appended: true }) && !(enlist.stage is Done)
                ==> changed.last == entry && enlist.stage == (EnlistStage::Publish {
                prev: view.last,
            })
            &&& after.stage == (EnlistStage::Done { appended: false }) && !(enlist.stage is Done)
                ==> view.is_scheduled(enlist.entry)
        }),
{
}

/// Whoever may have been announced has been signalled through the cell of these contents, for an
/// entry that was scheduled then.
pub proof fn what_is_announced_was_signalled<T>(view: RawView<T>, i: usize)
    requires
        view.announced(i),
    ensures
        exists|handle: RawSharedHandle<T>|
            handle@ == view && #[trigger] call_ensures(
                RawSharedHandle::<T>::signal,
                (&handle, i),
                (),
            ),
        call_ensures(AtomicWaker::wake, (&view.extern_waker,), ()),
{
    let handle = choose|handle: RawSharedHandle<T>| #[trigger]
        signalled_by(handle, i) && handle@ == view;
    assert(call_ensures(RawSharedHandle::<T>::signal, (&handle, i), ()));
    assert(signalled(handle@.extern_waker));
}

/// A cell that is called signalled, or fresh, has been through the calls of these names.
pub proof fn cells_are_called_upon(cell: AtomicWaker)
    ensures
        signalled(cell) ==> call_ensures(AtomicWaker::wake, (&cell,), ()),
        fresh(cell) ==> call_ensures(AtomicWaker::new, (), cell),
{
}

/// The view of the memory shows what lies in it.
pub proof fn the_raw_view_shows_the_memory<T>(handle: RawSharedHandle<T>)
    ensures
        handle@.rc == handle.shared.allocation_rc,
        handle@.first == handle.shared.first_to_poll,
        handle@.last == handle.shared.last_to_poll,
        handle@.extern_waker == handle.shared.extern_waker,
        handle@.next.len() == handle.list@.len(),
        handle@.futures.len() == handle.list@.len(),
        forall|i: int|
            0 <= i < handle.list@.len() ==> (#[trigger] handle.list@[i]).is_scheduled_and_next
                == handle@.next[i] && handle.list@[i].future@ == handle@.futures[i],
{
}

} // verus!
