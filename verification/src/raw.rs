//! A smaller list of scheduled entries, which knows neither a root entry nor batches that are
//! walked along while others are appended.
use core::marker::PhantomData;
use core::mem::ManuallyDrop;
use atomic_waker::AtomicWaker;
use vstd::prelude::*;
use crate::dropped::dropped;
use crate::layout::{record_layout, Layout, LayoutError};

verus! {

/// `atomic_waker::AtomicWaker` is carried around as an opaque value.
#[verifier::external_type_specification]
#[verifier::external_body]
pub struct ExAtomicWaker(AtomicWaker);

/// `AtomicWaker::new` makes a cell in which no waker is registered. The cell changes behind shared
/// references, so nothing is claimed of its contents. That a cell may come from it is what
/// [`fresh`] says.
pub assume_specification[ AtomicWaker::new ]() -> AtomicWaker;

/// `AtomicWaker::wake` takes the registered waker, if there is one, and wakes it. That happens
/// behind a shared reference, so nothing is claimed of it. That it may have been called is what
/// [`signalled`] says.
pub assume_specification[ AtomicWaker::wake ](this: &AtomicWaker);

/// Whether `cell` may be what `AtomicWaker::new` made.
pub open spec fn fresh(cell: AtomicWaker) -> bool {
    call_ensures(AtomicWaker::new, (), cell)
}

/// Whether `AtomicWaker::wake` may have been called on `cell`.
pub open spec fn signalled(cell: AtomicWaker) -> bool {
    call_ensures(AtomicWaker::wake, (&cell,), ())
}

/// Whether [`RawSharedHandle::signal`] may have been called for `entry` when the memory was
/// `handle`.
pub open spec fn signalled_by<T>(handle: RawSharedHandle<T>, entry: usize) -> bool {
    call_ensures(RawSharedHandle::<T>::signal, (&handle, entry), ())
}

/// Where an entry stands in the list, or where the list begins or ends.
#[derive(Clone, Copy, Debug, PartialEq, Eq, Structural)]
pub enum Link {
    /// Nowhere: the entry is not scheduled, or the list is empty.
    Null,
    /// The entry is scheduled and none stands behind it.
    NoNext,
    /// The entry at this index.
    At(usize),
}

/// The link of an entry that is scheduled and has none behind it.
pub fn scheduled_no_next() -> (link: Link)
    ensures
        link == Link::NoNext,
{
    Link::NoNext
}

/// The part of the memory that does not depend on the number of futures.
pub struct Header<T> {
    pub entry_count: usize,
    pub allocation_rc: usize,
    pub extern_waker: AtomicWaker,
    pub first_to_poll: Link,
    pub last_to_poll: Link,
    pub marker: PhantomData<T>,
}

/// One future and its place in the list.
///
/// Dropping an entry does not drop its future.
pub struct Entry<T> {
    pub is_scheduled_and_next: Link,
    pub future: ManuallyDrop<Option<T>>,
}

/// The memory of a number of futures.
pub struct RawSharedHandle<T> {
    pub shared: Header<T>,
    pub list: Vec<Entry<T>>,
}

/// The contents of the memory.
#[verifier::ext_equal]
pub struct RawView<T> {
    pub rc: usize,
    pub first: Link,
    pub last: Link,
    pub next: Seq<Link>,
    pub futures: Seq<Option<T>>,
    pub extern_waker: AtomicWaker,
}

impl<T> View for RawSharedHandle<T> {
    type V = RawView<T>;

    open spec fn view(&self) -> RawView<T> {
        RawView {
            rc: self.shared.allocation_rc,
            first: self.shared.first_to_poll,
            last: self.shared.last_to_poll,
            next: Seq::new(self.list@.len(), |i: int| self.list@[i].is_scheduled_and_next),
            futures: Seq::new(self.list@.len(), |i: int| self.list@[i].future@),
            extern_waker: self.shared.extern_waker,
        }
    }
}

impl<T> RawView<T> {
    /// The list is empty, or it ends at an entry behind which there is none.
    pub open spec fn settled(self) -> bool {
        match self.last {
            Link::Null => self.first == Link::Null,
            Link::NoNext => false,
            Link::At(l) => l < self.next.len() && self.next[l as int] == Link::NoNext,
        }
    }

    /// Whether `link` leads to an entry, if anywhere.
    pub open spec fn in_bounds(self, link: Link) -> bool {
        link matches Link::At(i) ==> i < self.next.len()
    }

    /// Whether there is an entry at `i`, and it is marked as scheduled.
    pub open spec fn is_scheduled(self, i: usize) -> bool {
        i < self.next.len() && self.next[i as int] != Link::Null
    }

    /// The external waker may have been woken for the entry at `i` when these were the contents.
    pub open spec fn announced(self, i: usize) -> bool {
        exists|handle: RawSharedHandle<T>| #[trigger]
            signalled_by(handle, i) && handle@ == self
    }

    /// Whether nothing stands behind `prev`, or at the beginning if `prev` is none.
    pub open spec fn open_behind(self, prev: Link) -> bool {
        match prev {
            Link::At(l) => self.next[l as int] == Link::NoNext,
            _ => self.first == Link::Null,
        }
    }

    /// The contents with the link of `prev`, or the beginning if `prev` is none, changed to `to`.
    pub open spec fn linked(self, prev: Link, to: Link) -> RawView<T> {
        match prev {
            Link::At(l) => RawView { next: self.next.update(l as int, to), ..self },
            _ => RawView { first: to, ..self },
        }
    }

    /// The contents after the entry at `i` has been appended.
    pub open spec fn appended(self, i: usize) -> RawView<T> {
        RawView {
            last: Link::At(i),
            ..self.linked(Link::At(i), Link::NoNext).linked(self.last, Link::At(i))
        }
    }

    /// The contents after the entry at `i` has been scheduled.
    pub open spec fn scheduled(self, i: usize) -> RawView<T> {
        if self.next[i as int] == Link::Null {
            self.appended(i)
        } else {
            self
        }
    }
}

impl<T> Header<T> {
    /// The header of a memory of `entry_count` entries, none of which is scheduled.
    pub fn new(entry_count: usize) -> (header: Self)
        ensures
            header.entry_count == entry_count,
            header.allocation_rc == 1,
            header.first_to_poll == Link::Null,
            header.last_to_poll == Link::Null,
            fresh(header.extern_waker),
    {
        Header {
            entry_count,
            allocation_rc: 1,
            extern_waker: AtomicWaker::new(),
            first_to_poll: Link::Null,
            last_to_poll: Link::Null,
            marker: PhantomData,
        }
    }

    /// Counts one more user. The count wraps around at the largest `usize`.
    pub fn inc_rc(&mut self)
        ensures
            *final(self) == (Header {
                allocation_rc: old(self).allocation_rc.wrapping_add(1),
                ..*old(self)
            }),
    {
        self.allocation_rc = self.allocation_rc.wrapping_add(1);
    }
}

impl<T> Entry<T> {
    /// Puts a future into the entry. One that is there is forgotten.
    pub fn write_future(&mut self, future: T)
        ensures
            final(self).future@ == Some(future),
            final(self).is_scheduled_and_next == old(self).is_scheduled_and_next,
    {
        self.future = ManuallyDrop::new(Some(future));
    }

    /// Drops the future of the entry.
    pub fn drop_future(&mut self)
        requires
            old(self).future@ is Some,
        ensures
            final(self).future@ is None,
            final(self).is_scheduled_and_next == old(self).is_scheduled_and_next,
            dropped(old(self).future@),
    {
        let mut future: ManuallyDrop<Option<T>> = ManuallyDrop::new(None);
        core::mem::swap(&mut self.future, &mut future);
        drop(ManuallyDrop::into_inner(future));
    }
}

/// What an undertaking to append an entry does next.
#[derive(Clone, Copy, Debug, PartialEq, Eq, Structural)]
pub enum EnlistStage {
    /// Claim the entry by marking it as scheduled.
    Claim,
    /// Read which entry is the last one.
    FindLast,
    /// Link the entry behind `prev`.
    Link { prev: Link },
    /// Make the entry the last one, if `prev` still is.
    Publish { prev: Link },
    /// Nothing: the entry has been appended, or had been scheduled before.
    Done { appended: bool },
}

/// An undertaking to append `entry`. Each of its steps is one indivisible operation.
#[derive(Clone, Copy, Debug, PartialEq, Eq, Structural)]
pub struct Enlist {
    pub entry: usize,
    pub stage: EnlistStage,
}

impl Enlist {
    /// Whether what the next step reads or writes lies in the memory.
    pub open spec fn in_bounds<T>(self, view: RawView<T>) -> bool {
        &&& self.entry < view.next.len()
        &&& self.stage matches EnlistStage::Link { prev } ==> view.in_bounds(prev)
    }

    /// The undertaking at another stage.
    pub open spec fn at(self, stage: EnlistStage) -> Enlist {
        Enlist { stage, ..self }
    }

    /// What becomes of the undertaking and of the memory in one step.
    pub open spec fn stepped<T>(self, view: RawView<T>) -> (Enlist, RawView<T>) {
        match self.stage {
            EnlistStage::Claim => if view.next[self.entry as int] == Link::Null {
                (
                    self.at(EnlistStage::FindLast),
                    view.linked(Link::At(self.entry), Link::NoNext),
                )
            } else {
                (self.at(EnlistStage::Done { appended: false }), view)
            },
            EnlistStage::FindLast => (self.at(EnlistStage::Link { prev: view.last }), view),
            EnlistStage::Link { prev } => if view.open_behind(prev) {
                (
                    self.at(EnlistStage::Publish { prev }),
                    view.linked(prev, Link::At(self.entry)),
                )
            } else {
                (self.at(EnlistStage::FindLast), view)
            },
            EnlistStage::Publish { prev } => if view.last == prev {
                (
                    self.at(EnlistStage::Done { appended: true }),
                    RawView { last: Link::At(self.entry), ..view },
                )
            } else {
                (self.at(EnlistStage::Link { prev: view.last }), view)
            },
            EnlistStage::Done { .. } => (self, view),
        }
    }

    /// The number of steps that are left when nothing else comes in between.
    pub open spec fn rank(self) -> int {
        match self.stage {
            EnlistStage::Claim => 4,
            EnlistStage::FindLast => 3,
            EnlistStage::Link { .. } => 2,
            EnlistStage::Publish { .. } => 1,
            EnlistStage::Done { .. } => 0,
        }
    }
}

/// What a waker of the future of one entry does next. Each step is one indivisible operation.
#[derive(Clone, Copy, Debug, PartialEq, Eq, Structural)]
pub enum RawWaking {
    /// Append the entry.
    Append { enlist: Enlist },
    /// Wake the external waker. The entry is scheduled; `appended` says whether it was this waker
    /// that appended it.
    Signal { entry: usize, appended: bool },
    /// Nothing.
    Done,
}

impl RawWaking {
    /// Begins to wake the future at `entry`.
    pub fn new(entry: usize) -> (waking: RawWaking)
        ensures
            waking == (RawWaking::Append {
                enlist: Enlist { entry, stage: EnlistStage::Claim },
            }),
    {
        RawWaking::Append { enlist: Enlist { entry, stage: EnlistStage::Claim } }
    }

    /// Whether the next step can be taken: what it reads or writes lies in the memory, and the
    /// external waker is woken only for an entry that is scheduled.
    pub open spec fn in_bounds<T>(self, view: RawView<T>) -> bool {
        match self {
            RawWaking::Append { enlist } => enlist.in_bounds(view),
            RawWaking::Signal { entry, .. } => view.is_scheduled(entry),
            RawWaking::Done => true,
        }
    }

    /// What becomes of the undertaking and of the memory in one step.
    pub open spec fn stepped<T>(self, view: RawView<T>) -> (RawWaking, RawView<T>) {
        match self {
            RawWaking::Append { enlist } => {
                let (enlist, view) = enlist.stepped(view);
                match enlist.stage {
                    EnlistStage::Done { appended } => (
                        RawWaking::Signal { entry: enlist.entry, appended },
                        view,
                    ),
                    _ => (RawWaking::Append { enlist }, view),
                }
            },
            RawWaking::Signal { .. } => (RawWaking::Done, view),
            RawWaking::Done => (self, view),
        }
    }
}

/// The entries that a poll has taken off the list.
#[derive(Clone, Copy, Debug, PartialEq, Eq, Structural)]
pub struct Batch {
    /// The entry whose turn it is.
    pub current: Link,
}

impl Batch {
    /// The index of the entry that is to be polled now, if the batch is not over.
    pub fn current(&self) -> (i: Option<usize>)
        ensures
            i == (match self.current {
                Link::At(i) => Some(i),
                _ => None,
            }),
    {
        match self.current {
            Link::At(i) => Some(i),
            _ => None,
        }
    }

    /// Goes on to the next entry, once the current one has been polled.
    pub fn advance<T>(&mut self, handle: &RawSharedHandle<T>)
        requires
            handle.wf(),
            old(self).current matches Link::At(i) && i < handle@.next.len(),
        ensures
            final(self).current == handle@.next[old(self).current->At_0 as int],
    {
        if let Link::At(i) = self.current {
            self.current = handle.list[i].is_scheduled_and_next;
        }
    }
}

impl<T> RawSharedHandle<T> {
    /// The header counts the entries that there are.
    pub open spec fn wf(&self) -> bool {
        self.shared.entry_count == self.list@.len()
    }

    /// Memory for `entry_count` futures, none of which is there yet.
    pub fn allocate(entry_count: usize) -> (handle: Self)
        ensures
            handle.wf(),
            handle@ == (RawView {
                rc: 1,
                first: Link::Null,
                last: Link::Null,
                next: Seq::new(entry_count as nat, |i: int| Link::Null),
                futures: Seq::new(entry_count as nat, |i: int| None::<T>),
                extern_waker: handle@.extern_waker,
            }),
            fresh(handle@.extern_waker),
    {
        let mut list: Vec<Entry<T>> = Vec::new();
        let mut i: usize = 0;
        while i < entry_count
            invariant
                i <= entry_count,
                list@.len() == i,
                forall|j: int|
                    0 <= j < i ==> (#[trigger] list@[j]).is_scheduled_and_next == Link::Null
                        && list@[j].future@ is None,
            decreases entry_count - i,
        {
            list.push(
                Entry { is_scheduled_and_next: Link::Null, future: ManuallyDrop::new(None) },
            );
            i += 1;
        }
        let handle = RawSharedHandle { shared: Header::new(entry_count), list };
        assert(handle@.next =~= Seq::new(entry_count as nat, |i: int| Link::Null));
        assert(handle@.futures =~= Seq::new(entry_count as nat, |i: int| None::<T>));
        handle
    }

    /// The layout of memory for `entry_count` futures, and where the entries begin in it.
    pub fn layout_and_entries_offset(entry_count: usize) -> (result: Result<
        (Layout, usize),
        LayoutError,
    >)
        ensures
            result is Ok <==> {
                &&& crate::layout::can_exist(
                    entry_count * vstd::layout::size_of::<Entry<T>>(),
                    vstd::layout::align_of::<Entry<T>>() as int,
                )
                &&& crate::layout::can_exist(
                    crate::layout::record_size::<Header<T>, Entry<T>>(entry_count as int),
                    crate::layout::record_align::<Header<T>, Entry<T>>(),
                )
            },
            result matches Ok((layout, offset)) ==> {
                &&& layout.size == crate::layout::record_size::<Header<T>, Entry<T>>(
                    entry_count as int,
                )
                &&& layout.align == crate::layout::record_align::<Header<T>, Entry<T>>()
                &&& offset == crate::layout::tail_offset::<Header<T>, Entry<T>>()
            },
    {
        record_layout::<Header<T>, Entry<T>>(entry_count)
    }

    /// The header of the memory.
    pub fn header(&self) -> (header: &Header<T>)
        ensures
            *header == self.shared,
    {
        &self.shared
    }

    /// The entries of the memory.
    pub fn entries(&self) -> (entries: &Vec<Entry<T>>)
        ensures
            *entries == self.list,
    {
        &self.list
    }

    /// Counts one more user. The count wraps around at the largest `usize`.
    pub fn inc_rc(&mut self)
        requires
            old(self).wf(),
        ensures
            final(self).wf(),
            final(self)@ == (RawView { rc: old(self)@.rc.wrapping_add(1), ..old(self)@ }),
    {
        self.shared.inc_rc();
        assert(self@ =~= RawView { rc: old(self)@.rc.wrapping_add(1), ..old(self)@ });
    }

    /// Counts one user less and answers whether that was the last one, so that the memory is to be
    /// freed. The count wraps around at zero.
    pub fn dec_rc(&mut self) -> (free: bool)
        requires
            old(self).wf(),
        ensures
            final(self).wf(),
            final(self)@ == (RawView { rc: old(self)@.rc.wrapping_sub(1), ..old(self)@ }),
            free == (old(self)@.rc == 1),
    {
        let old_rc: usize = self.shared.allocation_rc;
        self.shared.allocation_rc = old_rc.wrapping_sub(1);
        assert(self@ =~= RawView { rc: old(self)@.rc.wrapping_sub(1), ..old(self)@ });
        old_rc == 1
    }

    /// Drops the futures of all entries.
    pub fn drop_futures(&mut self)
        requires
            old(self).wf(),
            forall|i: int|
                0 <= i < old(self)@.futures.len() ==> (#[trigger] old(self)@.futures[i]) is Some,
        ensures
            final(self).wf(),
            final(self)@ == (RawView {
                futures: Seq::new(old(self)@.futures.len(), |i: int| None::<T>),
                ..old(self)@
            }),
            forall|i: int|
                0 <= i < old(self)@.futures.len() ==> dropped(#[trigger] old(self)@.futures[i]),
    {
        let entry_count = self.shared.entry_count;
        let mut i: usize = 0;
        while i < entry_count
            invariant
                self.wf(),
                i <= entry_count == self.shared.entry_count,
                self@ == (RawView { futures: self@.futures, ..old(self)@ }),
                forall|j: int| 0 <= j < i ==> (#[trigger] self@.futures[j]) is None,
                forall|j: int|
                    i <= j < entry_count ==> (#[trigger] self@.futures[j]) is Some && self@.futures[j]
                        == old(self)@.futures[j],
                forall|j: int| 0 <= j < i ==> dropped(#[trigger] old(self)@.futures[j]),
            decreases entry_count - i,
        {
            let ghost before = self@;
            assert(before.futures[i as int] is Some);
            self.list[i].drop_future();
            assert(self@ =~= RawView { futures: before.futures.update(i as int, None), ..before });
            i += 1;
        }
        assert(self@.futures =~= Seq::new(old(self)@.futures.len(), |i: int| None::<T>));
    }

    /// Which entries a poll of all futures visits, in order.
    pub fn force_poll(&self) -> (order: Vec<usize>)
        requires
            self.wf(),
        ensures
            order@ == Seq::new(self@.next.len(), |i: int| i as usize),
    {
        let mut order: Vec<usize> = Vec::new();
        let mut i: usize = 0;
        while i < self.shared.entry_count
            invariant
                self.wf(),
                i <= self.shared.entry_count,
                order@ == Seq::new(i as nat, |j: int| j as usize),
            decreases self.shared.entry_count - i,
        {
            order.push(i);
            i += 1;
            assert(order@ =~= Seq::new(i as nat, |j: int| j as usize));
        }
        order
    }

    /// Takes all scheduled entries off the list, to be polled.
    ///
    /// They stay marked as scheduled, so a wake-up does not schedule them again.
    pub fn poll_scheduled(&mut self) -> (batch: Batch)
        requires
            old(self).wf(),
            old(self)@.settled(),
        ensures
            final(self).wf(),
            batch.current == (if old(self)@.first == Link::Null {
                Link::NoNext
            } else {
                old(self)@.first
            }),
            final(self)@ == (if old(self)@.first == Link::Null {
                old(self)@
            } else {
                RawView { first: Link::Null, last: Link::Null, ..old(self)@ }
            }),
    {
        let first = self.take_first();
        if first == Link::Null {
            assert(self@ =~= old(self)@);
            return Batch { current: scheduled_no_next() };
        }
        let _ = self.take_last();
        assert(self@ =~= RawView { first: Link::Null, last: Link::Null, ..old(self)@ });
        Batch { current: first }
    }

    /// Takes the beginning of the list away. This is one indivisible operation.
    pub fn take_first(&mut self) -> (first: Link)
        requires
            old(self).wf(),
        ensures
            final(self).wf(),
            first == old(self)@.first,
            final(self)@ == (RawView { first: Link::Null, ..old(self)@ }),
    {
        let first = self.shared.first_to_poll;
        self.shared.first_to_poll = Link::Null;
        assert(self@ =~= RawView { first: Link::Null, ..old(self)@ });
        first
    }

    /// Takes the end of the list away. This is one indivisible operation.
    pub fn take_last(&mut self) -> (last: Link)
        requires
            old(self).wf(),
        ensures
            final(self).wf(),
            last == old(self)@.last,
            final(self)@ == (RawView { last: Link::Null, ..old(self)@ }),
    {
        let last = self.shared.last_to_poll;
        self.shared.last_to_poll = Link::Null;
        assert(self@ =~= RawView { last: Link::Null, ..old(self)@ });
        last
    }

    /// Links `entry` behind `prev`, or as the first one if there is none, provided that nothing
    /// stands there; answers whether it did. This is one indivisible operation.
    pub fn link_behind(&mut self, prev: Link, entry: usize) -> (done: bool)
        requires
            old(self).wf(),
            old(self)@.in_bounds(prev),
        ensures
            final(self).wf(),
            done == old(self)@.open_behind(prev),
            final(self)@ == (if done {
                old(self)@.linked(prev, Link::At(entry))
            } else {
                old(self)@
            }),
    {
        if let Link::At(l) = prev {
            if self.list[l].is_scheduled_and_next == scheduled_no_next() {
                self.list[l].is_scheduled_and_next = Link::At(entry);
                assert(self@ =~= old(self)@.linked(prev, Link::At(entry)));
                return true;
            }
        } else if self.shared.first_to_poll == Link::Null {
            self.shared.first_to_poll = Link::At(entry);
            assert(self@ =~= old(self)@.linked(prev, Link::At(entry)));
            return true;
        }
        false
    }

    /// Takes one step of an undertaking to append an entry.
    pub fn step(&mut self, enlist: &mut Enlist)
        requires
            old(self).wf(),
            old(enlist).in_bounds(old(self)@),
        ensures
            final(self).wf(),
            *final(enlist) == old(enlist).stepped(old(self)@).0,
            final(self)@ == old(enlist).stepped(old(self)@).1,
    {
        let entry = enlist.entry;
        let stage = match enlist.stage {
            EnlistStage::Claim => if self.list[entry].is_scheduled_and_next == Link::Null {
                self.list[entry].is_scheduled_and_next = scheduled_no_next();
                assert(self@ =~= old(self)@.linked(Link::At(entry), Link::NoNext));
                EnlistStage::FindLast
            } else {
                EnlistStage::Done { appended: false }
            },
            EnlistStage::FindLast => EnlistStage::Link { prev: self.shared.last_to_poll },
            EnlistStage::Link { prev } => if self.link_behind(prev, entry) {
                EnlistStage::Publish { prev }
            } else {
                EnlistStage::FindLast
            },
            EnlistStage::Publish { prev } => if self.shared.last_to_poll == prev {
                self.shared.last_to_poll = Link::At(entry);
                assert(self@ =~= RawView { last: Link::At(entry), ..old(self)@ });
                EnlistStage::Done { appended: true }
            } else {
                EnlistStage::Link { prev: self.shared.last_to_poll }
            },
            EnlistStage::Done { appended } => EnlistStage::Done { appended },
        };
        enlist.stage = stage;
    }

    /// Appends the entry at `entry`, unless it is scheduled already.
    pub fn schedule_to_poll(&mut self, entry: usize)
        requires
            old(self).wf(),
            old(self)@.settled(),
            entry < old(self)@.next.len(),
        ensures
            final(self).wf(),
            final(self)@ == old(self)@.scheduled(entry),
    {
        let ghost start = self@;
        let ghost claimed = start.linked(Link::At(entry), Link::NoNext);
        let mut enlist = Enlist { entry, stage: EnlistStage::Claim };
        loop
            invariant
                self.wf(),
                start == old(self)@,
                start.settled(),
                entry < start.next.len(),
                enlist.entry == entry,
                claimed == start.linked(Link::At(entry), Link::NoNext),
                !(enlist.stage is Claim || enlist.stage is Done) ==> start.next[entry as int]
                    == Link::Null,
                match enlist.stage {
                    EnlistStage::Claim => self@ == start,
                    EnlistStage::FindLast => self@ == claimed,
                    EnlistStage::Link { prev } => prev == start.last && self@ == claimed,
                    EnlistStage::Publish { prev } => prev == start.last && self@ == claimed.linked(
                        prev,
                        Link::At(entry),
                    ),
                    EnlistStage::Done { .. } => self@ == start.scheduled(entry),
                },
            decreases enlist.rank(),
        {
            if let EnlistStage::Done { .. } = enlist.stage {
                return;
            }
            self.step(&mut enlist);
            proof {
                if enlist.stage is Done {
                    assert(self@ =~= start.scheduled(entry));
                }
            }
        }
    }

    /// Wakes the external waker for the sake of the entry at `entry`, which has been scheduled.
    pub fn signal(&self, entry: usize)
        requires
            self@.is_scheduled(entry),
        ensures
            signalled(self@.extern_waker),
    {
        self.shared.extern_waker.wake();
    }

    /// Takes one step of a waker. Its last step is the one that wakes the external waker.
    pub fn step_waking(&mut self, waking: &mut RawWaking)
        requires
            old(self).wf(),
            old(waking).in_bounds(old(self)@),
        ensures
            final(self).wf(),
            *final(waking) == old(waking).stepped(old(self)@).0,
            final(self)@ == old(waking).stepped(old(self)@).1,
            *old(waking) matches RawWaking::Signal { entry, .. } ==> old(self)@.announced(entry)
                && signalled(old(self)@.extern_waker),
    {
        let next = match *waking {
            RawWaking::Append { enlist } => {
                let mut enlist = enlist;
                self.step(&mut enlist);
                match enlist.stage {
                    EnlistStage::Done { appended } => RawWaking::Signal {
                        entry: enlist.entry,
                        appended,
                    },
                    _ => RawWaking::Append { enlist },
                }
            },
            RawWaking::Signal { entry, .. } => {
                self.signal(entry);
                assert(signalled_by(*self, entry));
                RawWaking::Done
            },
            RawWaking::Done => RawWaking::Done,
        };
        *waking = next;
    }

    /// Wakes the future at `entry`: schedules it and, once that is done, wakes the external waker.
    pub fn wake_by_ref(&mut self, entry: usize)
        requires
            old(self).wf(),
            old(self)@.settled(),
            entry < old(self)@.next.len(),
        ensures
            final(self).wf(),
            final(self)@ == old(self)@.scheduled(entry),
            old(self)@.scheduled(entry).announced(entry),
            signalled(old(self)@.extern_waker),
    {
        self.schedule_to_poll(entry);
        self.signal(entry);
        assert(signalled_by(*self, entry));
    }

    /// Wakes the future at `entry` and then gives a waker up. Answers whether the memory is to be
    /// freed.
    pub fn wake(&mut self, entry: usize) -> (free: bool)
        requires
            old(self).wf(),
            old(self)@.settled(),
            entry < old(self)@.next.len(),
        ensures
            final(self).wf(),
            final(self)@ == (RawView {
                rc: old(self)@.rc.wrapping_sub(1),
                ..old(self)@.scheduled(entry)
            }),
            old(self)@.scheduled(entry).announced(entry),
            signalled(old(self)@.extern_waker),
            free == (old(self)@.rc == 1),
    {
        self.wake_by_ref(entry);
        self.dec_rc()
    }

    /// A waker for the future at `entry` that does not count as a user of the memory.
    pub fn weak_waker(&self, entry: usize) -> (waker: RawEntryWaker)
        ensures
            waker.entry == entry,
    {
        RawEntryWaker { entry }
    }

    /// A waker for the future at `entry` that counts as a user of the memory.
    pub fn strong_waker(&mut self, entry: usize) -> (waker: RawEntryWaker)
        requires
            old(self).wf(),
        ensures
            final(self).wf(),
            waker.entry == entry,
            final(self)@ == (RawView { rc: old(self)@.rc.wrapping_add(1), ..old(self)@ }),
    {
        self.inc_rc();
        self.weak_waker(entry)
    }
}

/// A waker for the future of one entry.
pub struct RawEntryWaker {
    pub entry: usize,
}

} // verus!
