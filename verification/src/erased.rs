//! The memory that a join and its wakers share.
//!
//! The entries of a join form a linked list of those that are scheduled for polling. A link is an
//! [`EntryPtr`]; the list is kept in the `next_scheduled` words of the entries, and
//! `last_to_poll` names its last element. Each method of [`JoinImpl`] that reads or writes one of
//! these words is one indivisible operation.
use core::future::Future;
use core::task::Waker;
use vstd::prelude::*;
use crate::fused_future::FusedFuture;

verus! {

/// The address of an entry of the list, or none.
#[derive(Clone, Copy, Debug, PartialEq, Eq, Structural)]
pub enum EntryPtr {
    /// No entry. As a link: the entry is not scheduled.
    Null,
    /// The entry at the head of the list, which has no future.
    Root,
    /// The entry that separates batches while a poll begins, which has no future.
    Buffer,
    /// The entry at this index. One past the last index marks the end of the list.
    At(usize),
}

/// Names one of the two sub-headers that lie in the header itself.
#[derive(Clone, Copy, Debug, PartialEq, Eq, Structural)]
pub enum HeaderField {
    RootEntry,
    BufferEntry,
}

/// The link of one entry.
pub struct EntrySubHeader {
    pub next_scheduled: EntryPtr,
}

/// The part of an entry that wakers use.
pub struct EntryHeader {
    pub inner: EntrySubHeader,
}

/// One future of a join and its place in the list.
pub struct Entry<T> where T: Future {
    pub header: EntryHeader,
    /// Absent while the future is being polled and after it has been dropped.
    pub future: Option<FusedFuture<T>>,
}

/// The part of the memory that does not depend on the number of futures.
pub struct JoinHeader {
    pub allocation_rc: usize,
    pub entry_count: usize,
    pub pending_entry_count: usize,
    pub extern_waker: Option<Waker>,
    pub last_to_poll: EntryPtr,
    pub root_entry: EntrySubHeader,
    pub buffer_entry: EntrySubHeader,
}

/// The memory of one join: its header and its entries.
pub struct JoinImpl<T> where T: Future {
    pub header: JoinHeader,
    pub entries: Vec<Entry<T>>,
}

/// The links of a join as a mathematical value.
#[verifier::ext_equal]
pub struct Links {
    /// The number of entries that have a future.
    pub count: nat,
    /// The link of each entry.
    pub next: Map<EntryPtr, EntryPtr>,
    /// The last entry of the list.
    pub last: EntryPtr,
}

impl Links {
    /// Whether `p` is the address of an entry.
    pub open spec fn is_entry(self, p: EntryPtr) -> bool {
        match p {
            EntryPtr::Null => false,
            EntryPtr::Root => true,
            EntryPtr::Buffer => true,
            EntryPtr::At(i) => i < self.count,
        }
    }

    /// Whether `p` is the address of an entry that has a future.
    pub open spec fn has_future(self, p: EntryPtr) -> bool {
        p is At && self.is_entry(p)
    }

    /// The link that marks the end of the list.
    pub open spec fn end(self) -> EntryPtr {
        EntryPtr::At(self.count as usize)
    }

    /// The links with the link of `p` changed to `to`.
    pub open spec fn linked(self, p: EntryPtr, to: EntryPtr) -> Links {
        Links { next: self.next.insert(p, to), ..self }
    }

    /// The links with the last entry changed to `p`.
    pub open spec fn published(self, p: EntryPtr) -> Links {
        Links { last: p, ..self }
    }
}

/// The contents of the memory of a join.
#[verifier::ext_equal]
#[verifier::reject_recursive_types(T)]
pub struct JoinView<T> where T: Future {
    pub links: Links,
    pub rc: usize,
    pub pending: usize,
    pub extern_waker: Option<Waker>,
    pub futures: Seq<Option<FusedFuture<T>>>,
}

impl<T> View for JoinImpl<T> where T: Future {
    type V = JoinView<T>;

    open spec fn view(&self) -> JoinView<T> {
        JoinView {
            links: self.links(),
            rc: self.header.allocation_rc,
            pending: self.header.pending_entry_count,
            extern_waker: self.header.extern_waker,
            futures: Seq::new(self.entries@.len(), |i: int| self.entries@[i].future),
        }
    }
}

impl<T> JoinImpl<T> where T: Future {
    /// The header counts the entries that there are.
    pub open spec fn wf(&self) -> bool {
        self.header.entry_count == self.entries@.len()
    }

    /// The link of the entry at `p`.
    pub open spec fn link_of(&self, p: EntryPtr) -> EntryPtr {
        match p {
            EntryPtr::Null => EntryPtr::Null,
            EntryPtr::Root => self.header.root_entry.next_scheduled,
            EntryPtr::Buffer => self.header.buffer_entry.next_scheduled,
            EntryPtr::At(i) => self.entries@[i as int].header.inner.next_scheduled,
        }
    }

    /// Whether `p` is the address of an entry of this memory.
    pub open spec fn is_entry(&self, p: EntryPtr) -> bool {
        match p {
            EntryPtr::Null => false,
            EntryPtr::Root => true,
            EntryPtr::Buffer => true,
            EntryPtr::At(i) => i < self.entries@.len(),
        }
    }

    /// The links of this memory.
    pub open spec fn links(&self) -> Links {
        Links {
            count: self.entries@.len(),
            next: Map::new(|p: EntryPtr| self.is_entry(p), |p: EntryPtr| self.link_of(p)),
            last: self.header.last_to_poll,
        }
    }

    /// Reads which entry is the last one.
    pub fn load_last(&self) -> (last: EntryPtr)
        ensures
            last == self@.links.last,
    {
        self.header.last_to_poll
    }

    /// Makes `new` the last entry if `current` is the last one; answers whether it was.
    pub fn exchange_last(&mut self, current: EntryPtr, new: EntryPtr) -> (done: bool)
        requires
            old(self).wf(),
        ensures
            final(self).wf(),
            done == (old(self)@.links.last == current),
            final(self)@ == (if done {
                JoinView { links: old(self)@.links.published(new), ..old(self)@ }
            } else {
                old(self)@
            }),
    {
        if self.header.last_to_poll == current {
            self.header.last_to_poll = new;
            assert(self@ =~= JoinView { links: old(self)@.links.published(new), ..old(self)@ });
            true
        } else {
            false
        }
    }

    /// Changes the link of the entry at `p` to `new` and answers what it was.
    pub fn swap_next(&mut self, p: EntryPtr, new: EntryPtr) -> (previous: EntryPtr)
        requires
            old(self).wf(),
            old(self)@.links.is_entry(p),
        ensures
            final(self).wf(),
            previous == old(self)@.links.next[p],
            final(self)@ == (JoinView { links: old(self)@.links.linked(p, new), ..old(self)@ }),
    {
        let previous = entry_subheader(self, p).next_scheduled;
        match p {
            EntryPtr::Root => {
                self.header.root_entry.next_scheduled = new;
            },
            EntryPtr::Buffer => {
                self.header.buffer_entry.next_scheduled = new;
            },
            EntryPtr::At(i) => {
                self.entries[i].header.inner.next_scheduled = new;
            },
            EntryPtr::Null => {},
        }
        assert(self@ =~= JoinView { links: old(self)@.links.linked(p, new), ..old(self)@ });
        previous
    }

    /// Changes the link of the entry at `p` from `current` to `new` if it is `current`; answers
    /// whether it was.
    pub fn exchange_next(&mut self, p: EntryPtr, current: EntryPtr, new: EntryPtr) -> (done: bool)
        requires
            old(self).wf(),
            old(self)@.links.is_entry(p),
        ensures
            final(self).wf(),
            done == (old(self)@.links.next[p] == current),
            final(self)@ == (if done {
                JoinView { links: old(self)@.links.linked(p, new), ..old(self)@ }
            } else {
                old(self)@
            }),
    {
        if entry_subheader(self, p).next_scheduled == current {
            let _ = self.swap_next(p, new);
            true
        } else {
            false
        }
    }
}

/// The header of the memory.
pub fn header<T: Future>(base: &JoinImpl<T>) -> (header: &JoinHeader)
    ensures
        *header == base.header,
{
    &base.header
}

/// The entries of the memory.
pub fn entries<T: Future>(base: &JoinImpl<T>) -> (entries: &Vec<Entry<T>>)
    ensures
        *entries == base.entries,
{
    &base.entries
}

/// The sub-header of the entry at `p`, which holds its link.
pub fn entry_subheader<T: Future>(base: &JoinImpl<T>, p: EntryPtr) -> (subheader: &EntrySubHeader)
    requires
        base.wf(),
        base@.links.is_entry(p),
    ensures
        *subheader == (match p {
            EntryPtr::Buffer => base.header.buffer_entry,
            EntryPtr::At(i) => base.entries@[i as int].header.inner,
            _ => base.header.root_entry,
        }),
        subheader.next_scheduled == base@.links.next[p],
{
    match p {
        EntryPtr::Buffer => &base.header.buffer_entry,
        EntryPtr::At(i) => &base.entries[i].header.inner,
        _ => &base.header.root_entry,
    }
}

/// The header of the entry at `p`, which is one that has a future.
pub fn entry_header<T: Future>(base: &JoinImpl<T>, p: EntryPtr) -> (header: &EntryHeader)
    requires
        base.wf(),
        base@.links.has_future(p),
    ensures
        *header == base.entries@[p->At_0 as int].header,
        header.inner.next_scheduled == base@.links.next[p],
{
    &entry(base, p).header
}

/// The entry at `p`, which is one that has a future.
pub fn entry<T: Future>(base: &JoinImpl<T>, p: EntryPtr) -> (entry: &Entry<T>)
    requires
        base.wf(),
        base@.links.has_future(p),
    ensures
        *entry == base.entries@[p->At_0 as int],
{
    match p {
        EntryPtr::At(i) => &base.entries[i],
        _ => &base.entries[0],
    }
}

/// The address of a sub-header that lies in the header.
pub fn erase_entry_subheader(field: HeaderField) -> (p: EntryPtr)
    ensures
        p == (match field {
            HeaderField::RootEntry => EntryPtr::Root,
            HeaderField::BufferEntry => EntryPtr::Buffer,
        }),
{
    match field {
        HeaderField::RootEntry => EntryPtr::Root,
        HeaderField::BufferEntry => EntryPtr::Buffer,
    }
}

/// The address of the entry at `index`; for the number of entries, the end of the list.
pub fn erase_entry(index: usize) -> (p: EntryPtr)
    ensures
        p == EntryPtr::At(index),
{
    EntryPtr::At(index)
}

/// Memory for `entry_count` futures: no entry is scheduled, and none has its future yet.
pub fn alloc_join_impl<T: Future>(entry_count: usize) -> (base: JoinImpl<T>)
    ensures
        base.wf(),
        base@.links.count == entry_count,
        forall|p: EntryPtr|
            base@.links.is_entry(p) ==> #[trigger] base@.links.next[p] == EntryPtr::Null,
        base@.links.last == EntryPtr::Root,
        base@.rc == 1,
        base@.pending == entry_count,
        base@.extern_waker is None,
        base@.futures =~= Seq::new(entry_count as nat, |i: int| None::<FusedFuture<T>>),
{
    let mut entries: Vec<Entry<T>> = Vec::new();
    let mut i: usize = 0;
    while i < entry_count
        invariant
            i <= entry_count,
            entries@.len() == i,
            forall|j: int|
                0 <= j < i ==> (#[trigger] entries@[j]).future is None
                    && entries@[j].header.inner.next_scheduled == EntryPtr::Null,
        decreases entry_count - i,
    {
        entries.push(
            Entry {
                header: EntryHeader { inner: EntrySubHeader { next_scheduled: EntryPtr::Null } },
                future: None,
            },
        );
        i += 1;
    }
    JoinImpl {
        header: JoinHeader {
            allocation_rc: 1,
            entry_count,
            pending_entry_count: entry_count,
            extern_waker: None,
            last_to_poll: EntryPtr::Root,
            root_entry: EntrySubHeader { next_scheduled: EntryPtr::Null },
            buffer_entry: EntrySubHeader { next_scheduled: EntryPtr::Null },
        },
        entries,
    }
}

} // verus!
