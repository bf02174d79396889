//! Counting who uses the shared memory.
use core::future::Future;
use vstd::prelude::*;
use crate::erased::{JoinImpl, JoinView};

verus! {

/// Counts one more user. The count wraps around at the largest `usize`.
pub fn inc_rc<T: Future>(base: &mut JoinImpl<T>)
    requires
        old(base).wf(),
    ensures
        final(base).wf(),
        final(base)@ == (JoinView { rc: old(base)@.rc.wrapping_add(1), ..old(base)@ }),
{
    base.header.allocation_rc = base.header.allocation_rc.wrapping_add(1);
    assert(base@ =~= JoinView { rc: old(base)@.rc.wrapping_add(1), ..old(base)@ });
}

/// Counts one user less and answers whether that was the last one, so that the memory is to be
/// freed. The count wraps around at zero.
pub fn dec_rc<T: Future>(base: &mut JoinImpl<T>) -> (free: bool)
    requires
        old(base).wf(),
    ensures
        final(base).wf(),
        final(base)@ == (JoinView { rc: old(base)@.rc.wrapping_sub(1), ..old(base)@ }),
        free == (old(base)@.rc == 1),
{
    let old_rc: usize = base.header.allocation_rc;
    base.header.allocation_rc = old_rc.wrapping_sub(1);
    assert(base@ =~= JoinView { rc: old(base)@.rc.wrapping_sub(1), ..old(base)@ });
    old_rc == 1
}

/// Who uses the memory of a join.
pub struct Users {
    /// The count in the memory.
    pub rc: usize,
    /// Whether the join exists.
    pub join: bool,
    /// The number of wakers that count.
    pub wakers: nat,
    /// How often the memory has been freed.
    pub freed: nat,
}

impl Users {
    /// A new join.
    pub open spec fn initial(self) -> bool {
        self.rc == 1 && self.join && self.wakers == 0 && self.freed == 0
    }

    /// The number of users.
    pub open spec fn number(self) -> nat {
        self.wakers + (if self.join {
            1nat
        } else {
            0nat
        })
    }

    /// A waker is cloned.
    pub open spec fn clones(self, next: Users) -> bool {
        &&& self.number() > 0
        &&& self.number() < usize::MAX
        &&& next == (Users { rc: self.rc.wrapping_add(1), wakers: self.wakers + 1, ..self })
    }

    /// A user goes: the memory is freed if the count says so.
    pub open spec fn counted_off(self) -> Users {
        Users {
            rc: self.rc.wrapping_sub(1),
            freed: if self.rc == 1 {
                self.freed + 1
            } else {
                self.freed
            },
            ..self
        }
    }

    /// A waker that counts is dropped.
    pub open spec fn drops_waker(self, next: Users) -> bool {
        &&& self.wakers > 0
        &&& next == (Users { wakers: (self.wakers - 1) as nat, ..self.counted_off() })
    }

    /// The join is dropped.
    pub open spec fn drops_join(self, next: Users) -> bool {
        &&& self.join
        &&& next == (Users { join: false, ..self.counted_off() })
    }

    /// One of the users does something.
    pub open spec fn moves(self, next: Users) -> bool {
        self.clones(next) || self.drops_waker(next) || self.drops_join(next)
    }

    /// The count is the number of users, and the memory is freed when there are none, once.
    pub open spec fn counted(self) -> bool {
        &&& self.rc == self.number()
        &&& self.freed == (if self.number() == 0 {
            1nat
        } else {
            0nat
        })
    }
}

/// One of the users moves on from the state at `k` of a course.
pub open spec fn moves_on(course: Seq<Users>, k: int) -> bool {
    course[k].moves(course[k + 1])
}

/// However wakers are cloned and dropped, before and after the join is: the count is the number of
/// users, and the memory is freed once, when the last user is gone.
pub proof fn freed_by_the_last_user(course: Seq<Users>, k: int)
    requires
        0 <= k < course.len(),
        course[0].initial(),
        forall|j: int| 0 <= j < course.len() - 1 ==> #[trigger] moves_on(course, j),
    ensures
        course[k].counted(),
    decreases k,
{
    if k > 0 {
        freed_by_the_last_user(course, k - 1);
        assert(moves_on(course, k - 1));
    }
}

} // verus!
