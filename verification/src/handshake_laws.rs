//! What holds of a handshake in whatever order the steps of its two sides come.
use core::task::Waker;
use vstd::prelude::*;
use crate::handshake::{initial_state, other, ReadyCall, StateView};
use crate::task::serves;

verus! {

/// What a side is doing.
pub enum Activity {
    /// Nothing.
    Idle,
    /// It is asked whether both sides are ready.
    Calling { call: ReadyCall },
    /// It has been given up.
    Gone,
}

/// Two sides, what they share and what they do.
pub struct System {
    pub state: StateView,
    pub sides: Seq<Activity>,
    /// Which sides have been answered that the other is not ready, and have not been woken since.
    pub waiting: Seq<bool>,
    /// Which side put the waker into the slot last.
    pub holder: int,
    /// How often the shared state has been freed.
    pub freed: nat,
    /// Which sides have announced in a call that they are ready.
    pub announced: Seq<bool>,
    /// The waker with which each side has been asked last.
    pub asked: Seq<Waker>,
}

impl System {
    /// The two sides of a new handshake.
    pub open spec fn initial(self) -> bool {
        &&& self.state == initial_state()
        &&& self.sides == seq![Activity::Idle, Activity::Idle]
        &&& self.waiting == seq![false, false]
        &&& self.freed == 0
        &&& self.announced == seq![false, false]
        &&& self.asked.len() == 2
    }

    /// Side `i` is asked whether both sides are ready, by the task of some waker.
    pub open spec fn begins(self, next: System, i: int) -> bool {
        &&& self.sides[i] is Idle
        &&& next.asked == self.asked.update(i, next.asked[i])
        &&& next == (System {
            sides: self.sides.update(i, Activity::Calling { call: ReadyCall::Announce }),
            waiting: self.waiting.update(i, false),
            asked: next.asked,
            ..self
        })
    }

    /// Side `i` takes a step of its call.
    pub open spec fn steps(self, next: System, i: int) -> bool {
        &&& self.sides[i] matches Activity::Calling { call }
        &&& !(call is Answer)
        &&& next.sides == self.sides.update(
            i,
            Activity::Calling { call: call.stepped(i, self.state).0 },
        )
        &&& next.freed == self.freed
        &&& next.asked == self.asked
        &&& next.announced == (if call is Announce {
            self.announced.update(i, true)
        } else {
            self.announced
        })
        &&& if call is Register {
            &&& call.may_hold(self.state.waker, self.asked[i], next.state.waker)
            &&& next.state == (StateView { waker: next.state.waker, ..self.state })
            &&& next.holder == i
        } else {
            &&& next.state == call.stepped(i, self.state).1
            &&& next.holder == self.holder
        }
        &&& next.waiting == self.waiting_after(call, i, call.stepped(i, self.state).0)
    }

    /// Which sides wait after side `i` has come from `call` to `to`: the one whose waker is taken is
    /// woken, and the one that is answered waits if the answer is that the other is not ready.
    pub open spec fn waiting_after(self, call: ReadyCall, i: int, to: ReadyCall) -> Seq<bool> {
        let waiting = if call is TakeWaker {
            self.waiting.update(self.holder, false)
        } else {
            self.waiting
        };
        match to {
            ReadyCall::Answer { both } => waiting.update(i, !both),
            _ => waiting,
        }
    }

    /// Side `i` gives its answer.
    pub open spec fn answers(self, next: System, i: int) -> bool {
        &&& self.sides[i] matches Activity::Calling { call }
        &&& call is Answer
        &&& next == (System { sides: self.sides.update(i, Activity::Idle), ..self })
    }

    /// Side `i` is given up.
    pub open spec fn leaves(self, next: System, i: int) -> bool {
        &&& self.sides[i] is Idle
        &&& next == (System {
            state: self.state.left(i),
            sides: self.sides.update(i, Activity::Gone),
            freed: if self.state.alive[other(i)] {
                self.freed
            } else {
                self.freed + 1
            },
            ..self
        })
    }

    /// One of the sides does something.
    pub open spec fn moves(self, next: System, i: int) -> bool {
        &&& 0 <= i < 2
        &&& self.begins(next, i) || self.steps(next, i) || self.answers(next, i) || self.leaves(
            next,
            i,
        )
    }

    /// Side `i` is in the midst of a call.
    pub open spec fn calls(self, i: int, call: ReadyCall) -> bool {
        self.sides[i] == (Activity::Calling { call })
    }

    /// Side `i` is about to use the slot, or is using it.
    pub open spec fn uses_slot(self, i: int) -> bool {
        &&& self.sides[i] matches Activity::Calling { call }
        &&& call is TakeWaker || call is Register || call is Publish
    }

    /// At most one side uses the slot at a time; it finds a waker where it expects one and none
    /// where it does not.
    pub open spec fn slot_is_safe(self) -> bool {
        &&& !(self.uses_slot(0) && self.uses_slot(1))
        &&& forall|i: int| #[trigger]
            self.uses_slot(i) && 0 <= i < 2 ==> {
                self.state.waker is Some <==> !self.calls(i, ReadyCall::Register { init: false })
            }
    }

    /// A side that waits while the other has become ready is about to be woken.
    pub open spec fn wakes(self) -> bool {
        forall|i: int|
            0 <= i < 2 && #[trigger] self.waiting[i] && self.state.ready[other(i)] ==> {
                &&& self.calls(other(i), ReadyCall::TakeWaker)
                &&& self.holder == i
            }
    }

    /// A side is answered that both are ready only if both are.
    pub open spec fn answers_are_true(self) -> bool {
        forall|i: int|
            0 <= i < 2 && #[trigger] self.calls(i, ReadyCall::Answer { both: true })
                ==> self.state.ready[0] && self.state.ready[1]
    }

    /// The state is freed once, when both sides are gone, and then no waker is left in it.
    pub open spec fn freed_in_the_end(self) -> bool {
        &&& self.freed == (if self.sides[0] is Gone && self.sides[1] is Gone {
            1nat
        } else {
            0nat
        })
        &&& self.freed == 1 ==> self.state.waker is None
    }

    /// The state says of each side whether it has announced itself, and whether it exists.
    pub open spec fn flags_are_true(self) -> bool {
        &&& forall|i: int| 0 <= i < 2 ==> #[trigger] self.state.ready[i] == self.announced[i]
        &&& forall|i: int|
            0 <= i < 2 ==> #[trigger] self.state.alive[i] == !(self.sides[i] is Gone)
    }

    /// For a side that waits, the slot holds a waker of the task that has asked last, as long as the
    /// state exists.
    pub open spec fn waiting_sides_left_their_wakers(self) -> bool {
        forall|i: int|
            0 <= i < 2 && #[trigger] self.waiting[i] && self.freed == 0 ==> self.state.waker is Some
                && serves(self.state.waker->0, self.asked[i])
    }

    /// All of the above.
    pub open spec fn safe(self) -> bool {
        &&& self.flags_are_true()
        &&& self.waiting_sides_left_their_wakers()
        &&& self.slot_is_safe()
        &&& self.wakes()
        &&& self.answers_are_true()
        &&& self.freed_in_the_end()
    }

    /// What holds of one side at any time.
    spec fn side_inv(self, i: int) -> bool {
        &&& self.state.alive[i] == !(self.sides[i] is Gone)
        &&& self.state.ready[i] == self.announced[i]
        &&& self.calls(i, ReadyCall::Publish) || (self.waiting[i] && self.freed == 0)
            ==> self.state.waker is Some && serves(self.state.waker->0, self.asked[i])
        &&& self.sides[i] matches Activity::Calling { call } ==> {
            &&& !(call is Announce) ==> self.state.ready[i]
            &&& call is TakeWaker ==> self.state.ready[other(i)]
            &&& call == (ReadyCall::Answer { both: true }) ==> self.state.ready[other(i)]
            &&& call == (ReadyCall::Register { init: true }) ==> self.holder == i
            &&& call is Publish ==> self.holder == i
            &&& call is TakeWaker || call is Publish ==> self.state.waker is Some
            &&& call matches ReadyCall::Register { init } ==> (self.state.waker is Some) == init
        }
        &&& self.uses_slot(i) ==> !self.state.init
        &&& self.waiting[i] ==> {
            &&& self.state.ready[i]
            &&& !self.uses_slot(i)
            &&& !self.calls(i, ReadyCall::Announce)
            &&& !self.calls(i, ReadyCall::Answer { both: true })
            &&& self.holder == i
            &&& if self.state.ready[other(i)] {
                self.calls(other(i), ReadyCall::TakeWaker)
            } else {
                self.state.init
            }
        }
    }

    /// What holds at any time.
    spec fn inv(self) -> bool {
        &&& self.sides.len() == 2
        &&& self.waiting.len() == 2
        &&& self.announced.len() == 2
        &&& self.asked.len() == 2
        &&& self.state.alive.len() == 2
        &&& self.state.ready.len() == 2
        &&& self.side_inv(0)
        &&& self.side_inv(1)
        &&& !(self.uses_slot(0) && self.uses_slot(1))
        &&& !self.uses_slot(0) && !self.uses_slot(1) && self.freed == 0 ==> (self.state.init
            == self.state.waker is Some)
        &&& self.state.waker is Some ==> 0 <= self.holder < 2 && self.state.ready[self.holder]
        &&& self.freed_in_the_end()
    }
}

/// Every move keeps the invariant.
proof fn lemma_inv_kept(s: System, next: System, i: int)
    requires
        s.inv(),
        s.moves(next, i),
    ensures
        next.inv(),
{
    if s.steps(next, i) {
        let call = s.sides[i]->call;
        if call is Register {
            a_side_leaves_its_waker(call, s.state.waker, s.asked[i], next.state.waker);
        }
        assert(next.side_inv(i));
        assert(next.side_inv(other(i)));
    }
}

/// The invariant makes a state safe.
proof fn lemma_inv_safe(s: System)
    requires
        s.inv(),
    ensures
        s.safe(),
{
    assert forall|i: int|
        0 <= i < 2 && #[trigger] s.waiting[i] && s.state.ready[other(i)] implies s.calls(
        other(i),
        ReadyCall::TakeWaker,
    ) && s.holder == i by {
        assert(i == 0 || i == 1);
    }
}

/// One of the sides moves on from the state at `k` of a course.
pub open spec fn moves_on(course: Seq<System>, k: int) -> bool {
    exists|i: int| #[trigger] course[k].moves(course[k + 1], i)
}

/// A course that two sides take: it begins with a new handshake, and each of its states comes
/// from the one before by a move of one of the sides.
pub open spec fn is_course(course: Seq<System>) -> bool {
    &&& course.len() > 0
    &&& course[0].initial()
    &&& forall|k: int| 0 <= k < course.len() - 1 ==> #[trigger] moves_on(course, k)
}

proof fn lemma_course_inv(course: Seq<System>, k: int)
    requires
        is_course(course),
        0 <= k < course.len(),
    ensures
        course[k].inv(),
    decreases k,
{
    if k > 0 {
        lemma_course_inv(course, k - 1);
        assert(moves_on(course, k - 1));
        let i = choose|i: int| #[trigger] course[k - 1].moves(course[k - 1 + 1], i);
        lemma_inv_kept(course[k - 1], course[k], i);
    }
}

/// In whatever order the two sides move: the flags say which sides have announced themselves and
/// which exist; the slot is used by one side at a time and holds a waker exactly where one is
/// expected; a side that waits has left a waker of its own task, and that wake-up is not lost; the
/// answer that both sides are ready is true; and the state is freed exactly once, with no waker left
/// in it.
///
/// Each side is asked by one caller at a time.
pub proof fn every_course_is_safe(course: Seq<System>, k: int)
    requires
        is_course(course),
        0 <= k < course.len(),
    ensures
        course[k].safe(),
{
    lemma_course_inv(course, k);
    lemma_inv_safe(course[k]);
}

/// A side that registers leaves a waker of its own task in the slot: a new one, unless it finds one
/// there and that one answers that it wakes the same task.
pub proof fn a_side_leaves_its_waker(
    call: ReadyCall,
    before: Option<Waker>,
    waker: Waker,
    after: Option<Waker>,
)
    requires
        call is Register,
        call.may_hold(before, waker, after),
    ensures
        after is Some,
        serves(after->0, waker),
        cloned(waker, after->0) || (call == (ReadyCall::Register { init: true }) && before is Some
            && after == before),
{
}

/// In whatever order the two sides move: a side is answered that both are ready if the other one has
/// announced itself by then, and that they are not if it has not.
pub proof fn a_side_is_answered_what_is_so(course: Seq<System>, k: int, i: int, both: bool)
    requires
        is_course(course),
        0 <= k < course.len() - 1,
        0 <= i < 2,
        !course[k].calls(i, ReadyCall::Answer { both }),
        course[k + 1].calls(i, ReadyCall::Answer { both }),
    ensures
        both == course[k].announced[other(i)],
        course[k + 1].waiting[i] == !both,
{
    lemma_course_inv(course, k);
    assert(moves_on(course, k));
    let m = choose|m: int| #[trigger] course[k].moves(course[k + 1], m);
    let s = course[k];
    assert(s.side_inv(i) && s.side_inv(other(i)));
    assert(s.state.ready[other(i)] == s.announced[other(i)]);
    assert(m == i);
}

/// The number of steps after which a call has come to its answer, at the most.
pub open spec fn steps_left(call: ReadyCall) -> nat {
    match call {
        ReadyCall::Announce => 3,
        ReadyCall::Register { .. } => 2,
        ReadyCall::TakeWaker => 1,
        ReadyCall::Publish => 1,
        ReadyCall::Answer { .. } => 0,
    }
}

/// Every step of a call brings it nearer to its answer.
pub proof fn a_call_comes_to_its_answer(call: ReadyCall, side: int, state: StateView)
    requires
        !(call is Answer),
    ensures
        steps_left(call.stepped(side, state).0) < steps_left(call),
{
}

/// The call of one side that is not interrupted: after three steps at the most it is answered
/// whether the other side had announced itself, and its own announcement stands.
pub proof fn a_call_alone_is_answered(side: int, state: StateView)
    requires
        0 <= side < 2,
        state.ready.len() == 2,
    ensures
        ({
            let (call1, state1) = ReadyCall::Announce.stepped(side, state);
            let (call2, state2) = call1.stepped(side, state1);
            let (call3, state3) = call2.stepped(side, state2);
            &&& call3 == (ReadyCall::Answer { both: state.ready[other(side)] })
            &&& state3.ready[side]
            &&& state3.ready[other(side)] == state.ready[other(side)]
            &&& state3.alive == state.alive
            &&& state3.init == !state.ready[other(side)]
            &&& state.ready[other(side)] && state.init ==> state3.waker is None
        }),
{
}

/// A step of one side leaves alone what the other side has announced and which sides exist. It takes
/// back no announcement, and only the one that wakes the other side empties the slot.
pub proof fn a_step_leaves_the_other_side_alone(call: ReadyCall, side: int, state: StateView)
    requires
        0 <= side < 2,
        state.ready.len() == 2,
    ensures
        ({
            let after = call.stepped(side, state).1;
            &&& after.alive == state.alive
            &&& after.ready.len() == 2
            &&& after.ready[other(side)] == state.ready[other(side)]
            &&& after.ready[side] == (state.ready[side] || call is Announce)
            &&& after.waker == (if call is TakeWaker {
                None
            } else {
                state.waker
            })
        }),
{
}

/// Giving a side up takes back none of the announcements and makes none. As long as the other side
/// exists, it finds everything as it was; the last one to leave leaves no waker that was marked as
/// usable.
pub proof fn a_side_that_leaves_announces_nothing(state: StateView, side: int)
    requires
        0 <= side < 2,
        state.alive.len() == 2,
    ensures
        state.left(side).ready == state.ready,
        state.left(side).init == state.init,
        !state.left(side).alive[side],
        state.left(side).alive[other(side)] == state.alive[other(side)],
        state.alive[other(side)] ==> state.left(side).waker == state.waker,
        !state.alive[other(side)] && state.init ==> state.left(side).waker is None,
{
}

} // verus!
