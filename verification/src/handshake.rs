//! Two sides that wait for each other.
//!
//! A side that is ready while the other is not leaves its waker behind; the other side wakes it
//! when it becomes ready in turn. The sides share one status word and one slot for a waker. Each
//! step of a [`ReadyCall`] is one indivisible operation on the status word or one use of the slot,
//! so the steps of the two sides may come in any order.
use core::task::Poll;
use core::task::Waker;
use vstd::prelude::*;
use crate::dropped::dropped;
use crate::task::{register_waker, registered, serves, settle_waker};

verus! {

pub const FIRST_ALIVE: usize = 0b01;

pub const SECOND_ALIVE: usize = 0b10;

pub const WAKER_UNINIT: usize = 0b10000;

/// The bit of the status word that says that `side` exists.
pub fn alive_flag(side: usize) -> (flag: usize)
    requires
        side < usize::BITS,
    ensures
        flag == 1usize << side,
{
    1usize << side
}

/// The bit of the status word that says that `side` is ready.
pub fn ready_flag(side: usize) -> (flag: usize)
    requires
        side < usize::BITS,
    ensures
        flag == 0b100usize << side,
{
    0b100usize << side
}

/// What the two sides share.
pub struct State {
    status: usize,
    waker: Option<Waker>,
}

/// The contents of the shared state.
#[verifier::ext_equal]
pub struct StateView {
    /// Which sides exist.
    pub alive: Seq<bool>,
    /// Which sides have been ready.
    pub ready: Seq<bool>,
    /// Whether the slot is marked as holding a waker that either side may use.
    pub init: bool,
    /// What the slot holds.
    pub waker: Option<Waker>,
}

impl View for State {
    type V = StateView;

    closed spec fn view(&self) -> StateView {
        StateView {
            alive: seq![self.status & 0b01 != 0, self.status & 0b10 != 0],
            ready: seq![self.status & 0b100 != 0, self.status & 0b1000 != 0],
            init: self.status & 0b10000 == 0,
            waker: self.waker,
        }
    }
}

/// The state of two sides neither of which has been ready.
pub open spec fn initial_state() -> StateView {
    StateView { alive: seq![true, true], ready: seq![false, false], init: false, waker: None }
}

/// The side opposite to `side`.
pub open spec fn other(side: int) -> int {
    1 - side
}

/// What one side learns when it announces that it is ready.
pub struct Announced {
    /// Whether the other side was ready.
    pub other_ready: bool,
    /// Whether the slot was marked as holding a waker.
    pub init: bool,
}

/// What one side learns when it leaves.
pub struct Left {
    /// Whether the other side still exists.
    pub other_alive: bool,
    /// Whether the slot was marked as holding a waker.
    pub init: bool,
}

impl StateView {
    /// The state after `side` has left. The last one to leave drops the waker that is there.
    pub open spec fn left(self, side: int) -> StateView {
        StateView {
            alive: self.alive.update(side, false),
            waker: if !self.alive[other(side)] && self.init {
                None
            } else {
                self.waker
            },
            ..self
        }
    }
}

impl State {
    /// The state of two sides neither of which is ready.
    fn new() -> (state: State)
        ensures
            state@ == initial_state(),
    {
        assert((1usize | 2usize | 16usize) & 1 != 0 && (1usize | 2usize | 16usize) & 2 != 0 && (
        1usize | 2usize | 16usize) & 4 == 0 && (1usize | 2usize | 16usize) & 8 == 0 && (1usize
            | 2usize | 16usize) & 16 != 0) by (bit_vector);
        State { status: FIRST_ALIVE | SECOND_ALIVE | WAKER_UNINIT, waker: None }
    }

    /// Marks `side` as ready and the slot as in use, in one operation.
    pub fn announce(&mut self, side: usize) -> (seen: Announced)
        requires
            side < 2,
        ensures
            final(self)@ == (StateView {
                ready: old(self)@.ready.update(side as int, true),
                init: false,
                ..old(self)@
            }),
            seen.other_ready == old(self)@.ready[other(side as int)],
            seen.init == old(self)@.init,
    {
        let status = self.status;
        self.status = status | ready_flag(side) | WAKER_UNINIT;
        proof {
            lemma_shifts();
            let m: usize = status;
            assert((m | 4 | 16) & 1 == m & 1 && (m | 4 | 16) & 2 == m & 2 && (m | 4 | 16) & 4 != 0
                && (m | 4 | 16) & 8 == m & 8 && (m | 4 | 16) & 16 != 0) by (bit_vector);
            assert((m | 8 | 16) & 1 == m & 1 && (m | 8 | 16) & 2 == m & 2 && (m | 8 | 16) & 4 == m
                & 4 && (m | 8 | 16) & 8 != 0 && (m | 8 | 16) & 16 != 0) by (bit_vector);
            assert(self@.ready =~= old(self)@.ready.update(side as int, true));
        }
        Announced {
            other_ready: status & ready_flag(side ^ 1) != 0,
            init: status & WAKER_UNINIT == 0,
        }
    }

    /// Marks the slot as holding a waker that either side may use, and reads whether the side
    /// opposite to `side` is ready, in one operation.
    pub fn publish(&mut self, side: usize) -> (other_ready: bool)
        requires
            side < 2,
        ensures
            final(self)@ == (StateView { init: true, ..old(self)@ }),
            other_ready == old(self)@.ready[other(side as int)],
    {
        let status = self.status;
        self.status = status & !WAKER_UNINIT;
        proof {
            lemma_shifts();
            let m: usize = status;
            assert((m & !16usize) & 1 == m & 1 && (m & !16usize) & 2 == m & 2 && (m & !16usize) & 4
                == m & 4 && (m & !16usize) & 8 == m & 8 && (m & !16usize) & 16 == 0)
                by (bit_vector);
            assert(self@ =~= StateView { init: true, ..old(self)@ });
        }
        status & ready_flag(side ^ 1) != 0
    }

    /// Marks `side` as gone, in one operation.
    pub fn leave(&mut self, side: usize) -> (seen: Left)
        requires
            side < 2,
        ensures
            final(self)@ == (StateView {
                alive: old(self)@.alive.update(side as int, false),
                ..old(self)@
            }),
            seen.other_alive == old(self)@.alive[other(side as int)],
            seen.init == old(self)@.init,
    {
        let status = self.status;
        self.status = status & !alive_flag(side);
        proof {
            lemma_shifts();
            let m: usize = status;
            assert((m & !1usize) & 1 == 0 && (m & !1usize) & 2 == m & 2 && (m & !1usize) & 4 == m
                & 4 && (m & !1usize) & 8 == m & 8 && (m & !1usize) & 16 == m & 16)
                by (bit_vector);
            assert((m & !2usize) & 1 == m & 1 && (m & !2usize) & 2 == 0 && (m & !2usize) & 4 == m
                & 4 && (m & !2usize) & 8 == m & 8 && (m & !2usize) & 16 == m & 16)
                by (bit_vector);
            assert(self@ =~= StateView {
                alive: old(self)@.alive.update(side as int, false),
                ..old(self)@
            });
        }
        Left {
            other_alive: status & alive_flag(side ^ 1) != 0,
            init: status & WAKER_UNINIT == 0,
        }
    }
}

/// The flags of the two sides as numbers.
proof fn lemma_shifts()
    ensures
        0usize ^ 1 == 1,
        1usize ^ 1 == 0,
        1usize << 0usize == 1,
        1usize << 1usize == 2,
        4usize << 0usize == 4,
        4usize << 1usize == 8,
{
    assert(0usize ^ 1 == 1 && 1usize ^ 1 == 0 && 1usize << 0usize == 1 && 1usize << 1usize == 2
        && 4usize << 0usize == 4 && 4usize << 1usize == 8) by (bit_vector);
}

/// Which side a tagged address belongs to, and the address of the state without the tag.
///
/// The state lies at a multiple of two, which leaves the lowest bit of the address for the tag.
pub fn untag(ptr: usize) -> (r: (usize, usize))
    ensures
        r.0 == ptr % 2,
        r.1 == ptr - ptr % 2,
{
    assert(ptr & 1 == ptr % 2) by (bit_vector);
    let side = ptr & 1;
    (side, ptr.wrapping_sub(side))
}

/// The address of the state: the first multiple of two that is not zero. Addresses are counted
/// within the memory of one handshake, and zero is the address of nothing.
const STATE_ADDRESS: usize = 2;

/// One of the two sides.
pub struct Side {
    /// The tagged address of the state.
    ptr: usize,
}

/// Two sides and what they share.
pub fn handshake() -> (r: (State, [Side; 2]))
    ensures
        r.0@ == initial_state(),
        r.1@[0].side() == 0,
        r.1@[1].side() == 1,
        r.1@[0].state() == r.1@[1].state(),
        r.1@[0].state() % 2 == 0,
        r.1@[0].state() > 0,
{
    let ptr: usize = STATE_ADDRESS;
    (State::new(), [Side { ptr }, Side { ptr: ptr.wrapping_add(1) }])
}

/// What a side that is asked whether both sides are ready does next.
#[derive(Clone, Copy, Debug, PartialEq, Eq, Structural)]
pub enum ReadyCall {
    /// Announce that this side is ready.
    Announce,
    /// Take the waker of the other side out of the slot and wake it.
    TakeWaker,
    /// Put a waker into the slot, which holds one already if `init` is set.
    Register { init: bool },
    /// Let the other side use the waker in the slot.
    Publish,
    /// Answer whether both sides are ready.
    Answer { both: bool },
}

impl ReadyCall {
    /// What becomes of the call and of the shared state in one step of `side`, but for what
    /// registering puts into the slot.
    pub open spec fn stepped(self, side: int, state: StateView) -> (ReadyCall, StateView) {
        match self {
            ReadyCall::Announce => (
                if !state.ready[other(side)] {
                    ReadyCall::Register { init: state.init }
                } else if state.init {
                    ReadyCall::TakeWaker
                } else {
                    ReadyCall::Answer { both: true }
                },
                StateView { ready: state.ready.update(side, true), init: false, ..state },
            ),
            ReadyCall::TakeWaker => (
                ReadyCall::Answer { both: true },
                StateView { waker: None, ..state },
            ),
            ReadyCall::Register { .. } => (ReadyCall::Publish, state),
            ReadyCall::Publish => (
                ReadyCall::Answer { both: state.ready[other(side)] },
                StateView { init: true, ..state },
            ),
            ReadyCall::Answer { .. } => (self, state),
        }
    }

    /// What the slot may hold after one step with `waker` at hand, if the step registers it.
    pub open spec fn may_hold(
        self,
        before: Option<Waker>,
        waker: Waker,
        after: Option<Waker>,
    ) -> bool {
        if self == (ReadyCall::Register { init: true }) {
            registered(before, waker, after)
        } else {
            after is Some && cloned(waker, after->0)
        }
    }
}

impl Side {
    /// The address without the tag is not zero.
    #[verifier::type_invariant]
    spec fn has_state(self) -> bool {
        self.ptr >= 2
    }

    /// Which of the two sides this is.
    pub closed spec fn side(&self) -> int {
        self.ptr as int % 2
    }

    /// The address of the shared state.
    pub closed spec fn state(&self) -> int {
        self.ptr - self.ptr as int % 2
    }

    /// Which of the two sides this is, and the address of the shared state.
    pub fn side_and_state(&self) -> (r: (usize, usize))
        ensures
            r.0 == self.side(),
            r.0 < 2,
            r.1 == self.state(),
            r.1 % 2 == 0,
            r.1 > 0,
    {
        proof {
            use_type_invariant(self);
        }
        untag(self.ptr)
    }

    /// Takes one step of a call of this side. Answers the waker that is to be woken, if any.
    pub fn step(&self, call: &mut ReadyCall, state: &mut State, waker: &Waker) -> (wake: Option<
        Waker,
    >)
        ensures
            *final(call) == old(call).stepped(self.side(), old(state)@).0,
            !(*old(call) is Register) ==> final(state)@ == old(call).stepped(
                self.side(),
                old(state)@,
            ).1,
            *old(call) is Register ==> {
                &&& final(state)@ == (StateView { waker: final(state)@.waker, ..old(state)@ })
                &&& old(call).may_hold(old(state)@.waker, *waker, final(state)@.waker)
            },
            *old(call) is Register ==> {
                &&& final(state)@.waker is Some
                &&& serves(final(state)@.waker->0, *waker)
            },
            *final(call) matches ReadyCall::Answer { both } ==> *old(call) is TakeWaker || *old(
                call,
            ) is Answer || both == old(state)@.ready[other(self.side())],
            *old(call) is TakeWaker ==> *final(call) == (ReadyCall::Answer { both: true }),
            final(state)@.alive == old(state)@.alive,
            final(state)@.ready == (if *old(call) is Announce {
                old(state)@.ready.update(self.side(), true)
            } else {
                old(state)@.ready
            }),
            wake == (if *old(call) is TakeWaker {
                old(state)@.waker
            } else {
                None
            }),
    {
        let (side, _) = self.side_and_state();
        let mut wake: Option<Waker> = None;
        let next = match *call {
            ReadyCall::Announce => {
                let seen = state.announce(side);
                if !seen.other_ready {
                    ReadyCall::Register { init: seen.init }
                } else if seen.init {
                    ReadyCall::TakeWaker
                } else {
                    ReadyCall::Answer { both: true }
                }
            },
            ReadyCall::TakeWaker => {
                wake = state.waker.take();
                assert(state@ =~= StateView { waker: None, ..old(state)@ });
                ReadyCall::Answer { both: true }
            },
            ReadyCall::Register { init } => {
                if init {
                    register_waker(&mut state.waker, waker);
                } else {
                    settle_waker(&mut state.waker, waker, false);
                }
                assert(state@ =~= StateView { waker: state@.waker, ..old(state)@ });
                ReadyCall::Publish
            },
            ReadyCall::Publish => ReadyCall::Answer { both: state.publish(side) },
            ReadyCall::Answer { both } => ReadyCall::Answer { both },
        };
        *call = next;
        wake
    }

    /// Announces that this side is ready and asks whether both are. If the other side is not,
    /// `waker` is left for it. Answers also the waker that is to be woken, if any.
    pub fn ready(&self, state: &mut State, waker: &Waker) -> (answer: (Poll<()>, Option<Waker>))
        ensures
            old(state)@.ready[other(self.side())] ==> {
                &&& answer.0 == Poll::Ready(())
                &&& answer.1 == (if old(state)@.init {
                    old(state)@.waker
                } else {
                    None
                })
                &&& final(state)@ == (StateView {
                    ready: old(state)@.ready.update(self.side(), true),
                    init: false,
                    waker: if old(state)@.init {
                        None
                    } else {
                        old(state)@.waker
                    },
                    ..old(state)@
                })
            },
            !old(state)@.ready[other(self.side())] ==> {
                &&& answer.0 == Poll::<()>::Pending
                &&& answer.1 is None
                &&& final(state)@ == (StateView {
                    ready: old(state)@.ready.update(self.side(), true),
                    init: true,
                    waker: final(state)@.waker,
                    ..old(state)@
                })
                &&& if old(state)@.init {
                    registered(old(state)@.waker, *waker, final(state)@.waker)
                } else {
                    final(state)@.waker is Some && cloned(*waker, final(state)@.waker->0)
                }
            },
    {
        let mut call = ReadyCall::Announce;
        let mut wake = self.step(&mut call, state, waker);
        if let ReadyCall::TakeWaker = call {
            wake = self.step(&mut call, state, waker);
        }
        if let ReadyCall::Register { .. } = call {
            let _ = self.step(&mut call, state, waker);
            let _ = self.step(&mut call, state, waker);
        }
        match call {
            ReadyCall::Answer { both: true } => (Poll::Ready(()), wake),
            _ => (Poll::Pending, wake),
        }
    }

    /// Gives this side up. Answers whether both sides are gone, so that the state is to be freed;
    /// the waker in the slot, if there is one, is dropped then.
    pub fn drop(self, state: &mut State) -> (free: bool)
        ensures
            free == !old(state)@.alive[other(self.side())],
            final(state)@ == old(state)@.left(self.side()),
            final(state)@.ready == old(state)@.ready,
            final(state)@.init == old(state)@.init,
            final(state)@.alive == old(state)@.alive.update(self.side(), false),
            !free ==> final(state)@.waker == old(state)@.waker,
            free && old(state)@.init ==> dropped(old(state)@.waker),
    {
        let (side, _) = self.side_and_state();
        let seen = state.leave(side);
        if !seen.other_alive && seen.init {
            let ghost before = state@;
            let waker = state.waker.take();
            drop(waker);
            assert(state@ =~= StateView { waker: None, ..before });
        }
        !seen.other_alive
    }
}

/// An address that is a multiple of two comes back from under either tag.
pub proof fn tag_round_trip(base: int, side: int)
    requires
        base % 2 == 0,
        0 <= side < 2,
    ensures
        (base + side) % 2 == side,
        (base + side) - (base + side) % 2 == base,
{
}

} // verus!
