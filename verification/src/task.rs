//! The parts of `core::task` that the library uses.
use core::task::Poll;
use core::task::Waker;
use vstd::prelude::*;
use crate::dropped::dropped;

verus! {

/// Makes the two variants of `core::task::Poll` known to the verifier.
#[verifier::external_type_specification]
#[verifier::reject_recursive_types(T)]
pub struct ExPoll<T>(Poll<T>);

/// `core::task::Waker` is carried around as an opaque value.
#[verifier::external_type_specification]
#[verifier::external_body]
pub struct ExWaker(Waker);

/// `Waker::will_wake` works on a best-effort basis: it may answer `false` for two wakers of one
/// task, so nothing is claimed of its answer. What it may answer is left to [`said_to_wake`].
pub assume_specification[ Waker::will_wake ](this: &Waker, that: &Waker) -> bool;

/// `Waker::clone` hands out another handle; nothing is claimed of the handle beyond its origin.
pub assume_specification[ <Waker as Clone>::clone ](this: &Waker) -> Waker;

/// Makes `slot` hold a waker for the task of `new`: the present one if there is one and it is
/// said to wake the same task, a clone of `new` otherwise.
pub fn settle_waker(slot: &mut Option<Waker>, new: &Waker, same_task: bool)
    ensures
        *final(slot) is Some,
        *old(slot) is Some && same_task ==> *final(slot) == *old(slot),
        !(*old(slot) is Some && same_task) ==> cloned(*new, (*final(slot))->0) && dropped(
            *old(slot),
        ),
{
    if slot.is_none() || !same_task {
        let mut before = Some(new.clone());
        core::mem::swap(slot, &mut before);
        drop(before);
    }
}

/// Whether `answer` may come back when `present` is asked whether it wakes the task of `new`.
pub open spec fn said_to_wake(present: Waker, new: Waker, answer: bool) -> bool {
    call_ensures(Waker::will_wake, (&present, &new), answer)
}

/// What a slot that held `before` may hold after `new` has been registered: what it held, if that
/// was said to wake the task of `new`, and a clone of `new` otherwise. What it does not hold any
/// more has been dropped.
pub open spec fn registered(before: Option<Waker>, new: Waker, after: Option<Waker>) -> bool {
    &&& after is Some
    &&& match before {
        Some(present) => {
            ||| said_to_wake(present, new, true) && after == before
            ||| said_to_wake(present, new, false) && cloned(new, after->0) && dropped(before)
        },
        None => cloned(new, after->0),
    }
}

/// Makes `slot` hold a waker for the task of `new`. A waker that is present is asked whether it
/// wakes the same task, and is kept if it answers that it does.
pub fn register_waker(slot: &mut Option<Waker>, new: &Waker)
    ensures
        registered(*old(slot), *new, *final(slot)),
{
    let same_task = match slot {
        Some(present) => present.will_wake(new),
        None => false,
    };
    settle_waker(slot, new, same_task);
}

/// Whether `present` wakes the task of `waker`: it is a clone of it, or has been asked and has
/// answered that it does.
pub open spec fn serves(present: Waker, waker: Waker) -> bool {
    cloned(waker, present) || call_ensures(Waker::will_wake, (&present, &waker), true)
}

/// A slot in which a waker has been registered holds one that wakes its task. What was there stays
/// only if it was asked and answered that it does; otherwise it was asked and is gone.
pub proof fn a_registered_slot_serves_the_task(
    before: Option<Waker>,
    new: Waker,
    after: Option<Waker>,
)
    requires
        registered(before, new, after),
    ensures
        after is Some,
        serves(after->0, new),
        cloned(new, after->0) || (before is Some && after == before),
        before is Some ==> {
            ||| after == before && call_ensures(Waker::will_wake, (&before->0, &new), true)
            ||| call_ensures(Waker::will_wake, (&before->0, &new), false) && call_ensures(
                core::mem::drop::<Option<Waker>>,
                (before,),
                (),
            )
        },
{
}

/// What wakes the task of a waker is a clone of it, or has been asked and has answered that it does.
pub proof fn what_serves_is_a_clone_or_was_asked(present: Waker, waker: Waker)
    requires
        serves(present, waker),
    ensures
        cloned(waker, present) || call_ensures(Waker::will_wake, (&present, &waker), true),
{
}

} // verus!
