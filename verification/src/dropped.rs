//! Dropping values.
use vstd::prelude::*;

verus! {

/// `core::mem::drop` drops its argument. What that does is up to the type of the argument, so
/// nothing is claimed of it. That it may have been called is what [`dropped`] says.
pub assume_specification<T>[ core::mem::drop::<T> ](value: T);

/// Whether `value` may have been handed to `core::mem::drop`.
pub open spec fn dropped<T>(value: T) -> bool {
    call_ensures(core::mem::drop::<T>, (value,), ())
}

/// What has been dropped has been handed to `core::mem::drop`.
pub proof fn the_dropped_has_been_handed_over<T>(value: T)
    requires
        dropped(value),
    ensures
        call_ensures(core::mem::drop::<T>, (value,), ()),
{
}

} // verus!
