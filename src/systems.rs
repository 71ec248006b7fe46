use vstd::prelude::*;

use crate::frame::{slot_of, Frame, LastFrame};
use crate::rollback::Rollback;

verus! {

/// Copy the saved value of `current` into each live value: `live[i]` takes the cell
/// of `current` in `rollbacks[i]`.
pub fn restore<T: Copy, const LEN: usize>(
    current: Frame,
    live: &mut Vec<T>,
    rollbacks: &Vec<Rollback<T, LEN>>,
)
    requires
        old(live)@.len() == rollbacks@.len(),
        forall|i: int| 0 <= i < rollbacks@.len() ==> (#[trigger] rollbacks@[i]).wf(),
    ensures
        final(live)@.len() == old(live)@.len(),
        forall|i: int|
            0 <= i < rollbacks@.len() ==> #[trigger] final(live)@[i] == rollbacks@[i].at(
                current.0 as int,
            ),
{
    let n = live.len();
    let mut i: usize = 0;
    while i < n
        invariant
            n == live@.len(),
            n == rollbacks@.len(),
            i <= n,
            forall|j: int| 0 <= j < rollbacks@.len() ==> (#[trigger] rollbacks@[j]).wf(),
            forall|j: int|
                0 <= j < i ==> #[trigger] live@[j] == rollbacks@[j].at(current.0 as int),
        decreases n - i,
    {
        let value = *rollbacks[i].get(current.0);
        live.set(i, value);
        i = i + 1;
    }
}

/// Save each live value as the state of `current`: the cell of `current` in
/// `rollbacks[i]` takes `live[i]`; every other cell stays.
pub fn save<T: Copy, const LEN: usize>(
    current: Frame,
    live: &Vec<T>,
    rollbacks: &mut Vec<Rollback<T, LEN>>,
)
    requires
        live@.len() == old(rollbacks)@.len(),
        forall|i: int| 0 <= i < old(rollbacks)@.len() ==> (#[trigger] old(rollbacks)@[i]).wf(),
    ensures
        final(rollbacks)@.len() == old(rollbacks)@.len(),
        forall|i: int|
            0 <= i < live@.len() ==> (#[trigger] final(rollbacks)@[i]).wf()
                && final(rollbacks)@[i]@ == old(rollbacks)@[i].with(current.0 as int, live@[i]),
{
    let n = live.len();
    let mut i: usize = 0;
    while i < n
        invariant
            n == live@.len(),
            n == rollbacks@.len(),
            i <= n,
            forall|j: int| 0 <= j < n ==> (#[trigger] rollbacks@[j]).wf(),
            forall|j: int|
                0 <= j < n ==> #[trigger] rollbacks@[j]@ == if j < i {
                    old(rollbacks)@[j].with(current.0 as int, live@[j])
                } else {
                    old(rollbacks)@[j]@
                },
        decreases n - i,
    {
        rollbacks[i].set(current.0, live[i]);
        i = i + 1;
    }
}


/// Copy the saved value of `current` into the live resource.
pub fn restore_resource<T: Copy, const LEN: usize>(
    current: Frame,
    rollback: &Rollback<T, LEN>,
    resource: &mut T,
)
    requires
        rollback.wf(),
    ensures
        *final(resource) == rollback.at(current.0 as int),
{
    *resource = *rollback.get(current.0);
}

/// Copy the saved value of `current` into the live resource, presence included: a
/// resource saved as absent is absent after the call.
pub fn restore_resource_option<T: Copy, const LEN: usize>(
    current: Frame,
    rollback: &Rollback<Option<T>, LEN>,
    resource: &mut Option<T>,
)
    requires
        rollback.wf(),
    ensures
        *final(resource) == rollback.at(current.0 as int),
{
    match rollback.get(current.0) {
        Some(value) => {
            *resource = Some(*value);
        },
        None => {
            *resource = None;
        },
    }
}

/// Save the live resource as the state of `current`.
pub fn save_resource<T: Copy, const LEN: usize>(
    current: Frame,
    rollback: &mut Rollback<T, LEN>,
    resource: &T,
)
    requires
        old(rollback).wf(),
    ensures
        final(rollback).wf(),
        final(rollback)@ == old(rollback).with(current.0 as int, *resource),
{
    rollback.set(current.0, *resource);
}

/// Save the live resource, or its absence, as the state of `current`.
pub fn save_resource_option<T: Copy, const LEN: usize>(
    current: Frame,
    rollback: &mut Rollback<Option<T>, LEN>,
    resource: Option<&T>,
)
    requires
        old(rollback).wf(),
    ensures
        final(rollback).wf(),
        final(rollback)@ == old(rollback).with(
            current.0 as int,
            match resource {
                Some(v) => Some(*v),
                None => None,
            },
        ),
{
    let value = match resource {
        Some(v) => Some(*v),
        None => None,
    };
    rollback.set(current.0, value);
}

/// When `current` is a frame past `last`, its input has never been set: reset its
/// cell to `T::default()`. Otherwise nothing changes.
pub fn clear_resource_input_default<T: Default, const LEN: usize>(
    current: Frame,
    last: LastFrame,
    rollback: &mut Rollback<T, LEN>,
)
    requires
        old(rollback).wf(),
    ensures
        final(rollback).wf(),
        current.0 > last.0 ==> exists|d: T|
            call_ensures(T::default, (), d) && final(rollback)@ == old(rollback).with(
                current.0 as int,
                d,
            ),
        current.0 <= last.0 ==> final(rollback)@ == old(rollback)@,
{
    if current.0 > last.0 {
        let d = T::default();
        rollback.set(current.0, d);
    }
}

/// When `current` is a frame past `last`, its input has never been set: mark it
/// absent. Otherwise nothing changes.
pub fn clear_resource_input_option<T, const LEN: usize>(
    current: Frame,
    last: LastFrame,
    rollback: &mut Rollback<Option<T>, LEN>,
)
    requires
        old(rollback).wf(),
    ensures
        final(rollback).wf(),
        final(rollback)@ == if current.0 > last.0 {
            old(rollback).with(current.0 as int, None)
        } else {
            old(rollback)@
        },
{
    if current.0 > last.0 {
        rollback.set(current.0, None);
    }
}

/// Round trip: saving a value as the state of a frame and then restoring that frame
/// gives the value back, whatever the ring held before.
pub proof fn lemma_round_trip<T, const LEN: usize>(rollback: Rollback<T, LEN>, frame: int, value: T)
    requires
        rollback.wf(),
        frame >= 0,
    ensures
        rollback.with(frame, value)[slot_of(frame, LEN as int)] == value,
        rollback.with(frame, value).len() == LEN,
{
}

} // verus!
