use vstd::prelude::*;

verus! {

/// The currently loaded frame, or the frame that is about to be restored.
#[derive(Clone, Copy, Debug, Default, PartialEq, Eq, Structural)]
pub struct Frame(pub u64);

/// The newest frame whose state is finalized in storage.
#[derive(Clone, Copy, Debug, Default, PartialEq, Eq, Structural)]
pub struct LastFrame(pub u64);

/// The frame that the host would like the simulation to reach.
#[derive(Clone, Copy, Debug, Default, PartialEq, Eq, Structural)]
pub struct WantedFrame(pub u64);

/// Per-slot flag: the saved state of this slot is stale and must be recomputed.
#[derive(Clone, Copy, Debug, Default, PartialEq, Eq, Structural)]
pub struct Modified(pub bool);

/// The slot that `frame` occupies in a window of `len` slots.
pub open spec fn slot_of(frame: int, len: int) -> int {
    frame % len
}

/// The oldest frame still retained when `last` is the newest one: `last - (len - 1)`,
/// or zero when fewer than `len` frames exist.
pub open spec fn oldest_of(last: int, len: int) -> int {
    if last >= len - 1 {
        last - (len - 1)
    } else {
        0
    }
}

/// Whether `frame` lies inside the retention window that ends at `last`.
pub open spec fn in_window(frame: int, last: int, len: int) -> bool {
    oldest_of(last, len) <= frame <= last
}

/// Slot index of `frame` in a ring of `LEN` slots.
pub fn index<const LEN: usize>(frame: u64) -> (r: usize)
    requires
        LEN > 0,
    ensures
        r == slot_of(frame as int, LEN as int),
        r < LEN,
{
    (frame % (LEN as u64)) as usize
}

/// The oldest retained frame when `last` is the newest one (`last` minus `LEN - 1`,
/// saturating at zero).
pub fn oldest_frame<const LEN: usize>(last: u64) -> (r: u64)
    requires
        LEN > 0,
    ensures
        r == oldest_of(last as int, LEN as int),
{
    let keep = (LEN - 1) as u64;
    if last >= keep {
        last - keep
    } else {
        0
    }
}

} // verus!
