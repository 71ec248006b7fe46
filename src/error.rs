use vstd::prelude::*;

verus! {

/// What the rollback core reports to its caller.
#[derive(Clone, Copy, Debug, PartialEq, Eq, Structural)]
pub enum RollbackError {
    /// The frame lies outside the retention window: its slot holds another frame, so
    /// the frame can no longer be corrected. Nothing was changed.
    DroppedSnapshot,
}

} // verus!
