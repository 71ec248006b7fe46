//! Rollback resimulation for frame-stepped simulations: a window of saved snapshots,
//! tracking of frames made stale by late inputs, the scheduler that replays them, the
//! existence lifecycle of entities across rollback, and a stable identity map.

pub mod error;
pub mod existence;
pub mod for_user;
pub mod frame;
pub mod identity;
pub mod rollback;
pub mod schedule;
pub mod systems;

pub use error::RollbackError;
pub use existence::{despawn_nonexistent, restore_exists_remove_nonexistent, ExistencePlugin, Exists};
pub use for_user::{spawn, spawn2, Spawn, SpawnWith};
pub use frame::{index, oldest_frame, Frame, LastFrame, Modified, WantedFrame};
pub use identity::{Entity, RollbackID, RollbackMap};
pub use rollback::Rollback;
pub use schedule::{
    new_frame_save_system, rollback_restore_system, rollback_save_system, rollback_update_system,
    FrameStep, RollbackSchedule, RollbackUpdateConfig, RollbackWorld, WorldCall,
};
