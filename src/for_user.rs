use vstd::prelude::*;

use crate::identity::Entity;

verus! {

/// A creation procedure kept with its data, so that the same entity can be created
/// again whenever a resimulation brings it back.
pub struct SpawnWith<T, F> {
    pub spawn_func: F,
    pub spawn_data: T,
}

/// A creation procedure that needs no data.
pub struct Spawn<F> {
    pub spawn_system: F,
}

/// Keep `spawn_func` together with `spawn_data`; applying the result calls
/// `spawn_func` on a copy of the data.
pub fn spawn<T: Copy, F>(spawn_func: F, spawn_data: T) -> (r: SpawnWith<T, F>)
    ensures
        r.spawn_func == spawn_func,
        r.spawn_data == spawn_data,
{
    SpawnWith { spawn_func, spawn_data }
}

/// Keep `spawn_system`; applying the result calls it.
pub fn spawn2<F>(spawn_system: F) -> (r: Spawn<F>)
    ensures
        r.spawn_system == spawn_system,
{
    Spawn { spawn_system }
}

impl<T: Copy, F> SpawnWith<T, F> {
    /// Create the entity in `world` by calling the stored procedure on the stored
    /// data; the handle it returns is handed back.
    pub fn apply<W>(&self, world: W) -> (r: (W, Entity))
        where
            F: Fn(T, W) -> (W, Entity),
        requires
            call_requires(self.spawn_func, (self.spawn_data, world)),
        ensures
            call_ensures(self.spawn_func, (self.spawn_data, world), r),
    {
        (self.spawn_func)(self.spawn_data, world)
    }
}

impl<F> Spawn<F> {
    /// Create the entity in `world` by calling the stored procedure.
    pub fn apply<W>(&self, world: W) -> (r: (W, Entity))
        where
            F: Fn(W) -> (W, Entity),
        requires
            call_requires(self.spawn_system, (world,)),
        ensures
            call_ensures(self.spawn_system, (world,), r),
    {
        (self.spawn_system)(world)
    }
}

} // verus!
