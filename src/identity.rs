use vstd::prelude::*;


verus! {

/// Stable, application-assigned identity of a rollback entity; it survives despawn
/// and respawn.
#[derive(Clone, Copy, Debug, PartialEq, Eq, Structural, Hash)]
pub struct RollbackID(pub u64);

/// Ephemeral handle of a simulation entity, as its bits.
#[derive(Clone, Copy, Debug, PartialEq, Eq, Structural, Hash)]
pub struct Entity(pub u64);

/// A map from `u64` keys to `u64` values, stored in `bevy_utils::HashMap`
/// (hashbrown with aHash). Its contents are `u64_map_entries`.
#[verifier::external_body]
pub struct U64Map {
    map: bevy_utils::HashMap<u64, u64>,
}

/// The key-value pairs that a `U64Map` holds.
pub uninterp spec fn u64_map_entries(m: U64Map) -> Map<u64, u64>;

impl U64Map {
    /// Relies on `bevy_utils::HashMap::default` (hashbrown `HashMap` with a default
    /// hasher): the new map is empty.
    #[verifier::external_body]
    fn new() -> (r: U64Map)
        ensures
            u64_map_entries(r).dom() == Set::<u64>::empty(),
    {
        U64Map { map: bevy_utils::HashMap::default() }
    }

    /// Relies on hashbrown's `HashMap::get`: the value stored under `k`, if any.
    #[verifier::external_body]
    fn get(&self, k: u64) -> (r: Option<u64>)
        ensures
            r == if u64_map_entries(*self).contains_key(k) {
                Some(u64_map_entries(*self)[k])
            } else {
                None
            },
    {
        self.map.get(&k).copied()
    }

    /// Relies on hashbrown's `HashMap::insert`: `k` now maps to `v`; the value it
    /// mapped to before, if any, is returned.
    #[verifier::external_body]
    fn insert(&mut self, k: u64, v: u64) -> (r: Option<u64>)
        ensures
            u64_map_entries(*final(self)) == u64_map_entries(*old(self)).insert(k, v),
            r == if u64_map_entries(*old(self)).contains_key(k) {
                Some(u64_map_entries(*old(self))[k])
            } else {
                None
            },
    {
        self.map.insert(k, v)
    }

    /// Relies on hashbrown's `HashMap::remove`: `k` maps to nothing any more; the
    /// value it mapped to, if any, is returned.
    #[verifier::external_body]
    fn remove(&mut self, k: u64) -> (r: Option<u64>)
        ensures
            u64_map_entries(*final(self)) == u64_map_entries(*old(self)).remove(k),
            r == if u64_map_entries(*old(self)).contains_key(k) {
                Some(u64_map_entries(*old(self))[k])
            } else {
                None
            },
    {
        self.map.remove(&k)
    }
}

/// The two directions of the identity map, by raw value.
pub struct IdentityView {
    /// Stable id to entity handle.
    pub to_entity: Map<u64, u64>,
    /// Entity handle to stable id.
    pub to_id: Map<u64, u64>,
}

impl IdentityView {
    /// Each direction is the inverse of the other.
    pub open spec fn wf(self) -> bool {
        &&& forall|r: u64| #[trigger]
            self.to_entity.contains_key(r) ==> self.to_id.contains_key(self.to_entity[r])
                && self.to_id[self.to_entity[r]] == r
        &&& forall|e: u64| #[trigger]
            self.to_id.contains_key(e) ==> self.to_entity.contains_key(self.to_id[e])
                && self.to_entity[self.to_id[e]] == e
    }
}

/// Bidirectional map between stable ids and entity handles, kept consistent in both
/// directions.
pub struct RollbackMap {
    to_entity: U64Map,
    to_id: U64Map,
}

impl View for RollbackMap {
    type V = IdentityView;

    closed spec fn view(&self) -> IdentityView {
        IdentityView {
            to_entity: u64_map_entries(self.to_entity),
            to_id: u64_map_entries(self.to_id),
        }
    }
}

impl RollbackMap {
    /// An empty map.
    pub fn new() -> (r: Self)
        ensures
            r@.wf(),
            r@.to_entity == Map::<u64, u64>::empty(),
            r@.to_id == Map::<u64, u64>::empty(),
    {
        RollbackMap { to_entity: U64Map::new(), to_id: U64Map::new() }
    }

    /// Map `e` and `r` to each other. Neither may be mapped yet: a duplicate id, or a
    /// handle registered again without cleanup, means the bookkeeping is out of step
    /// with the simulation, and the caller must stop before calling.
    pub fn insert(&mut self, e: Entity, r: RollbackID)
        requires
            old(self)@.wf(),
            !old(self)@.to_entity.contains_key(r.0),
            !old(self)@.to_id.contains_key(e.0),
        ensures
            final(self)@.wf(),
            final(self)@ == (IdentityView {
                to_entity: old(self)@.to_entity.insert(r.0, e.0),
                to_id: old(self)@.to_id.insert(e.0, r.0),
            }),
    {
        let ghost before = self@;
        self.to_entity.insert(r.0, e.0);
        self.to_id.insert(e.0, r.0);
        assert forall|k: u64| #[trigger] self@.to_entity.contains_key(k) implies self@.to_id.contains_key(
            self@.to_entity[k],
        ) && self@.to_id[self@.to_entity[k]] == k by {
            if k != r.0 {
                assert(before.to_entity.contains_key(k));
            }
        }
        assert forall|k: u64| #[trigger] self@.to_id.contains_key(k) implies self@.to_entity.contains_key(
            self@.to_id[k],
        ) && self@.to_entity[self@.to_id[k]] == k by {
            if k != e.0 {
                assert(before.to_id.contains_key(k));
            }
        }
    }

    /// Drop the mapping of `e`, in both directions. `e` must be mapped: a handle
    /// without a mapping means the lifecycle hooks are out of step, and the caller must
    /// stop before calling.
    pub fn remove(&mut self, e: Entity)
        requires
            old(self)@.wf(),
            old(self)@.to_id.contains_key(e.0),
        ensures
            final(self)@.wf(),
            final(self)@ == (IdentityView {
                to_entity: old(self)@.to_entity.remove(old(self)@.to_id[e.0]),
                to_id: old(self)@.to_id.remove(e.0),
            }),
    {
        let r = match self.to_id.get(e.0) {
            Some(r) => r,
            None => {
                return;
            },
        };
        let ghost before = self@;
        self.to_entity.remove(r);
        self.to_id.remove(e.0);
        assert forall|k: u64| #[trigger] self@.to_entity.contains_key(k) implies self@.to_id.contains_key(
            self@.to_entity[k],
        ) && self@.to_id[self@.to_entity[k]] == k by {
            assert(before.to_entity.contains_key(k));
        }
        assert forall|k: u64| #[trigger] self@.to_id.contains_key(k) implies self@.to_entity.contains_key(
            self@.to_id[k],
        ) && self@.to_entity[self@.to_id[k]] == k by {
            assert(before.to_id.contains_key(k));
        }
    }

    /// The entity that `r` is mapped to.
    pub fn get_entity(&self, r: RollbackID) -> (res: Option<Entity>)
        ensures
            res == if self@.to_entity.contains_key(r.0) {
                Some(Entity(self@.to_entity[r.0]))
            } else {
                None
            },
    {
        match self.to_entity.get(r.0) {
            Some(e) => Some(Entity(e)),
            None => None,
        }
    }

    /// The stable id that `e` is mapped to.
    pub fn get_id(&self, e: Entity) -> (res: Option<RollbackID>)
        ensures
            res == if self@.to_id.contains_key(e.0) {
                Some(RollbackID(self@.to_id[e.0]))
            } else {
                None
            },
    {
        match self.to_id.get(e.0) {
            Some(r) => Some(RollbackID(r)),
            None => None,
        }
    }
}

} // verus!
