use gravirollback::{Entity, RollbackID, RollbackMap};

#[test]
fn insert_maps_both_directions() {
    let mut map = RollbackMap::new();
    map.insert(Entity(7), RollbackID(100));
    assert_eq!(map.get_entity(RollbackID(100)), Some(Entity(7)));
    assert_eq!(map.get_id(Entity(7)), Some(RollbackID(100)));
    assert_eq!(map.get_entity(RollbackID(101)), None);
    assert_eq!(map.get_id(Entity(8)), None);
}

#[test]
fn conflicts_are_visible_before_insert() {
    let mut map = RollbackMap::new();
    map.insert(Entity(7), RollbackID(100));
    // a duplicate id and a re-registered handle are both detectable up front
    assert!(map.get_entity(RollbackID(100)).is_some());
    assert!(map.get_id(Entity(7)).is_some());
    assert!(map.get_entity(RollbackID(200)).is_none() && map.get_id(Entity(8)).is_none());
    map.insert(Entity(8), RollbackID(200));
    assert_eq!(map.get_entity(RollbackID(200)), Some(Entity(8)));
    assert_eq!(map.get_entity(RollbackID(100)), Some(Entity(7)));
}

#[test]
fn remove_drops_both_directions() {
    let mut map = RollbackMap::new();
    map.insert(Entity(7), RollbackID(100));
    map.insert(Entity(8), RollbackID(200));
    map.remove(Entity(7));
    assert_eq!(map.get_entity(RollbackID(100)), None);
    assert_eq!(map.get_id(Entity(7)), None);
    assert_eq!(map.get_id(Entity(8)), Some(RollbackID(200)));
    // the same id can be used again once the entity is gone
    map.insert(Entity(9), RollbackID(100));
    assert_eq!(map.get_id(Entity(9)), Some(RollbackID(100)));
}

#[test]
fn unmapped_handle_is_visible_before_remove() {
    let mut map = RollbackMap::new();
    assert_eq!(map.get_id(Entity(3)), None);
    map.insert(Entity(7), RollbackID(100));
    assert_eq!(map.get_id(Entity(3)), None);
    map.remove(Entity(7));
    assert_eq!(map.get_entity(RollbackID(100)), None);
}
