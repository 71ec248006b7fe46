use gravirollback::systems::{
    clear_resource_input_default, clear_resource_input_option, restore, restore_resource,
    restore_resource_option, save, save_resource, save_resource_option,
};
use gravirollback::{index, oldest_frame, Frame, LastFrame, Modified, Rollback};

const LEN: usize = 4;

#[test]
fn index_wraps_around_the_window() {
    assert_eq!(index::<4>(0), 0);
    assert_eq!(index::<4>(3), 3);
    assert_eq!(index::<4>(4), 0);
    assert_eq!(index::<4>(10), 2);
    assert_eq!(index::<8>(u64::MAX), 7);
}

#[test]
fn oldest_frame_saturates_at_zero() {
    assert_eq!(oldest_frame::<8>(10), 3);
    assert_eq!(oldest_frame::<8>(7), 0);
    assert_eq!(oldest_frame::<8>(3), 0);
    assert_eq!(oldest_frame::<1>(5), 5);
}

#[test]
fn frame_counters_default_to_zero() {
    assert_eq!(Frame::default(), Frame(0));
    assert_eq!(LastFrame::default(), LastFrame(0));
    assert_eq!(Modified::default(), Modified(false));
}

#[test]
fn ring_cells_alias_frames_one_window_apart() {
    let mut r = Rollback::<u32, LEN>::new(9);
    assert_eq!(*r.get(2), 9);
    r.set(6, 1);
    assert_eq!(*r.get(2), 1);
    *r.get_mut(3) = 5;
    assert_eq!(*r.get(7), 5);
    assert_eq!(*r.get(0), 9);
}

#[test]
fn save_then_restore_resource_round_trips() {
    let mut r = Rollback::<i32, LEN>::new(0);
    let state = -17;
    save_resource(Frame(5), &mut r, &state);
    let mut live = 99;
    restore_resource(Frame(5), &r, &mut live);
    assert_eq!(live, state);
    restore_resource(Frame(6), &r, &mut live);
    assert_eq!(live, 0);
}

#[test]
fn optional_resource_round_trips_presence() {
    let mut r = Rollback::<Option<u8>, LEN>::new(None);
    save_resource_option(Frame(1), &mut r, Some(&3));
    save_resource_option(Frame(2), &mut r, None);
    let mut live = None;
    restore_resource_option(Frame(1), &r, &mut live);
    assert_eq!(live, Some(3));
    restore_resource_option(Frame(2), &r, &mut live);
    assert_eq!(live, None);
}

#[test]
fn components_round_trip_per_entity() {
    let mut rollbacks = vec![Rollback::<i64, LEN>::new(0), Rollback::<i64, LEN>::new(0)];
    let live = vec![10, 20];
    save(Frame(3), &live, &mut rollbacks);
    assert_eq!(*rollbacks[0].get(3), 10);
    assert_eq!(*rollbacks[1].get(3), 20);
    assert_eq!(*rollbacks[1].get(2), 0);
    let mut restored = vec![0, 0];
    restore(Frame(3), &mut restored, &rollbacks);
    assert_eq!(restored, live);
    restore(Frame(2), &mut restored, &rollbacks);
    assert_eq!(restored, vec![0, 0]);
}

#[test]
fn new_input_is_cleared_only_past_last() {
    let mut r = Rollback::<u16, LEN>::new(8);
    clear_resource_input_default(Frame(3), LastFrame(3), &mut r);
    assert_eq!(*r.get(3), 8);
    clear_resource_input_default(Frame(4), LastFrame(3), &mut r);
    assert_eq!(*r.get(4), 0);
    assert_eq!(*r.get(3), 8);

    let mut o = Rollback::<Option<u16>, LEN>::new(Some(1));
    clear_resource_input_option(Frame(2), LastFrame(3), &mut o);
    assert_eq!(*o.get(2), Some(1));
    clear_resource_input_option(Frame(5), LastFrame(3), &mut o);
    assert_eq!(*o.get(5), None);
    assert_eq!(*o.get(2), Some(1));
}
