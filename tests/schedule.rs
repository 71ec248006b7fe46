use gravirollback::schedule::{
    new_frame_save_system, rollback_restore_system, rollback_save_system,
    rollback_update_system, FrameStep, RollbackSchedule, RollbackUpdateConfig, RollbackWorld,
    WorldCall,
};
use gravirollback::systems::{restore_resource, save_resource};
use gravirollback::{Frame, Rollback, RollbackError, WantedFrame};

const LEN: usize = 8;

#[derive(Debug, Clone, PartialEq)]
enum Call {
    Restore(u64),
    Update(u64),
    Save(u64),
}

/// A small deterministic simulation: its state is one number, and each update adds
/// the input of the frame and the frame number to a scaled state.
struct Counter {
    live: i64,
    states: Rollback<i64, LEN>,
    inputs: Rollback<i64, LEN>,
    calls: Vec<Call>,
    fail_update_at: Option<u64>,
}

impl Counter {
    fn new() -> Self {
        Counter {
            live: 0,
            states: Rollback::new(0),
            inputs: Rollback::new(0),
            calls: Vec::new(),
            fail_update_at: None,
        }
    }
}

impl RollbackWorld for Counter {
    type Error = String;

    fn restore(&mut self, frame: u64) -> Result<(), String> {
        self.calls.push(Call::Restore(frame));
        restore_resource(Frame(frame), &self.states, &mut self.live);
        Ok(())
    }

    fn update(&mut self, frame: u64) -> Result<(), String> {
        self.calls.push(Call::Update(frame));
        if self.fail_update_at == Some(frame) {
            return Err(format!("update failed at {frame}"));
        }
        let input = *self.inputs.get(frame);
        self.live = self.live * 3 + input + frame as i64;
        Ok(())
    }

    fn save(&mut self, frame: u64) -> Result<(), String> {
        self.calls.push(Call::Save(frame));
        save_resource(Frame(frame), &mut self.states, &self.live);
        Ok(())
    }
}

fn unlimited() -> RollbackUpdateConfig {
    RollbackUpdateConfig { max_update_loops: 0 }
}

/// Run the scheduler without budget towards the newest frame it already has.
fn catch_up(schedule: &mut RollbackSchedule<LEN>, world: &mut Counter) -> Result<Vec<FrameStep>, String> {
    let wanted = WantedFrame(schedule.last().0);
    rollback_update_system(schedule, world, wanted, unlimited())
}

/// Advance a fresh schedule to `last` in one invocation.
fn advanced_to(last: u64) -> (RollbackSchedule<LEN>, Counter) {
    let mut schedule = RollbackSchedule::<LEN>::new();
    let mut world = Counter::new();
    let steps = rollback_update_system(&mut schedule, &mut world, WantedFrame(last), unlimited())
        .unwrap();
    assert_eq!(steps.len() as u64, last);
    world.calls.clear();
    (schedule, world)
}

fn dirty_frames(schedule: &RollbackSchedule<LEN>) -> Vec<u64> {
    (schedule.oldest()..=schedule.last().0).filter(|f| schedule.is_modified(*f)).collect()
}

fn slots(r: &Rollback<i64, LEN>) -> Vec<i64> {
    (0..LEN as u64).map(|f| *r.get(f)).collect()
}

#[test]
fn new_schedule_starts_at_frame_zero() {
    let schedule = RollbackSchedule::<LEN>::new();
    assert_eq!(schedule.current().0, 0);
    assert_eq!(schedule.last().0, 0);
    assert!(schedule.is_loaded());
    assert_eq!(schedule.oldest(), 0);
    assert!(dirty_frames(&schedule).is_empty());
    assert_eq!(rollback_restore_system(&schedule, WantedFrame(0)), None);
    assert_eq!(
        rollback_restore_system(&schedule, WantedFrame(1)),
        Some(FrameStep { frame: 0, restore: false })
    );
}

#[test]
fn advancing_records_new_frames() {
    let (schedule, _) = advanced_to(10);
    assert_eq!(schedule.current().0, 10);
    assert_eq!(schedule.last().0, 10);
    assert_eq!(schedule.oldest(), 3);
    for f in 3..=10u64 {
        assert_eq!(schedule.slot_frame(f), Frame(f));
    }
    assert!(dirty_frames(&schedule).is_empty());
}

#[test]
fn late_input_resimulates_to_last() {
    let (mut schedule, mut world) = advanced_to(10);
    assert_eq!(schedule.inject(&mut world.inputs, 6, 5), Ok(()));
    assert_eq!(dirty_frames(&schedule), vec![6]);
    let steps = catch_up(&mut schedule, &mut world).unwrap();
    assert_eq!(
        steps,
        vec![
            FrameStep { frame: 6, restore: true },
            FrameStep { frame: 7, restore: false },
            FrameStep { frame: 8, restore: false },
            FrameStep { frame: 9, restore: false },
        ]
    );
    let updates = world.calls.iter().filter(|c| matches!(c, Call::Update(_))).count();
    assert_eq!(updates, 4);
    assert_eq!(
        world.calls,
        vec![
            Call::Restore(6),
            Call::Update(6),
            Call::Save(7),
            Call::Update(7),
            Call::Save(8),
            Call::Update(8),
            Call::Save(9),
            Call::Update(9),
            Call::Save(10),
        ]
    );
    assert_eq!(schedule.current().0, 10);
    assert_eq!(schedule.last().0, 10);
    assert!(dirty_frames(&schedule).is_empty());
}

#[test]
fn resimulation_matches_an_input_that_arrived_on_time() {
    let (mut late, mut late_world) = advanced_to(10);
    late.inject(&mut late_world.inputs, 6, 5).unwrap();
    catch_up(&mut late, &mut late_world).unwrap();

    let mut on_time = RollbackSchedule::<LEN>::new();
    let mut on_time_world = Counter::new();
    while on_time.last().0 < 10 {
        let last = on_time.last().0;
        if last == 6 {
            on_time_world.inputs.set(6, 5);
        }
        rollback_update_system(&mut on_time, &mut on_time_world, WantedFrame(last + 1), unlimited())
            .unwrap();
    }
    assert_eq!(slots(&late_world.states), slots(&on_time_world.states));
    assert_eq!(late_world.live, on_time_world.live);
}

#[test]
fn input_outside_the_window_is_dropped() {
    let (mut schedule, mut world) = advanced_to(10);
    let inputs_before = slots(&world.inputs);
    assert_eq!(schedule.inject(&mut world.inputs, 1, 9), Err(RollbackError::DroppedSnapshot));
    assert_eq!(slots(&world.inputs), inputs_before);
    assert!(dirty_frames(&schedule).is_empty());
    assert_eq!(schedule.current().0, 10);
    assert_eq!(schedule.last().0, 10);
}

#[test]
fn window_bound_is_exact() {
    let (mut schedule, mut world) = advanced_to(10);
    let too_old = 10 - LEN as u64;
    assert_eq!(schedule.inject(&mut world.inputs, too_old, 1), Err(RollbackError::DroppedSnapshot));
    assert!(dirty_frames(&schedule).is_empty());
    assert_eq!(*world.inputs.get(too_old), 0);
    assert_eq!(schedule.inject(&mut world.inputs, too_old + 1, 1), Ok(()));
    assert_eq!(dirty_frames(&schedule), vec![too_old + 1]);
}

#[test]
fn input_for_a_future_frame_is_dropped() {
    let (mut schedule, _) = advanced_to(10);
    assert_eq!(schedule.mark_modified(11), Err(RollbackError::DroppedSnapshot));
    assert!(dirty_frames(&schedule).is_empty());
}

#[test]
fn idle_scheduler_does_nothing() {
    let (mut schedule, mut world) = advanced_to(10);
    let states_before = slots(&world.states);
    let steps = catch_up(&mut schedule, &mut world).unwrap();
    assert!(steps.is_empty());
    assert!(world.calls.is_empty());
    assert_eq!(schedule.current().0, 10);
    assert_eq!(schedule.last().0, 10);
    assert_eq!(slots(&world.states), states_before);
}

#[test]
fn scheduler_is_deterministic() {
    let run = || {
        let (mut schedule, mut world) = advanced_to(12);
        schedule.inject(&mut world.inputs, 7, 2).unwrap();
        schedule.inject(&mut world.inputs, 9, -4).unwrap();
        let steps = catch_up(&mut schedule, &mut world).unwrap();
        (steps, slots(&world.states), world.calls, schedule.current(), schedule.last())
    };
    assert_eq!(run(), run());
}

#[test]
fn overlapping_corrections_are_absorbed() {
    let (mut schedule, mut world) = advanced_to(12);
    schedule.inject(&mut world.inputs, 9, 1).unwrap();
    schedule.inject(&mut world.inputs, 7, 1).unwrap();
    let steps = catch_up(&mut schedule, &mut world).unwrap();
    let frames: Vec<u64> = steps.iter().map(|s| s.frame).collect();
    assert_eq!(frames, vec![7, 8, 9, 10, 11]);
    assert!(dirty_frames(&schedule).is_empty());
    assert_eq!(schedule.current().0, 12);
}

#[test]
fn budget_limits_one_invocation() {
    let (mut schedule, mut world) = advanced_to(10);
    schedule.inject(&mut world.inputs, 5, 3).unwrap();
    let config = RollbackUpdateConfig { max_update_loops: 2 };
    let first = rollback_update_system(&mut schedule, &mut world, WantedFrame(10), config).unwrap();
    assert_eq!(first.iter().map(|s| s.frame).collect::<Vec<_>>(), vec![5, 6]);
    assert_eq!(schedule.current().0, 7);
    assert_eq!(dirty_frames(&schedule), vec![7]);
    let second = rollback_update_system(&mut schedule, &mut world, WantedFrame(10), config).unwrap();
    assert_eq!(second, vec![FrameStep { frame: 7, restore: false }, FrameStep { frame: 8, restore: false }]);
    let third = rollback_update_system(&mut schedule, &mut world, WantedFrame(10), config).unwrap();
    assert_eq!(third, vec![FrameStep { frame: 9, restore: false }]);
    assert!(dirty_frames(&schedule).is_empty());
    assert_eq!(schedule.current().0, 10);
}

#[test]
fn correction_at_last_computes_the_next_frame_when_wanted() {
    let (mut schedule, mut world) = advanced_to(4);
    schedule.mark_modified(4).unwrap();
    let steps = rollback_update_system(&mut schedule, &mut world, WantedFrame(5), unlimited())
        .unwrap();
    assert_eq!(steps, vec![FrameStep { frame: 4, restore: false }]);
    assert_eq!(schedule.last().0, 5);
    assert_eq!(schedule.current().0, 5);
    assert_eq!(schedule.slot_frame(5), Frame(5));
}

#[test]
fn pending_correction_at_last_is_kept() {
    let (mut schedule, mut world) = advanced_to(10);
    schedule.mark_modified(8).unwrap();
    schedule.mark_modified(10).unwrap();
    let steps = catch_up(&mut schedule, &mut world).unwrap();
    let frames: Vec<u64> = steps.iter().map(|s| s.frame).collect();
    assert_eq!(frames, vec![8, 9]);
    assert_eq!(schedule.current().0, 10);
    assert_eq!(schedule.last().0, 10);
    assert_eq!(dirty_frames(&schedule), vec![10]);
    let steps = rollback_update_system(&mut schedule, &mut world, WantedFrame(11), unlimited())
        .unwrap();
    assert_eq!(steps, vec![FrameStep { frame: 10, restore: false }]);
    assert_eq!(schedule.last().0, 11);
    assert!(dirty_frames(&schedule).is_empty());
}

#[test]
fn world_failure_is_returned_and_frame_stays_dirty() {
    let (mut schedule, mut world) = advanced_to(10);
    schedule.inject(&mut world.inputs, 6, 5).unwrap();
    world.fail_update_at = Some(8);
    let r = catch_up(&mut schedule, &mut world);
    assert_eq!(r, Err("update failed at 8".to_string()));
    assert_eq!(dirty_frames(&schedule), vec![8]);
    assert!(!schedule.is_loaded());
    world.fail_update_at = None;
    world.calls.clear();
    let steps = catch_up(&mut schedule, &mut world).unwrap();
    assert_eq!(steps[0], FrameStep { frame: 8, restore: true });
    assert_eq!(world.calls[0], Call::Restore(8));
    assert!(dirty_frames(&schedule).is_empty());
}

#[test]
fn phases_can_be_driven_one_by_one() {
    let (mut schedule, _) = advanced_to(10);
    schedule.mark_modified(9).unwrap();
    let step = rollback_restore_system(&schedule, WantedFrame(10)).unwrap();
    assert_eq!(step, FrameStep { frame: 9, restore: true });
    rollback_save_system(&mut schedule, step.frame);
    assert_eq!(schedule.current().0, 10);
    assert!(schedule.is_loaded());
    assert!(dirty_frames(&schedule).is_empty());
    assert_eq!(rollback_restore_system(&schedule, WantedFrame(10)), None);
}

#[test]
fn new_frame_save_only_records_frames_past_last() {
    let (mut schedule, _) = advanced_to(10);
    new_frame_save_system(&mut schedule, Frame(9));
    assert_eq!(schedule.slot_frame(9), Frame(9));
    new_frame_save_system(&mut schedule, Frame(11));
    assert_eq!(schedule.slot_frame(11), Frame(11));
    assert_eq!(schedule.slot_frame(3), Frame(11));
    assert!(!schedule.is_modified(11));
}

#[test]
fn wanted_frame_is_reached_in_one_invocation() {
    let (mut schedule, mut world) = advanced_to(10);
    let steps = rollback_update_system(&mut schedule, &mut world, WantedFrame(12), unlimited())
        .unwrap();
    assert_eq!(steps, vec![FrameStep { frame: 10, restore: false }, FrameStep { frame: 11, restore: false }]);
    assert_eq!(schedule.current().0, 12);
    assert_eq!(schedule.last().0, 12);
    assert_eq!(world.calls, vec![Call::Update(10), Call::Save(11), Call::Update(11), Call::Save(12)]);
}

#[test]
fn budget_bounds_new_frames() {
    let (mut schedule, mut world) = advanced_to(10);
    let config = RollbackUpdateConfig { max_update_loops: 3 };
    let steps = rollback_update_system(&mut schedule, &mut world, WantedFrame(13), config).unwrap();
    assert_eq!(steps.len(), 3);
    assert_eq!(schedule.last().0, 13);
    let config = RollbackUpdateConfig { max_update_loops: 2 };
    let steps = rollback_update_system(&mut schedule, &mut world, WantedFrame(20), config).unwrap();
    assert_eq!(steps.len(), 2);
    assert_eq!(schedule.last().0, 15);
    assert_eq!(schedule.current().0, 15);
}

#[test]
fn frames_at_or_past_wanted_are_not_processed() {
    let (mut schedule, mut world) = advanced_to(10);
    schedule.mark_modified(6).unwrap();
    let steps = rollback_update_system(&mut schedule, &mut world, WantedFrame(8), unlimited())
        .unwrap();
    assert_eq!(steps.iter().map(|s| s.frame).collect::<Vec<_>>(), vec![6, 7]);
    assert_eq!(schedule.current().0, 8);
    assert_eq!(schedule.last().0, 10);
    assert_eq!(dirty_frames(&schedule), vec![8]);
}

#[test]
fn world_call_names_are_comparable() {
    assert_ne!(WorldCall::Update(3), WorldCall::Save(3));
}
