use vstd::prelude::*;
use vstd::arithmetic::div_mod::{lemma_mod_equivalence, lemma_small_mod};

use crate::error::RollbackError;
use crate::frame::{in_window, oldest_frame, oldest_of, slot_of, Frame, LastFrame, Modified, WantedFrame};
use crate::rollback::Rollback;

verus! {

/// How many frames one scheduler invocation may process.
#[derive(Clone, Copy, Debug, Default, PartialEq, Eq, Structural)]
pub struct RollbackUpdateConfig {
    /// Most frames processed by one invocation; `0` means no limit.
    pub max_update_loops: u32,
}

/// One frame of work: restore the state of `frame` when `restore` is set, run the
/// update step on it, and save the result as the state of `frame + 1`.
#[derive(Clone, Copy, Debug, PartialEq, Eq, Structural)]
pub struct FrameStep {
    pub frame: u64,
    pub restore: bool,
}

/// A call that the scheduler makes on the world.
#[derive(Clone, Copy, Debug, PartialEq, Eq, Structural)]
pub enum WorldCall {
    Restore(u64),
    Update(u64),
    Save(u64),
}

/// The world calls of one step: restore `frame` when the step says so, update it,
/// and save the result as `frame + 1`.
pub open spec fn step_calls(s: FrameStep) -> Seq<WorldCall> {
    let body = seq![WorldCall::Update(s.frame), WorldCall::Save((s.frame + 1) as u64)];
    if s.restore {
        seq![WorldCall::Restore(s.frame)] + body
    } else {
        body
    }
}

/// The world calls of a sequence of steps, in order.
pub open spec fn calls_of(steps: Seq<FrameStep>) -> Seq<WorldCall>
    decreases steps.len(),
{
    if steps.len() == 0 {
        Seq::empty()
    } else {
        calls_of(steps.drop_last()) + step_calls(steps.last())
    }
}

/// The bookkeeping of a scheduler, as plain values.
pub struct ScheduleView {
    /// The frame whose state the live simulation holds (or is meant to hold).
    pub current: int,
    /// The newest finalized frame.
    pub last: int,
    /// Whether the live simulation really holds the state of `current`.
    pub loaded: bool,
    /// Per slot, the frame that the slot stands for.
    pub frames: Seq<Frame>,
    /// Per slot, whether the slot must be recomputed.
    pub modified: Seq<Modified>,
}

impl ScheduleView {
    /// The number of slots, `LEN`.
    pub open spec fn len(self) -> int {
        self.modified.len() as int
    }

    /// The oldest frame that can still be corrected.
    pub open spec fn oldest(self) -> int {
        oldest_of(self.last, self.len())
    }

    /// `f` lies in the retention window `[oldest, last]`.
    pub open spec fn in_window(self, f: int) -> bool {
        in_window(f, self.last, self.len())
    }

    /// The dirty flag of the slot of `f`.
    pub open spec fn dirty(self, f: int) -> bool {
        self.modified[slot_of(f, self.len())].0
    }

    /// At least one slot; counters in order; every slot of the window stands for the
    /// frame that maps to it (no slot of the window holds a stale, aliased frame).
    pub open spec fn wf(self) -> bool {
        &&& self.len() > 0
        &&& self.frames.len() == self.len()
        &&& 0 <= self.current <= self.last <= u64::MAX
        &&& forall|f: int| #[trigger] self.in_window(f) ==> self.frames[slot_of(f, self.len())] == Frame(
            f as u64,
        )
    }

    /// No frame of the window is dirty.
    pub open spec fn idle(self) -> bool {
        forall|f: int| #[trigger] self.in_window(f) ==> !self.dirty(f)
    }

    /// The earliest dirty frame in `[f, hi]`.
    pub open spec fn first_dirty_in(self, f: int, hi: int) -> Option<int>
        decreases hi + 1 - f,
    {
        if f > hi {
            None
        } else if self.dirty(f) {
            Some(f)
        } else {
            self.first_dirty_in(f + 1, hi)
        }
    }

    /// The newest frame that may be processed on the way to `wanted`: frames at or
    /// past `wanted` are never processed.
    pub open spec fn scan_end(self, wanted: int) -> int {
        if wanted - 1 < self.last {
            wanted - 1
        } else {
            self.last
        }
    }

    /// The frame the scheduler processes next on its way to `wanted`: the earliest
    /// dirty frame of the window before `wanted`; else `last`, when `wanted` lies past
    /// it (a new frame is computed); else none.
    pub open spec fn next_frame(self, wanted: int) -> Option<int> {
        match self.first_dirty_in(self.oldest(), self.scan_end(wanted)) {
            Some(f) => Some(f),
            None => if self.last < wanted {
                Some(self.last)
            } else {
                None
            },
        }
    }

    /// `f` may be processed: it lies in the window, every earlier frame of the window
    /// is clean, and a new frame after it still has a number.
    pub open spec fn ready(self, f: int) -> bool {
        &&& self.oldest() <= f <= self.last
        &&& forall|g: int| self.oldest() <= g < f ==> !#[trigger] self.dirty(g)
        &&& f == self.last ==> self.last < u64::MAX
    }

    /// The step that processes frame `f`.
    pub open spec fn step_for(self, f: int) -> FrameStep {
        FrameStep { frame: f as u64, restore: !self.loaded || f != self.current }
    }

    /// The bookkeeping after frame `f` was restored, updated, and saved as `f + 1`:
    /// `f` is clean; `f + 1` becomes a new clean frame past `last`, keeps its flag
    /// when it is `last`, and is marked dirty when it lies before `last`.
    pub open spec fn after(self, f: int) -> ScheduleView {
        let len = self.len();
        let cleared = self.modified.update(slot_of(f, len), Modified(false));
        if f + 1 > self.last {
            ScheduleView {
                current: f + 1,
                last: f + 1,
                loaded: true,
                frames: self.frames.update(slot_of(f + 1, len), Frame((f + 1) as u64)),
                modified: cleared.update(slot_of(f + 1, len), Modified(false)),
            }
        } else if f + 1 == self.last {
            ScheduleView { current: f + 1, loaded: true, modified: cleared, ..self }
        } else {
            ScheduleView {
                current: f + 1,
                loaded: true,
                modified: cleared.update(slot_of(f + 1, len), Modified(true)),
                ..self
            }
        }
    }

    /// The steps taken and the bookkeeping reached by processing, at most `n` times,
    /// the next frame on the way to `wanted`.
    pub open spec fn plan(self, wanted: int, n: nat) -> (Seq<FrameStep>, ScheduleView)
        decreases n,
    {
        if n == 0 {
            (Seq::empty(), self)
        } else {
            let (steps, m) = self.plan(wanted, (n - 1) as nat);
            match m.next_frame(wanted) {
                None => (steps, m),
                Some(f) => (steps.push(m.step_for(f)), m.after(f)),
            }
        }
    }

    /// `f` is the one dirty frame of the window.
    pub open spec fn only_dirty(self, f: int) -> bool {
        &&& self.in_window(f)
        &&& forall|g: int| #[trigger] self.in_window(g) ==> (self.dirty(g) <==> g == f)
    }

    /// `k` is where a scheduler invocation towards `wanted` with budget `max` (`0`:
    /// none) stops: each of the `k` rounds took a step, and after them nothing is left
    /// to process or the budget is spent.
    pub open spec fn stops_at(self, wanted: int, k: nat, max: nat) -> bool {
        &&& self.plan(wanted, k).0.len() == k
        &&& max > 0 ==> k <= max
        &&& self.plan(wanted, k).1.next_frame(wanted) is None || (max > 0 && k == max)
    }

    /// New frames still to compute on the way to `wanted`.
    pub open spec fn remaining(self, wanted: int) -> int {
        if wanted > self.last {
            wanted - self.last
        } else {
            0
        }
    }

    /// Work left among the existing frames before `wanted`.
    pub open spec fn pending(self, wanted: int) -> int {
        match self.first_dirty_in(self.oldest(), self.scan_end(wanted)) {
            None => 0,
            Some(f) => self.last + 2 - f,
        }
    }
}

/// Two frames of one window never share a slot.
pub proof fn lemma_slot_unique(a: int, b: int, len: int)
    requires
        len > 0,
        0 <= a,
        0 <= b,
        a - len < b < a + len,
        slot_of(a, len) == slot_of(b, len),
    ensures
        a == b,
{
    lemma_mod_equivalence(a, b, len);
    lemma_mod_equivalence(b, a, len);
    if a > b {
        lemma_small_mod((a - b) as nat, len as nat);
    } else if b > a {
        lemma_small_mod((b - a) as nat, len as nat);
    }
}

/// What `first_dirty_in` finds: the earliest dirty frame of `[f, hi]`.
pub proof fn lemma_first_dirty_in(m: ScheduleView, f: int, hi: int)
    ensures
        match m.first_dirty_in(f, hi) {
            None => forall|g: int| f <= g <= hi ==> !#[trigger] m.dirty(g),
            Some(x) => f <= x <= hi && m.dirty(x) && forall|g: int|
                f <= g < x ==> !#[trigger] m.dirty(g),
        },
    decreases hi + 1 - f,
{
    if f <= hi && !m.dirty(f) {
        lemma_first_dirty_in(m, f + 1, hi);
    }
}

/// A clean stretch `[f, g)` can be skipped.
pub proof fn lemma_first_dirty_skip(m: ScheduleView, f: int, g: int, hi: int)
    requires
        f <= g <= hi + 1,
        forall|h: int| f <= h < g ==> !#[trigger] m.dirty(h),
    ensures
        m.first_dirty_in(f, hi) == m.first_dirty_in(g, hi),
    decreases g - f,
{
    if f < g {
        lemma_first_dirty_skip(m, f + 1, g, hi);
    }
}

/// What `next_frame` picks: a ready frame before `wanted`, either dirty or `last`;
/// when it picks none, no frame of the window before `wanted` is dirty and `last`
/// has reached `wanted`.
pub proof fn lemma_next_frame(m: ScheduleView, wanted: int)
    requires
        m.wf(),
        wanted <= u64::MAX,
    ensures
        match m.next_frame(wanted) {
            Some(f) => m.ready(f) && f < wanted && (m.dirty(f) || f == m.last),
            None => m.last >= wanted && forall|g: int|
                #[trigger] m.in_window(g) && g < wanted ==> !m.dirty(g),
        },
{
    let o = m.oldest();
    let hi = m.scan_end(wanted);
    lemma_first_dirty_in(m, o, hi);
    if m.first_dirty_in(o, hi) is None && m.last < wanted {
        assert forall|g: int| o <= g < m.last implies !#[trigger] m.dirty(g) by {
            assert(g <= hi);
        }
    }
}

/// With the window idle and `wanted` not past `last`, nothing is processed.
pub proof fn lemma_idle_next(m: ScheduleView, wanted: int)
    requires
        m.idle(),
        wanted <= m.last,
    ensures
        m.next_frame(wanted) is None,
{
    let o = m.oldest();
    let hi = m.scan_end(wanted);
    lemma_first_dirty_in(m, o, hi);
    if m.first_dirty_in(o, hi) is Some {
        let x = m.first_dirty_in(o, hi)->0;
        assert(m.in_window(x));
    }
}

/// Processing a ready frame `f` keeps the bookkeeping well formed and leaves every
/// frame up to `f` clean; a new frame leaves the whole window clean.
pub proof fn lemma_after(m: ScheduleView, f: int)
    requires
        m.wf(),
        m.ready(f),
    ensures
        m.after(f).wf(),
        m.after(f).last == if f == m.last { m.last + 1 } else { m.last },
        m.after(f).current == f + 1,
        m.after(f).loaded,
        forall|g: int| #[trigger] m.after(f).in_window(g) && g <= f ==> !m.after(f).dirty(g),
        f == m.last ==> m.after(f).idle(),
        f + 1 < m.last ==> m.after(f).dirty(f + 1) && m.after(f).in_window(f + 1),
{
    let len = m.len();
    let a = m.after(f);
    let o = m.oldest();
    assert forall|g: int| #[trigger] a.in_window(g) && g <= f implies !a.dirty(g) by {
        assert(m.in_window(g));
        if g < f {
            if slot_of(g, len) == slot_of(f, len) {
                lemma_slot_unique(g, f, len);
            }
            if slot_of(g, len) == slot_of(f + 1, len) {
                lemma_slot_unique(g, f + 1, len);
            }
            assert(!m.dirty(g));
        } else {
            if f < m.last && slot_of(f, len) == slot_of(f + 1, len) {
                lemma_slot_unique(f, f + 1, len);
            }
        }
    }
    assert forall|g: int| #[trigger] a.in_window(g) implies a.frames[slot_of(g, len)] == Frame(
        g as u64,
    ) by {
        if f == m.last && g <= f {
            assert(m.in_window(g));
            if slot_of(g, len) == slot_of(f + 1, len) {
                lemma_slot_unique(g, f + 1, len);
            }
        }
        if f < m.last {
            assert(m.in_window(g));
        }
    }
    if f == m.last {
        assert forall|g: int| #[trigger] a.in_window(g) implies !a.dirty(g) by {
            if g != f + 1 {
                assert(a.in_window(g) && g <= f);
            }
        }
    }
    if f + 1 < m.last {
        assert(m.in_window(f + 1));
    }
}

/// Each step strictly lowers the remaining work: a new frame brings `last` closer to
/// `wanted`; otherwise the earliest dirty frame before `wanted` moves forward.
pub proof fn lemma_progress(m: ScheduleView, wanted: int)
    requires
        m.wf(),
        wanted <= u64::MAX,
        m.next_frame(wanted) is Some,
    ensures
        m.remaining(wanted) >= 0,
        m.pending(wanted) >= 0,
        m.after(m.next_frame(wanted)->0).remaining(wanted) < m.remaining(wanted) || (m.after(
            m.next_frame(wanted)->0,
        ).remaining(wanted) == m.remaining(wanted) && 0 <= m.after(
            m.next_frame(wanted)->0,
        ).pending(wanted) < m.pending(wanted)),
{
    let f = m.next_frame(wanted)->0;
    lemma_next_frame(m, wanted);
    lemma_after(m, f);
    let a = m.after(f);
    let hi = m.scan_end(wanted);
    lemma_first_dirty_in(m, m.oldest(), hi);
    if f < m.last {
        assert(m.first_dirty_in(m.oldest(), hi) == Some(f));
        assert forall|h: int| a.oldest() <= h < f + 1 implies !#[trigger] a.dirty(h) by {
            assert(a.in_window(h) && h <= f);
        }
        if f + 1 <= hi + 1 {
            lemma_first_dirty_skip(a, a.oldest(), f + 1, hi);
        }
        lemma_first_dirty_in(a, f + 1, hi);
        lemma_first_dirty_in(a, a.oldest(), hi);
    }
}

/// Once nothing is left to process, further rounds change nothing.
pub proof fn lemma_plan_settled(m: ScheduleView, wanted: int, j: nat, k: nat)
    requires
        j <= k,
        m.plan(wanted, j).1.next_frame(wanted) is None,
    ensures
        m.plan(wanted, k) == m.plan(wanted, j),
    decreases k - j,
{
    if j < k {
        lemma_plan_settled(m, wanted, j, (k - 1) as nat);
    }
}

/// An idle window with `wanted` not past `last` is a no-op for the scheduler: no step
/// is taken (so the world is not called) and the counters and every slot stay.
pub proof fn lemma_idle_no_op(m: ScheduleView, wanted: int, n: nat)
    requires
        m.idle(),
        wanted <= m.last,
    ensures
        m.plan(wanted, n) == (Seq::<FrameStep>::empty(), m),
        calls_of(m.plan(wanted, n).0) == Seq::<WorldCall>::empty(),
{
    lemma_idle_next(m, wanted);
    lemma_plan_settled(m, wanted, 0, n);
}

/// The scheduler is deterministic: two invocations from the same bookkeeping with the
/// same wanted frame and budget take the same steps, make the same world calls in the
/// same order, and end with the same bookkeeping; with a deterministic world the saved
/// states are therefore the same too.
pub proof fn lemma_deterministic(m: ScheduleView, wanted: int, k1: nat, k2: nat, max: nat)
    requires
        m.stops_at(wanted, k1, max),
        m.stops_at(wanted, k2, max),
    ensures
        k1 == k2,
        m.plan(wanted, k1) == m.plan(wanted, k2),
        calls_of(m.plan(wanted, k1).0) == calls_of(m.plan(wanted, k2).0),
{
    if k1 < k2 {
        lemma_plan_settled(m, wanted, k1, k2);
    } else if k2 < k1 {
        lemma_plan_settled(m, wanted, k2, k1);
    }
}

/// With `f` the only dirty frame, before `last`, processing it leaves `f + 1` as the
/// only dirty frame, or the window idle when `f + 1` is `last`.
pub proof fn lemma_after_single(m: ScheduleView, f: int)
    requires
        m.wf(),
        m.only_dirty(f),
        f < m.last,
    ensures
        m.next_frame(m.last) == Some(f),
        m.after(f).wf(),
        m.after(f).last == m.last,
        m.after(f).current == f + 1,
        m.after(f).loaded,
        f + 1 < m.last ==> m.after(f).only_dirty(f + 1),
        f + 1 == m.last ==> m.after(f).idle(),
{
    let len = m.len();
    let a = m.after(f);
    let hi = m.scan_end(m.last);
    assert forall|h: int| m.oldest() <= h < f implies !#[trigger] m.dirty(h) by {
        assert(m.in_window(h));
    }
    lemma_first_dirty_skip(m, m.oldest(), f, hi);
    assert(m.next_frame(m.last) == Some(f));
    lemma_after(m, f);
    assert forall|g: int| #[trigger] a.in_window(g) implies (a.dirty(g) <==> (g == f + 1 && f + 1
        < m.last)) by {
        assert(m.in_window(g));
        if g != f && g != f + 1 {
            if slot_of(g, len) == slot_of(f, len) {
                lemma_slot_unique(g, f, len);
            }
            if slot_of(g, len) == slot_of(f + 1, len) {
                lemma_slot_unique(g, f + 1, len);
            }
        }
        if g == f + 1 {
            assert(m.in_window(f + 1));
            if slot_of(f, len) == slot_of(f + 1, len) {
                lemma_slot_unique(f, f + 1, len);
            }
        }
    }
    if f + 1 < m.last {
        assert(a.in_window(f + 1));
    }
}

/// The steps of catching up from the single dirty frame `f`.
pub open spec fn catch_up_steps(f: int, n: nat) -> Seq<FrameStep> {
    Seq::new(n, |j: int| FrameStep { frame: (f + j) as u64, restore: j == 0 })
}

/// The world calls of catching up from `f`: restore `f`, then update `f + j` and save
/// `f + j + 1` for each `j`.
pub open spec fn catch_up_calls(f: int, n: nat) -> Seq<WorldCall>
    decreases n,
{
    if n == 0 {
        seq![WorldCall::Restore(f as u64)]
    } else {
        catch_up_calls(f, (n - 1) as nat) + seq![
            WorldCall::Update((f + n - 1) as u64),
            WorldCall::Save((f + n) as u64),
        ]
    }
}

proof fn lemma_catch_up_prefix(m: ScheduleView, f: int, k: nat)
    requires
        m.wf(),
        m.only_dirty(f),
        f < m.last,
        m.current == m.last,
        k <= m.last - f,
    ensures
        m.plan(m.last, k).0 == catch_up_steps(f, k),
        k > 0 ==> calls_of(m.plan(m.last, k).0) == catch_up_calls(f, k),
        m.plan(m.last, k).1.wf(),
        m.plan(m.last, k).1.last == m.last,
        k > 0 ==> m.plan(m.last, k).1.current == f + k && m.plan(m.last, k).1.loaded,
        k == 0 ==> m.plan(m.last, k).1 == m,
        f + k < m.last ==> m.plan(m.last, k).1.only_dirty(f + k),
        f + k == m.last ==> m.plan(m.last, k).1.idle(),
    decreases k,
{
    if k > 0 {
        let j = (k - 1) as nat;
        lemma_catch_up_prefix(m, f, j);
        let s = m.plan(m.last, j).1;
        lemma_after_single(s, f + j);
        let steps = m.plan(m.last, k).0;
        assert(steps =~= catch_up_steps(f, k));
        assert(steps.drop_last() =~= catch_up_steps(f, j));
        let st = steps.last();
        assert(st == FrameStep { frame: (f + j) as u64, restore: j == 0 });
        assert(calls_of(steps) == calls_of(steps.drop_last()) + step_calls(st));
        if j == 0 {
            assert(calls_of(steps.drop_last()) =~= Seq::<WorldCall>::empty());
            assert(step_calls(st) =~= seq![
                WorldCall::Restore(f as u64),
                WorldCall::Update(f as u64),
                WorldCall::Save((f + 1) as u64),
            ]);
            assert(catch_up_calls(f, 0) == seq![WorldCall::Restore(f as u64)]);
            assert(catch_up_calls(f, k) == catch_up_calls(f, 0) + seq![
                WorldCall::Update(f as u64),
                WorldCall::Save((f + 1) as u64),
            ]);
            assert(calls_of(steps) =~= catch_up_calls(f, k));
        } else {
            assert(step_calls(st) =~= seq![
                WorldCall::Update((f + j) as u64),
                WorldCall::Save((f + k) as u64),
            ]);
            assert(calls_of(steps) =~= catch_up_calls(f, k));
        }
    }
}

/// Catch-up completeness: with `f` the only dirty frame, before `last`, the
/// simulation at rest at `last`, and `last` wanted, an invocation without budget
/// restores `f` once, then updates every frame from `f` to `last - 1` exactly once
/// and in increasing order, saving each result as the next frame through `last`; it
/// stops with `current == last`, `last` unchanged, and no dirty frame in the window.
pub proof fn lemma_catch_up(m: ScheduleView, f: int)
    requires
        m.wf(),
        m.only_dirty(f),
        f < m.last,
        m.current == m.last,
    ensures
        m.stops_at(m.last, (m.last - f) as nat, 0),
        m.plan(m.last, (m.last - f) as nat).0 == catch_up_steps(f, (m.last - f) as nat),
        calls_of(m.plan(m.last, (m.last - f) as nat).0) == catch_up_calls(f, (m.last - f) as nat),
        m.plan(m.last, (m.last - f) as nat).1.current == m.last,
        m.plan(m.last, (m.last - f) as nat).1.last == m.last,
        m.plan(m.last, (m.last - f) as nat).1.idle(),
{
    let k = (m.last - f) as nat;
    lemma_catch_up_prefix(m, f, k);
    lemma_idle_next(m.plan(m.last, k).1, m.last);
}

/// Window bound: with at least `len` frames past zero, `last - len` (one before the
/// oldest retained frame) lies outside the window and `last - len + 1` inside it, so
/// marking or injecting at the former is `DroppedSnapshot` with nothing changed.
pub proof fn lemma_window_bound(m: ScheduleView)
    requires
        m.wf(),
        m.last >= m.len(),
    ensures
        !m.in_window(m.last - m.len()),
        m.in_window(m.last - m.len() + 1),
        m.oldest() == m.last - m.len() + 1,
{
}

/// The collaborator that owns the live simulation: it restores saved state, runs the
/// deterministic update step, and saves state, each for a given frame. Its failures
/// are handed back to the caller of the scheduler unchanged. `calls` is the log of
/// the calls it has received; each method appends its own call, whatever it returns.
/// An implementation verified with this library defines `calls` as its log; the
/// default only lets implementations outside verification leave it out.
pub trait RollbackWorld {
    type Error;

    closed spec fn calls(&self) -> Seq<WorldCall> {
        Seq::empty()
    }

    /// Load the state saved for `frame` into the live simulation.
    fn restore(&mut self, frame: u64) -> (r: Result<(), Self::Error>)
        ensures
            final(self).calls() == old(self).calls().push(WorldCall::Restore(frame)),
    ;

    /// Load the inputs of `frame` and advance the live simulation by one step.
    fn update(&mut self, frame: u64) -> (r: Result<(), Self::Error>)
        ensures
            final(self).calls() == old(self).calls().push(WorldCall::Update(frame)),
    ;

    /// Save the live simulation as the state of `frame`.
    fn save(&mut self, frame: u64) -> (r: Result<(), Self::Error>)
        ensures
            final(self).calls() == old(self).calls().push(WorldCall::Save(frame)),
    ;
}

/// Frame counters and per-slot bookkeeping (the frame each slot stands for and its
/// dirty flag) for a window of `LEN` frames.
pub struct RollbackSchedule<const LEN: usize> {
    frame: Frame,
    last: LastFrame,
    loaded: bool,
    frames: Rollback<Frame, LEN>,
    modified: Rollback<Modified, LEN>,
}

impl<const LEN: usize> View for RollbackSchedule<LEN> {
    type V = ScheduleView;

    closed spec fn view(&self) -> ScheduleView {
        ScheduleView {
            current: self.frame.0 as int,
            last: self.last.0 as int,
            loaded: self.loaded,
            frames: self.frames@,
            modified: self.modified@,
        }
    }
}

impl<const LEN: usize> RollbackSchedule<LEN> {
    /// The bookkeeping is well formed and sized for `LEN` slots.
    pub open spec fn wf(&self) -> bool {
        &&& self@.wf()
        &&& self.sized()
    }

    /// Both per-slot tables hold `LEN` entries, and `LEN` is positive.
    pub open spec fn sized(&self) -> bool {
        &&& LEN > 0
        &&& self@.len() == LEN
        &&& self@.frames.len() == LEN
    }

    /// A schedule at frame 0, with every slot standing for frame 0 and clean. The
    /// live simulation is taken to hold the state of frame 0.
    pub fn new() -> (r: Self)
        requires
            LEN > 0,
        ensures
            r.wf(),
            r@.current == 0,
            r@.last == 0,
            r@.loaded,
            forall|i: int| 0 <= i < LEN ==> #[trigger] r@.frames[i] == Frame(0),
            forall|i: int| 0 <= i < LEN ==> #[trigger] r@.modified[i] == Modified(false),
    {
        let r = RollbackSchedule {
            frame: Frame(0),
            last: LastFrame(0),
            loaded: true,
            frames: Rollback::new(Frame(0)),
            modified: Rollback::new(Modified(false)),
        };
        assert forall|f: int| #[trigger] r@.in_window(f) implies r@.frames[slot_of(f, LEN as int)]
            == Frame(f as u64) by {
            assert(f == 0);
        }
        r
    }

    /// The frame whose state the live simulation holds.
    pub fn current(&self) -> (r: Frame)
        ensures
            r.0 == self@.current,
    {
        self.frame
    }

    /// The newest finalized frame.
    pub fn last(&self) -> (r: LastFrame)
        ensures
            r.0 == self@.last,
    {
        self.last
    }

    /// The oldest frame that can still be corrected.
    pub fn oldest(&self) -> (r: u64)
        requires
            self.wf(),
        ensures
            r == self@.oldest(),
    {
        oldest_frame::<LEN>(self.last.0)
    }

    /// Whether the slot of `frame` is marked for recomputation.
    pub fn is_modified(&self, frame: u64) -> (r: bool)
        requires
            self.wf(),
        ensures
            r == self@.dirty(frame as int),
    {
        self.modified.get(frame).0
    }

    /// Forget that the live simulation holds the state of `current`, so that the next
    /// step restores.
    fn unload(&mut self)
        requires
            old(self).wf(),
        ensures
            final(self).wf(),
            final(self)@ == (ScheduleView { loaded: false, ..old(self)@ }),
    {
        self.loaded = false;
        assert forall|f: int| #[trigger] self@.in_window(f) implies self@.frames[slot_of(
            f,
            LEN as int,
        )] == Frame(f as u64) by {
            assert(old(self)@.in_window(f));
        }
    }

    /// Whether the live simulation is known to hold the state of `current`.
    pub fn is_loaded(&self) -> (r: bool)
        ensures
            r == self@.loaded,
    {
        self.loaded
    }

    /// The frame that the slot of `frame` stands for.
    pub fn slot_frame(&self, frame: u64) -> (r: Frame)
        requires
            self.wf(),
        ensures
            r == self@.frames[slot_of(frame as int, LEN as int)],
    {
        *self.frames.get(frame)
    }

    /// Mark `frame` for recomputation. A frame outside the window
    /// `[last - LEN + 1, last]` can no longer be corrected: `DroppedSnapshot`, and
    /// nothing changes.
    pub fn mark_modified(&mut self, frame: u64) -> (r: Result<(), RollbackError>)
        requires
            old(self).wf(),
        ensures
            final(self).wf(),
            r is Ok <==> old(self)@.in_window(frame as int),
            r is Ok ==> final(self)@ == (ScheduleView {
                modified: old(self)@.modified.update(
                    slot_of(frame as int, LEN as int),
                    Modified(true),
                ),
                ..old(self)@
            }),
            r is Err ==> r == Err::<(), RollbackError>(RollbackError::DroppedSnapshot)
                && final(self)@ == old(self)@,
    {
        let oldest = self.oldest();
        if frame < oldest || frame > self.last.0 {
            return Err(RollbackError::DroppedSnapshot);
        }
        self.modified.set(frame, Modified(true));
        assert forall|f: int| #[trigger] self@.in_window(f) implies self@.frames[slot_of(
            f,
            LEN as int,
        )] == Frame(f as u64) by {
            assert(old(self)@.in_window(f));
        }
        Ok(())
    }

    /// Write a late or corrected input for `frame` into `inputs` and mark the frame
    /// for recomputation; outside the window: `DroppedSnapshot`, and nothing changes.
    pub fn inject<I>(&mut self, inputs: &mut Rollback<I, LEN>, frame: u64, value: I) -> (r: Result<
        (),
        RollbackError,
    >)
        requires
            old(self).wf(),
            old(inputs).wf(),
        ensures
            final(self).wf(),
            final(inputs).wf(),
            r is Ok <==> old(self)@.in_window(frame as int),
            r is Ok ==> final(self)@ == (ScheduleView {
                modified: old(self)@.modified.update(
                    slot_of(frame as int, LEN as int),
                    Modified(true),
                ),
                ..old(self)@
            }) && final(inputs)@ == old(inputs).with(frame as int, value),
            r is Err ==> r == Err::<(), RollbackError>(RollbackError::DroppedSnapshot)
                && final(self)@ == old(self)@ && final(inputs)@ == old(inputs)@,
    {
        let r = self.mark_modified(frame);
        if r.is_ok() {
            inputs.set(frame, value);
        }
        r
    }
}

/// The restore phase: pick the frame to process next on the way to `wanted` (see
/// `next_frame`); the step restores state unless that frame is the one already loaded.
pub fn rollback_restore_system<const LEN: usize>(
    schedule: &RollbackSchedule<LEN>,
    wanted: WantedFrame,
) -> (r: Option<FrameStep>)
    requires
        schedule.wf(),
    ensures
        r == match schedule@.next_frame(wanted.0 as int) {
            None => None,
            Some(f) => Some(schedule@.step_for(f)),
        },
        r matches Some(step) ==> schedule@.in_window(step.frame as int)
            && schedule@.frames[slot_of(step.frame as int, LEN as int)] == Frame(step.frame),
{
    proof {
        lemma_next_frame(schedule@, wanted.0 as int);
    }
    let last = schedule.last.0;
    let oldest = schedule.oldest();
    if wanted.0 > oldest {
        let end = if wanted.0 - 1 < last {
            wanted.0 - 1
        } else {
            last
        };
        let mut frame = oldest;
        loop
            invariant
                schedule.wf(),
                oldest == schedule@.oldest(),
                oldest <= frame <= end,
                end == schedule@.scan_end(wanted.0 as int),
                end <= last,
                last == schedule@.last,
                schedule@.first_dirty_in(oldest as int, end as int)
                    == schedule@.first_dirty_in(frame as int, end as int),
            ensures
                schedule@.first_dirty_in(oldest as int, end as int) is None,
            decreases end - frame,
        {
            if schedule.is_modified(frame) {
                let restore = !schedule.loaded || frame != schedule.frame.0;
                assert(schedule@.in_window(frame as int));
                return Some(FrameStep { frame, restore });
            }
            if frame == end {
                assert(schedule@.first_dirty_in(frame as int + 1, end as int) is None);
                break ;
            }
            frame = frame + 1;
        }
    } else {
        assert(schedule@.first_dirty_in(oldest as int, schedule@.scan_end(wanted.0 as int)) is None);
    }
    if last < wanted.0 {
        let restore = !schedule.loaded || last != schedule.frame.0;
        assert(schedule@.in_window(last as int));
        return Some(FrameStep { frame: last, restore });
    }
    None
}

/// Record `current` as a new frame when it lies past `last`: its slot now stands for
/// it and starts clean. Otherwise nothing changes.
pub fn new_frame_save_system<const LEN: usize>(schedule: &mut RollbackSchedule<LEN>, current: Frame)
    requires
        old(schedule).sized(),
    ensures
        final(schedule).sized(),
        final(schedule)@ == if current.0 > old(schedule)@.last {
            ScheduleView {
                frames: old(schedule)@.frames.update(
                    slot_of(current.0 as int, LEN as int),
                    current,
                ),
                modified: old(schedule)@.modified.update(
                    slot_of(current.0 as int, LEN as int),
                    Modified(false),
                ),
                ..old(schedule)@
            }
        } else {
            old(schedule)@
        },
{
    if current.0 > schedule.last.0 {
        schedule.frames.set(current.0, current);
        schedule.modified.set(current.0, Modified(false));
    }
}

/// The save phase after the ready frame `frame` was updated and the state of
/// `frame + 1` saved: `frame` becomes clean; `frame + 1` becomes the new `last` when
/// it lies past it, keeps its flag when it is `last`, and is marked dirty when it lies
/// before.
pub fn rollback_save_system<const LEN: usize>(schedule: &mut RollbackSchedule<LEN>, frame: u64)
    requires
        old(schedule).wf(),
        old(schedule)@.ready(frame as int),
    ensures
        final(schedule).wf(),
        final(schedule)@ == old(schedule)@.after(frame as int),
{
    proof {
        lemma_after(schedule@, frame as int);
    }
    schedule.modified.set(frame, Modified(false));
    let next = frame + 1;
    if next > schedule.last.0 {
        new_frame_save_system(schedule, Frame(next));
        schedule.last = LastFrame(next);
    } else if next < schedule.last.0 {
        schedule.modified.set(next, Modified(true));
    }
    schedule.frame = Frame(next);
    schedule.loaded = true;
    assert(schedule@ =~= old(schedule)@.after(frame as int));
}

/// The scheduler: repeatedly take the next frame on the way to `wanted` (the earliest
/// dirty frame of the window before `wanted`, else `last` while `wanted` lies past
/// it), restore its state unless already loaded, run the update step, save the result
/// as the next frame, and record the bookkeeping; until nothing is left or
/// `config.max_update_loops` frames were processed (`0`: no limit). Frames at or past
/// `wanted` are never processed.
///
/// On success it returns the steps taken, exactly `plan` of the schedule it started
/// from, and the world received exactly their calls. A failure of `world` is returned
/// unchanged; the frame being processed then stays dirty and the live state is no
/// longer taken as loaded.
pub fn rollback_update_system<const LEN: usize, W: RollbackWorld>(
    schedule: &mut RollbackSchedule<LEN>,
    world: &mut W,
    wanted: WantedFrame,
    config: RollbackUpdateConfig,
) -> (r: Result<Vec<FrameStep>, W::Error>)
    requires
        old(schedule).wf(),
    ensures
        final(schedule).wf(),
        old(schedule)@.next_frame(wanted.0 as int) is None ==> r is Ok && final(schedule)@ == old(
            schedule,
        )@ && final(world).calls() == old(world).calls(),
        match r {
            Ok(steps) => {
                &&& (steps@, final(schedule)@) == old(schedule)@.plan(
                    wanted.0 as int,
                    steps@.len(),
                )
                &&& old(schedule)@.stops_at(
                    wanted.0 as int,
                    steps@.len(),
                    config.max_update_loops as nat,
                )
                &&& final(world).calls() == old(world).calls() + calls_of(steps@)
                &&& config.max_update_loops > 0 ==> steps@.len() <= config.max_update_loops
                &&& config.max_update_loops == 0 ==> final(schedule)@.next_frame(
                    wanted.0 as int,
                ) is None
                &&& config.max_update_loops == 0 ==> final(schedule)@.last == if wanted.0
                    > old(schedule)@.last {
                    wanted.0 as int
                } else {
                    old(schedule)@.last
                }
                &&& config.max_update_loops == 0 ==> forall|f: int| #[trigger]
                    final(schedule)@.in_window(f) && f < wanted.0 ==> !final(schedule)@.dirty(f)
                &&& config.max_update_loops == 0 && steps@.len() > 0 ==> final(schedule)@.current
                    == wanted.0
                &&& config.max_update_loops == 0 && wanted.0 > old(schedule)@.last ==> {
                    &&& final(schedule)@.current == wanted.0
                    &&& final(schedule)@.last == wanted.0
                    &&& final(schedule)@.idle()
                }
            },
            Err(_) => exists|n: nat, k: int|
                #![trigger old(schedule)@.plan(wanted.0 as int, n), step_calls(
                    old(schedule)@.plan(wanted.0 as int, n).1.step_for(k),
                )]
                {
                    let (done, m) = old(schedule)@.plan(wanted.0 as int, n);
                    &&& m.next_frame(wanted.0 as int) is Some
                    &&& k == m.next_frame(wanted.0 as int)->0
                    &&& final(schedule)@ == (ScheduleView { loaded: false, ..m })
                    &&& final(world).calls().len() > old(world).calls().len() + calls_of(done).len()
                    &&& final(world).calls().is_prefix_of(
                        old(world).calls() + calls_of(done) + step_calls(m.step_for(k)),
                    )
                },
        },
{
    let ghost w = wanted.0 as int;
    let ghost start = world.calls();
    let mut steps: Vec<FrameStep> = Vec::new();
    let limit = config.max_update_loops as usize;
    loop
        invariant
            schedule.wf(),
            (steps@, schedule@) == old(schedule)@.plan(w, steps@.len()),
            world.calls() == start + calls_of(steps@),
            start == old(world).calls(),
            w == wanted.0,
            config.max_update_loops > 0 ==> steps@.len() <= config.max_update_loops,
            limit == config.max_update_loops as usize,
            old(schedule)@.last <= schedule@.last,
            schedule@.last <= if w > old(schedule)@.last { w } else { old(schedule)@.last },
            steps@.len() > 0 ==> schedule@.current == w || (schedule@.current < w && (
            schedule@.current == schedule@.last || (schedule@.in_window(schedule@.current)
                && schedule@.dirty(schedule@.current)))),
            steps@.len() == 0 ==> schedule@ == old(schedule)@,
            steps@.len() > 0 ==> old(schedule)@.next_frame(w) is Some,
            schedule@.last > old(schedule)@.last ==> schedule@.idle(),
        ensures
            schedule.wf(),
            (steps@, schedule@) == old(schedule)@.plan(w, steps@.len()),
            world.calls() == start + calls_of(steps@),
            config.max_update_loops > 0 ==> steps@.len() <= config.max_update_loops,
            schedule@.next_frame(w) is None || steps@.len() == config.max_update_loops,
            config.max_update_loops == 0 ==> schedule@.next_frame(w) is None,
            old(schedule)@.last <= schedule@.last,
            schedule@.last <= if w > old(schedule)@.last { w } else { old(schedule)@.last },
            steps@.len() > 0 ==> schedule@.current == w || (schedule@.current < w && (
            schedule@.current == schedule@.last || (schedule@.in_window(schedule@.current)
                && schedule@.dirty(schedule@.current)))),
            steps@.len() == 0 ==> schedule@ == old(schedule)@,
            steps@.len() > 0 ==> old(schedule)@.next_frame(w) is Some,
            schedule@.last > old(schedule)@.last ==> schedule@.idle(),
        decreases schedule@.remaining(w), schedule@.pending(w),
    {
        if limit > 0 && steps.len() >= limit {
            break ;
        }
        let next = rollback_restore_system(schedule, wanted);
        let step = match next {
            None => {
                break ;
            },
            Some(step) => step,
        };
        let ghost before = schedule@;
        let ghost f = before.next_frame(w)->0;
        let ghost done = world.calls();
        proof {
            lemma_next_frame(before, w);
            lemma_progress(before, w);
            lemma_after(before, f);
            if before.last > old(schedule)@.last {
                assert(before.in_window(f));
            }
        }
        if step.restore {
            if let Err(e) = world.restore(step.frame) {
                schedule.unload();
                assert(world.calls().is_prefix_of(done + step_calls(before.step_for(f))));
                assert(old(schedule)@.plan(w, steps@.len()) == (steps@, before));
                assert(world.calls().len() > start.len() + calls_of(steps@).len());
                assert(step_calls(old(schedule)@.plan(w, steps@.len()).1.step_for(f)) == step_calls(
                    before.step_for(f),
                ));
                return Err(e);
            }
        }
        if let Err(e) = world.update(step.frame) {
            schedule.unload();
            assert(world.calls().is_prefix_of(done + step_calls(before.step_for(f))));
            assert(old(schedule)@.plan(w, steps@.len()) == (steps@, before));
            assert(world.calls().len() > start.len() + calls_of(steps@).len());
            assert(step_calls(old(schedule)@.plan(w, steps@.len()).1.step_for(f)) == step_calls(
                before.step_for(f),
            ));
            return Err(e);
        }
        if let Err(e) = world.save(step.frame + 1) {
            schedule.unload();
            assert(world.calls() =~= done + step_calls(before.step_for(f)));
            assert(world.calls().is_prefix_of(done + step_calls(before.step_for(f))));
            assert(old(schedule)@.plan(w, steps@.len()) == (steps@, before));
            assert(world.calls().len() > start.len() + calls_of(steps@).len());
            assert(step_calls(old(schedule)@.plan(w, steps@.len()).1.step_for(f)) == step_calls(
                before.step_for(f),
            ));
            return Err(e);
        }
        assert(world.calls() =~= done + step_calls(before.step_for(f)));
        let ghost prev = steps@;
        rollback_save_system(schedule, step.frame);
        steps.push(step);
        assert(steps@.drop_last() =~= prev);
    }
    proof {
        lemma_next_frame(schedule@, w);
        lemma_next_frame(old(schedule)@, w);
    }
    Ok(steps)
}

} // verus!
