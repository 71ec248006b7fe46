use vstd::prelude::*;
use vstd::arithmetic::div_mod::{
    lemma_add_mod_noop, lemma_fundamental_div_mod, lemma_mod_bound, lemma_mod_decreases,
    lemma_mod_multiples_vanish, lemma_small_mod,
};

use crate::frame::{oldest_frame, oldest_of, slot_of, Frame, LastFrame};
use crate::identity::Entity;
use crate::rollback::Rollback;
use crate::systems::save;

verus! {

/// Whether an entity should be materialized in a frame.
#[derive(Clone, Copy, Debug, Default, PartialEq, Eq, Structural)]
pub struct Exists(pub bool);

/// The entity existed in some frame of `[from, to)`.
pub open spec fn existed_between<const LEN: usize>(
    history: Rollback<Exists, LEN>,
    from: int,
    to: int,
) -> bool {
    exists|f: int| from <= f < to && (#[trigger] history.at(f)).0
}

/// After restoring `current`, the entity must stay (visible or hidden): it exists at
/// `current`, or at an earlier frame of the window, from which a resimulation may
/// need to bring it back.
pub open spec fn keeps_entity<const LEN: usize>(
    current: int,
    last: int,
    history: Rollback<Exists, LEN>,
) -> bool {
    history.at(current).0 || existed_between(history, oldest_of(last, LEN as int), current)
}

/// Every slot of the history is `false`: the entity exists nowhere in the window.
pub open spec fn never_exists<const LEN: usize>(history: Rollback<Exists, LEN>) -> bool {
    forall|i: int| 0 <= i < LEN ==> !(#[trigger] history@[i]).0
}

/// The entities among the first `n` whose history no longer keeps them at `current`.
pub open spec fn removed_at<const LEN: usize>(
    current: int,
    last: int,
    entities: Seq<Entity>,
    histories: Seq<Rollback<Exists, LEN>>,
    n: int,
) -> Seq<Entity>
    decreases n,
{
    if n <= 0 {
        Seq::empty()
    } else {
        let prev = removed_at(current, last, entities, histories, n - 1);
        if keeps_entity(current, last, histories[n - 1]) {
            prev
        } else {
            prev.push(entities[n - 1])
        }
    }
}

/// The entities among the first `n` whose history is `false` in every slot.
pub open spec fn nonexistent<const LEN: usize>(
    entities: Seq<Entity>,
    histories: Seq<Rollback<Exists, LEN>>,
    n: int,
) -> Seq<Entity>
    decreases n,
{
    if n <= 0 {
        Seq::empty()
    } else {
        let prev = nonexistent(entities, histories, n - 1);
        if never_exists(histories[n - 1]) {
            prev.push(entities[n - 1])
        } else {
            prev
        }
    }
}

/// Existence of one entity at the restored frame `current`: whether it exists there,
/// and whether it must be kept (see `keeps_entity`); an entity that is not kept can be
/// reclaimed now.
pub fn restore_existence<const LEN: usize>(
    current: Frame,
    last: LastFrame,
    history: &Rollback<Exists, LEN>,
) -> (r: (Exists, bool))
    requires
        history.wf(),
        current.0 <= last.0,
    ensures
        r.0 == history.at(current.0 as int),
        r.1 == keeps_entity(current.0 as int, last.0 as int, *history),
{
    let here = *history.get(current.0);
    if here.0 {
        return (here, true);
    }
    let oldest = oldest_frame::<LEN>(last.0);
    let mut frame = oldest;
    while frame < current.0
        invariant
            history.wf(),
            here == history.at(current.0 as int),
            oldest <= frame <= current.0 || (frame == oldest && oldest > current.0),
            oldest == oldest_of(last.0 as int, LEN as int),
            forall|f: int| oldest <= f < frame ==> !(#[trigger] history.at(f)).0,
        decreases current.0 - frame,
    {
        if history.get(frame).0 {
            return (here, true);
        }
        frame = frame + 1;
    }
    (here, false)
}


/// Whether every slot of `history` is `false`.
pub fn is_nonexistent<const LEN: usize>(history: &Rollback<Exists, LEN>) -> (r: bool)
    requires
        history.wf(),
    ensures
        r == never_exists(*history),
{
    let mut frame: usize = 0;
    while frame < LEN
        invariant
            history.wf(),
            frame <= LEN,
            forall|i: int| 0 <= i < frame ==> !(#[trigger] history@[i]).0,
        decreases LEN - frame,
    {
        proof {
            lemma_small_mod(frame as nat, LEN as nat);
        }
        if history.get(frame as u64).0 {
            return false;
        }
        frame = frame + 1;
    }
    true
}

/// Restore existence for the frame `current`: `existence[i]` takes the flag that
/// `histories[i]` holds for `current`, and the entities that are not kept (see
/// `keeps_entity`) are returned, in order, to be reclaimed.
pub fn restore_exists_remove_nonexistent<const LEN: usize>(
    current: Frame,
    last: LastFrame,
    entities: &Vec<Entity>,
    histories: &Vec<Rollback<Exists, LEN>>,
    existence: &mut Vec<Exists>,
) -> (removed: Vec<Entity>)
    requires
        current.0 <= last.0,
        entities@.len() == histories@.len(),
        old(existence)@.len() == histories@.len(),
        forall|i: int| 0 <= i < histories@.len() ==> (#[trigger] histories@[i]).wf(),
    ensures
        final(existence)@.len() == histories@.len(),
        forall|i: int|
            0 <= i < histories@.len() ==> #[trigger] final(existence)@[i] == histories@[i].at(
                current.0 as int,
            ),
        removed@ == removed_at(
            current.0 as int,
            last.0 as int,
            entities@,
            histories@,
            entities@.len() as int,
        ),
{
    let n = entities.len();
    let mut removed: Vec<Entity> = Vec::new();
    let mut i: usize = 0;
    while i < n
        invariant
            current.0 <= last.0,
            n == entities@.len(),
            n == histories@.len(),
            n == existence@.len(),
            i <= n,
            forall|j: int| 0 <= j < n ==> (#[trigger] histories@[j]).wf(),
            forall|j: int|
                0 <= j < i ==> #[trigger] existence@[j] == histories@[j].at(current.0 as int),
            removed@ == removed_at(current.0 as int, last.0 as int, entities@, histories@, i as int),
        decreases n - i,
    {
        let (here, keep) = restore_existence(current, last, &histories[i]);
        existence.set(i, here);
        if !keep {
            removed.push(entities[i]);
        }
        i = i + 1;
    }
    removed
}

/// The entities whose history is `false` in every slot of the window, in order: no
/// resimulation can bring them back, so their storage can be reclaimed.
pub fn despawn_nonexistent<const LEN: usize>(
    entities: &Vec<Entity>,
    histories: &Vec<Rollback<Exists, LEN>>,
) -> (removed: Vec<Entity>)
    requires
        entities@.len() == histories@.len(),
        forall|i: int| 0 <= i < histories@.len() ==> (#[trigger] histories@[i]).wf(),
    ensures
        removed@ == nonexistent(entities@, histories@, entities@.len() as int),
{
    let n = entities.len();
    let mut removed: Vec<Entity> = Vec::new();
    let mut i: usize = 0;
    while i < n
        invariant
            n == entities@.len(),
            n == histories@.len(),
            i <= n,
            forall|j: int| 0 <= j < n ==> (#[trigger] histories@[j]).wf(),
            removed@ == nonexistent(entities@, histories@, i as int),
        decreases n - i,
    {
        if is_nonexistent(&histories[i]) {
            removed.push(entities[i]);
        }
        i = i + 1;
    }
    removed
}


/// The existence ring of an entity after its flags `flag(0), ..., flag(n)` were saved
/// at frames `0` to `n`, in a ring of `len` slots that started `false`: each slot
/// holds the flag of the newest saved frame that maps to it.
pub open spec fn recorded(flag: spec_fn(int) -> bool, n: int, len: int) -> Seq<Exists> {
    Seq::new(
        len as nat,
        |i: int|
            if i <= n {
                Exists(flag(n - (n - i) % len))
            } else {
                Exists(false)
            },
    )
}

/// The frame that lies `n - f` frames before `n` maps to a slot that is that many
/// slots before `n`'s, counting backwards through the ring.
proof fn lemma_back_offset(n: int, f: int, len: int)
    requires
        len > 0,
        0 <= f <= n < f + len,
    ensures
        (n - f % len) % len == n - f,
{
    lemma_fundamental_div_mod(f, len);
    lemma_mod_bound(f, len);
    lemma_mod_multiples_vanish(f / len, n - f, len);
    assert(n - f % len == len * (f / len) + (n - f));
    lemma_small_mod((n - f) as nat, len as nat);
}

/// Saving the flag of frame `n + 1` into its slot turns the ring recorded through
/// `n` into the ring recorded through `n + 1`.
pub proof fn lemma_recorded_save(flag: spec_fn(int) -> bool, n: int, len: int)
    requires
        len > 0,
        n >= -1,
    ensures
        recorded(flag, n, len).update(slot_of(n + 1, len), Exists(flag(n + 1))) =~= recorded(
            flag,
            n + 1,
            len,
        ),
{
    let j = slot_of(n + 1, len);
    lemma_mod_bound(n + 1, len);
    lemma_mod_decreases((n + 1) as nat, len as nat);
    assert forall|i: int| 0 <= i < len implies #[trigger] recorded(flag, n, len).update(
        j,
        Exists(flag(n + 1)),
    )[i] == recorded(flag, n + 1, len)[i] by {
        if i == j {
            lemma_back_offset(n + 1, n + 1, len);
        } else if i <= n {
            let r = (n - i) % len;
            lemma_mod_bound(n - i, len);
            lemma_add_mod_noop(n - i, 1, len);
            lemma_small_mod(1, len as nat);
            if r + 1 == len {
                lemma_mod_multiples_vanish(1, 0, len);
                lemma_fundamental_div_mod(n + 1 - i, len);
                lemma_mod_multiples_vanish((n + 1 - i) / len, i, len);
                lemma_small_mod(i as nat, len as nat);
                assert(false);
            } else {
                lemma_small_mod((r + 1) as nat, len as nat);
            }
        } else if i == n + 1 {
            lemma_small_mod((n + 1) as nat, len as nat);
        }
    }
}

/// The recorded ring is `false` in every slot exactly when the flag is `false` at
/// every frame of the window that ends at `n`.
pub proof fn lemma_recorded_never(flag: spec_fn(int) -> bool, n: int, len: int)
    requires
        len > 0,
        n >= 0,
    ensures
        (forall|i: int| 0 <= i < len ==> !(#[trigger] recorded(flag, n, len)[i]).0) <==> (forall|
            f: int,
        |
            oldest_of(n, len) <= f <= n ==> !#[trigger] flag(f)),
{
    let seq = recorded(flag, n, len);
    if forall|f: int| oldest_of(n, len) <= f <= n ==> !#[trigger] flag(f) {
        assert forall|i: int| 0 <= i < len implies !(#[trigger] seq[i]).0 by {
            if i <= n {
                lemma_mod_bound(n - i, len);
                lemma_mod_decreases((n - i) as nat, len as nat);
                let f = n - (n - i) % len;
                assert(oldest_of(n, len) <= f <= n);
                assert(!flag(f));
            }
        }
    }
    if forall|i: int| 0 <= i < len ==> !(#[trigger] seq[i]).0 {
        assert forall|f: int| oldest_of(n, len) <= f <= n implies !#[trigger] flag(f) by {
            let i = f % len;
            lemma_mod_bound(f, len);
            lemma_mod_decreases(f as nat, len as nat);
            lemma_back_offset(n, f, len);
            assert(!seq[i].0);
        }
    }
}

/// The existence phases of the schedule for a window of `LEN` frames: on restore,
/// reinstate each entity's flag and reclaim the entities that nothing can bring back;
/// on save, record each flag and reclaim the entities absent from the whole window.
pub struct ExistencePlugin<const LEN: usize>;

impl<const LEN: usize> ExistencePlugin<LEN> {
    /// The restore phase: see `restore_exists_remove_nonexistent`.
    pub fn restore_phase(
        &self,
        current: Frame,
        last: LastFrame,
        entities: &Vec<Entity>,
        histories: &Vec<Rollback<Exists, LEN>>,
        existence: &mut Vec<Exists>,
    ) -> (removed: Vec<Entity>)
        requires
            current.0 <= last.0,
            entities@.len() == histories@.len(),
            old(existence)@.len() == histories@.len(),
            forall|i: int| 0 <= i < histories@.len() ==> (#[trigger] histories@[i]).wf(),
        ensures
            final(existence)@.len() == histories@.len(),
            forall|i: int|
                0 <= i < histories@.len() ==> #[trigger] final(existence)@[i]
                    == histories@[i].at(current.0 as int),
            removed@ == removed_at(
                current.0 as int,
                last.0 as int,
                entities@,
                histories@,
                entities@.len() as int,
            ),
    {
        restore_exists_remove_nonexistent(current, last, entities, histories, existence)
    }

    /// The save phase: record `existence[i]` as the flag of `current` in
    /// `histories[i]`, then return, in order, the entities whose updated history is
    /// `false` in every slot.
    pub fn save_phase(
        &self,
        current: Frame,
        entities: &Vec<Entity>,
        existence: &Vec<Exists>,
        histories: &mut Vec<Rollback<Exists, LEN>>,
    ) -> (removed: Vec<Entity>)
        requires
            entities@.len() == old(histories)@.len(),
            existence@.len() == old(histories)@.len(),
            forall|i: int| 0 <= i < old(histories)@.len() ==> (#[trigger] old(histories)@[i]).wf(),
        ensures
            final(histories)@.len() == old(histories)@.len(),
            forall|i: int|
                0 <= i < existence@.len() ==> (#[trigger] final(histories)@[i]).wf()
                    && final(histories)@[i]@ == old(histories)@[i].with(
                    current.0 as int,
                    existence@[i],
                ),
            removed@ == nonexistent(entities@, final(histories)@, entities@.len() as int),
    {
        save(current, existence, histories);
        despawn_nonexistent(entities, histories)
    }
}

/// The flags of an entity that exists at frames `0` to `until` and at no later one.
pub open spec fn present_through(until: int) -> spec_fn(int) -> bool {
    |f: int| f <= until
}

/// Existence contiguity: an entity that exists at frames `0` to `until` and at no
/// later frame, with its flag saved each frame, has a ring that is `false` in every
/// slot (so it is reclaimed) exactly once frame `until + len` is reached, never
/// earlier; for instance `false` everywhere at frame `4 + len`, and not before, when
/// it existed at frames 0 to 4.
pub proof fn lemma_existence_contiguity(until: int, n: int, len: int)
    requires
        len > 0,
        until >= 0,
        n >= 0,
    ensures
        (forall|i: int|
            0 <= i < len ==> !(#[trigger] recorded(present_through(until), n, len)[i]).0) <==> n
            >= until + len,
{
    let flag = present_through(until);
    lemma_recorded_never(flag, n, len);
    if n < until + len {
        let f = oldest_of(n, len);
        assert(flag(f));
    }
}

/// A history ring that is `false` everywhere, as `Rollback::new(Exists(false))`
/// makes it, is the ring recorded before frame 0.
pub proof fn lemma_recorded_start<const LEN: usize>(
    history: Rollback<Exists, LEN>,
    flag: spec_fn(int) -> bool,
)
    requires
        history.wf(),
        forall|i: int| 0 <= i < LEN ==> #[trigger] history@[i] == Exists(false),
    ensures
        history@ == recorded(flag, -1, LEN as int),
{
    assert(history@ =~= recorded(flag, -1, LEN as int));
}

/// Saving the flag of frame `n + 1` into a history ring recorded through `n`, which is
/// what `ExistencePlugin::save_phase` does to each entity's ring (its cell of
/// `current` takes the flag), gives the ring recorded through `n + 1`.
pub proof fn lemma_save_records<const LEN: usize>(
    history: Rollback<Exists, LEN>,
    flag: spec_fn(int) -> bool,
    n: int,
)
    requires
        history.wf(),
        n >= -1,
        history@ == recorded(flag, n, LEN as int),
    ensures
        history.with(n + 1, Exists(flag(n + 1))) == recorded(flag, n + 1, LEN as int),
{
    lemma_recorded_save(flag, n, LEN as int);
}

/// Existence contiguity on an entity's ring: when the ring holds the flags saved
/// frame by frame (see `lemma_recorded_start` and `lemma_save_records`) of an entity
/// that existed at frames `0` to `until` only, `is_nonexistent` (and so
/// `despawn_nonexistent` and `save_phase`) reports it exactly once frame
/// `until + LEN` is reached.
pub proof fn lemma_reclaimed_after_window<const LEN: usize>(
    history: Rollback<Exists, LEN>,
    until: int,
    n: int,
)
    requires
        history.wf(),
        until >= 0,
        n >= 0,
        history@ == recorded(present_through(until), n, LEN as int),
    ensures
        never_exists(history) <==> n >= until + LEN,
{
    lemma_existence_contiguity(until, n, LEN as int);
}

} // verus!
