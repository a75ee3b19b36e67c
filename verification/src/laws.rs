//! The library-wide laws, each proved from the public contracts alone.

use vstd::prelude::*;
use crate::body_damping::damped_rb;
use crate::broad_phase::{body_of, present};
use crate::fx::{lemma_fx_mul_shrinks, lemma_square_monotone, SCALE};
use crate::object::RigidBody;
use crate::signal::{life_after, log_wf_for, Event, LifeState};
use crate::world::{step_bodies, step_constraints, step_log, step_pairs, step_stage_ids, World};

verus! {

/// Pair validity: no pair in the broad phase table names one body twice,
/// and no watched pair of rigid bodies is static on both sides, so neither
/// kind ever reaches the narrow phase.
pub proof fn lemma_pair_validity(w: World, k: int)
    requires
        w.wf(),
        0 <= k < w.narrow.broad_phase.pairs@.len(),
    ensures
        w.narrow.broad_phase.pairs@[k].a != w.narrow.broad_phase.pairs@[k].b,
        body_of(w.bodies@, w.narrow.broad_phase.pairs@[k].a as int) is RB && body_of(
            w.bodies@,
            w.narrow.broad_phase.pairs@[k].b as int,
        ) is RB ==> !(body_of(w.bodies@, w.narrow.broad_phase.pairs@[k].a as int).rb().is_static()
            && body_of(w.bodies@, w.narrow.broad_phase.pairs@[k].b as int).rb().is_static()),
{
    assert(crate::broad_phase::pair_ok(w.narrow.broad_phase.pairs@[k], w.bodies@));
}

/// Sleep consistency: a deactivated body is in no integrator's update set,
/// so no velocity or force pass touches it until it is activated again.
pub proof fn lemma_sleep_consistency(w: World, id: usize)
    requires
        w.wf(),
        present(w.bodies@, id as int),
        body_of(w.bodies@, id as int) is RB,
        !body_of(w.bodies@, id as int).rb().is_active_sp(),
    ensures
        !w.forces.objects.tracks(id),
        !w.integrator.objects.tracks(id),
        !w.damping.objects.tracks(id),
        !w.ccd.objects.tracks(id),
{
    assert(!w.forces.objects.ids@.contains(id));
    assert(!w.integrator.objects.ids@.contains(id));
    assert(!w.damping.objects.ids@.contains(id));
    assert(!w.ccd.objects.ids@.contains(id));
}

/// The alternation discipline survives truncation: any prefix of a
/// well-formed log is well-formed.
pub proof fn lemma_log_wf_prefix(log: Seq<Event>, id: usize, n: int)
    requires
        log_wf_for(log, id),
        0 <= n <= log.len(),
    ensures
        log_wf_for(log.take(n), id),
    decreases log.len(),
{
    if n == log.len() {
        assert(log.take(n) =~= log);
    } else if log.len() > 0 {
        assert(log.drop_last() =~= log.take(log.len() - 1));
        assert(log.take(n) =~= log.drop_last().take(n));
        lemma_log_wf_prefix(log.drop_last(), id, n);
    }
}

/// Signal symmetry: at the moment any `body_activated` fires for a body,
/// the log shows that body asleep, which only a preceding `body_deactivated`
/// with no interleaved duplicate can have caused.
pub proof fn lemma_signal_symmetry(w: World, i: int, id: usize)
    requires
        w.wf(),
        0 <= i < w.signals.log@.len(),
        w.signals.log@[i] == (Event::BodyActivated { id }),
    ensures
        life_after(w.signals.log@.take(i), id) == LifeState::Asleep,
{
    let log = w.signals.log@;
    assert(log_wf_for(log, id));
    lemma_log_wf_prefix(log, id, i + 1);
    let pre = log.take(i + 1);
    assert(pre.last() == log[i]);
    assert(pre.drop_last() =~= log.take(i));
}

/// A body asleep in the eyes of the log got there through a
/// `body_deactivated` that no later lifecycle event of the same body
/// overrode.
pub proof fn lemma_asleep_witness(log: Seq<Event>, id: usize)
    requires
        life_after(log, id) == LifeState::Asleep,
    ensures
        exists|j: int|
            0 <= j < log.len() && log[j] == (Event::BodyDeactivated { id }) && (forall|k: int|
                j < k < log.len() ==> !crate::signal::concerns(#[trigger] log[k], id)),
    decreases log.len(),
{
    let last = log.last();
    if crate::signal::concerns(last, id) {
        assert(last == (Event::BodyDeactivated { id }));
        let j = log.len() - 1;
        assert(log[j] == (Event::BodyDeactivated { id }) && (forall|k: int|
            j < k < log.len() ==> !crate::signal::concerns(#[trigger] log[k], id)));
    } else {
        assert(life_after(log.drop_last(), id) == LifeState::Asleep);
        lemma_asleep_witness(log.drop_last(), id);
        let j = choose|j: int|
            0 <= j < log.drop_last().len() && log.drop_last()[j] == (Event::BodyDeactivated { id })
                && (forall|k: int|
                j < k < log.drop_last().len() ==> !crate::signal::concerns(
                    #[trigger] log.drop_last()[k],
                    id,
                ));
        assert forall|k: int| j < k < log.len() implies !crate::signal::concerns(
            #[trigger] log[k],
            id,
        ) by {
            if k < log.len() - 1 {
                assert(log.drop_last()[k] == log[k]);
            }
        }
        assert(log[j] == log.drop_last()[j]);
    }
}

/// Energy dissipation of the damping stage: one damping application never
/// raises a body's kinetic energy.
pub proof fn lemma_damping_dissipative(rb: RigidBody, lin: int, ang: int)
    requires
        0 <= lin <= SCALE,
        0 <= ang <= SCALE,
    ensures
        damped_rb(rb, lin, ang).kinetic_sp() <= rb.kinetic_sp(),
{
    let d = damped_rb(rb, lin, ang);
    lemma_fx_mul_shrinks(rb.lin_vel.x as int, lin);
    lemma_fx_mul_shrinks(rb.lin_vel.y as int, lin);
    lemma_fx_mul_shrinks(rb.lin_vel.z as int, lin);
    lemma_fx_mul_shrinks(rb.ang_vel.x as int, ang);
    lemma_fx_mul_shrinks(rb.ang_vel.y as int, ang);
    lemma_fx_mul_shrinks(rb.ang_vel.z as int, ang);
    lemma_square_monotone(d.lin_vel.x as int, rb.lin_vel.x as int);
    lemma_square_monotone(d.lin_vel.y as int, rb.lin_vel.y as int);
    lemma_square_monotone(d.lin_vel.z as int, rb.lin_vel.z as int);
    lemma_square_monotone(d.ang_vel.x as int, rb.ang_vel.x as int);
    lemma_square_monotone(d.ang_vel.y as int, rb.ang_vel.y as int);
    lemma_square_monotone(d.ang_vel.z as int, rb.ang_vel.z as int);
}

/// Determinism: one step's outcome is a function of the old world and the
/// time step alone, so two runs with identical inputs produce identical
/// bodies, pair tables, signal logs, constraint sets and stage sets at
/// every step boundary.
pub proof fn lemma_step_deterministic(w1: World, w2: World, dt: int)
    requires
        w1 == w2,
    ensures
        step_bodies(w1, dt) == step_bodies(w2, dt),
        step_pairs(w1, dt) == step_pairs(w2, dt),
        step_log(w1, dt) == step_log(w2, dt),
        step_constraints(w1, dt) == step_constraints(w2, dt),
        forall|ids: Seq<usize>| #[trigger] step_stage_ids(ids, w1, dt) == step_stage_ids(ids, w2, dt),
{
}

} // verus!
