//! The damping integrator: each step it scales the linear and angular
//! velocity of every body it tracks by per-stage damping coefficients, so
//! kinetic energy bleeds out of the simulation.

use vstd::prelude::*;
use crate::bodies_bodies::bodies_wf;
use crate::broad_phase::{body_of, present};
use crate::fx::{lemma_fx_mul_shrinks, SCALE};
use crate::object::{Body, RigidBody};
use crate::signal::SignalEmitter;
use crate::tracked_set::{lemma_take_push, TrackedSet};

verus! {

/// The bodies a stage acts on: every tracked handle names a present, awake,
/// movable rigid body. The added and activated signals put handles in, the
/// removed and deactivated signals take them out.
pub open spec fn tracked_ok(ids: Seq<usize>, bodies: Seq<Option<Body>>) -> bool {
    forall|k: int|
        0 <= k < ids.len() ==> {
            let id = #[trigger] ids[k];
            &&& present(bodies, id as int)
            &&& body_of(bodies, id as int) is RB
            &&& body_of(bodies, id as int).rb().is_active_sp()
            &&& !body_of(bodies, id as int).rb().is_static()
        }
}

/// A body with both velocities scaled by the damping coefficients.
pub open spec fn damped_rb(rb: RigidBody, lin: int, ang: int) -> RigidBody {
    RigidBody { lin_vel: rb.lin_vel.scale_sp(lin), ang_vel: rb.ang_vel.scale_sp(ang), ..rb }
}

/// What one damping pass does to a slot: a tracked rigid body is damped,
/// everything else is untouched.
pub open spec fn damp_slot(s: Option<Body>, watched: bool, lin: int, ang: int) -> Option<Body> {
    if s is Some && s->Some_0 is RB && watched {
        Some(Body::RB(damped_rb(s->Some_0.rb(), lin, ang)))
    } else {
        s
    }
}

/// Damping an awake movable well-formed body keeps it well-formed and never
/// grows the magnitude of any velocity component.
pub proof fn lemma_damped_wf(rb: RigidBody, lin: int, ang: int)
    requires
        rb.wf(),
        rb.is_active_sp(),
        !rb.is_static(),
        0 <= lin <= SCALE,
        0 <= ang <= SCALE,
    ensures
        damped_rb(rb, lin, ang).wf(),
{
    lemma_fx_mul_shrinks(rb.lin_vel.x as int, lin);
    lemma_fx_mul_shrinks(rb.lin_vel.y as int, lin);
    lemma_fx_mul_shrinks(rb.lin_vel.z as int, lin);
    lemma_fx_mul_shrinks(rb.ang_vel.x as int, ang);
    lemma_fx_mul_shrinks(rb.ang_vel.y as int, ang);
    lemma_fx_mul_shrinks(rb.ang_vel.z as int, ang);
}

/// The damping stage.
pub struct BodyDamping {
    pub linear_damping: i64,
    pub angular_damping: i64,
    /// The bodies this stage has been told about and not told to forget.
    pub objects: TrackedSet,
}

impl BodyDamping {
    pub open spec fn wf(self) -> bool {
        &&& 0 <= self.linear_damping <= SCALE
        &&& 0 <= self.angular_damping <= SCALE
        &&& self.objects.wf()
    }

    /// A fresh damping stage, registered on the activation channel under
    /// `key`. Coefficients are fixed-point factors in `[0, 1]`.
    pub fn new(events: &mut SignalEmitter, key: usize, linear_damping: i64, angular_damping: i64)
        -> (r: BodyDamping)
        requires
            old(events).handlers_wf(),
            0 <= linear_damping <= SCALE,
            0 <= angular_damping <= SCALE,
        ensures
            r.wf(),
            r.linear_damping == linear_damping,
            r.angular_damping == angular_damping,
            r.objects.ids@ =~= Seq::<usize>::empty(),
            final(events).handlers_wf(),
            final(events).handlers@.contains(key),
            final(events).handlers@ == if old(events).handlers@.contains(key) {
                old(events).handlers@
            } else {
                old(events).handlers@.push(key)
            },
            final(events).log == old(events).log,
            final(events).pending_activations == old(events).pending_activations,
    {
        events.add_body_activation_handler(key);
        BodyDamping { linear_damping, angular_damping, objects: TrackedSet::new() }
    }

    /// Starts damping a body.
    pub fn add(&mut self, id: usize)
        requires
            old(self).wf(),
        ensures
            final(self).wf(),
            final(self).objects.tracks(id),
            final(self).objects.ids@ == if old(self).objects.tracks(id) {
                old(self).objects.ids@
            } else {
                old(self).objects.ids@.push(id)
            },
            forall|k: usize| k != id ==> final(self).objects.tracks(k) == old(self).objects.tracks(k),
            final(self).linear_damping == old(self).linear_damping,
            final(self).angular_damping == old(self).angular_damping,
    {
        self.objects.insert(id);
    }

    /// Forgets a body.
    pub fn remove(&mut self, id: usize)
        requires
            old(self).wf(),
        ensures
            final(self).wf(),
            !final(self).objects.tracks(id),
            final(self).objects.ids@ == crate::tracked_set::ids_without(
                old(self).objects.ids@,
                id,
            ),
            forall|k: usize| k != id ==> final(self).objects.tracks(k) == old(self).objects.tracks(k),
            final(self).linear_damping == old(self).linear_damping,
            final(self).angular_damping == old(self).angular_damping,
    {
        self.objects.remove(id);
    }

    /// One damping pass: every tracked body's velocities are scaled by the
    /// coefficients; every other slot is untouched. The time step plays no
    /// role: damping is a per-step factor.
    pub fn update(&mut self, dt: i64, bodies: &mut Vec<Option<Body>>)
        requires
            old(self).wf(),
            bodies_wf(old(bodies)@),
            tracked_ok(old(self).objects.ids@, old(bodies)@),
        ensures
            *final(self) == *old(self),
            final(bodies)@.len() == old(bodies)@.len(),
            forall|i: int|
                0 <= i < old(bodies)@.len() ==> final(bodies)@[i] == damp_slot(
                    #[trigger] old(bodies)@[i],
                    old(self).objects.tracks(i as usize),
                    old(self).linear_damping as int,
                    old(self).angular_damping as int,
                ),
            bodies_wf(final(bodies)@),
    {
        let _ = dt;
        let ghost bodies0 = bodies@;
        let ghost ids = self.objects.ids@;
        let n = bodies.len();
        proof {
            assert(bodies0.len() == n as int);
            assert(bodies0.len() <= usize::MAX);
        }
        let mut k: usize = 0;
        while k < self.objects.ids.len()
            invariant
                0 <= k <= ids.len(),
                bodies0.len() <= usize::MAX,
                self == old(self),
                self.wf(),
                ids == self.objects.ids@,
                bodies_wf(bodies0),
                bodies_wf(bodies@),
                tracked_ok(ids, bodies0),
                bodies@.len() == bodies0.len(),
                forall|i: int|
                    0 <= i < bodies0.len() ==> bodies@[i] == damp_slot(
                        #[trigger] bodies0[i],
                        ids.take(k as int).contains(i as usize),
                        self.linear_damping as int,
                        self.angular_damping as int,
                    ),
            decreases ids.len() - k,
        {
            let id = self.objects.ids[k];
            proof {
                assert(ids[k as int] == id);
                assert(!ids.take(k as int).contains(id)) by {
                    if ids.take(k as int).contains(id) {
                        let w = choose|w: int|
                            0 <= w < k && ids.take(k as int)[w] == id;
                        assert(ids[w] == id);
                    }
                }
                assert(bodies@[id as int] == bodies0[id as int]);
            }
            match &bodies[id] {
                Some(Body::RB(rb)) => {
                    let damped = RigidBody {
                        lin_vel: rb.lin_vel.scale(self.linear_damping),
                        ang_vel: rb.ang_vel.scale(self.angular_damping),
                        ..*rb
                    };
                    proof {
                        lemma_damped_wf(
                            bodies0[id as int]->Some_0.rb(),
                            self.linear_damping as int,
                            self.angular_damping as int,
                        );
                    }
                    bodies.set(id, Some(Body::RB(damped)));
                },
                _ => {
                    proof {
                        assert(false);
                    }
                },
            }
            proof {
                lemma_take_push(ids, k as int);
                assert forall|i: int|
                    0 <= i < bodies0.len() implies bodies@[i] == damp_slot(
                    #[trigger] bodies0[i],
                    ids.take(k + 1).contains(i as usize),
                    self.linear_damping as int,
                    self.angular_damping as int,
                ) by {
                    if i != id as int {
                        assert(ids.take(k + 1).contains(i as usize) == ids.take(k as int).contains(
                            i as usize,
                        ));
                    }
                }
            }
            k += 1;
        }
        proof {
            assert(ids.take(ids.len() as int) =~= ids);
        }
    }

    /// The damping stage runs late in the integrator phase.
    pub fn priority(&self) -> (r: i64)
        ensures
            r == 100,
    {
        100
    }

    /// The activation fan-in: a woken body is damped again.
    pub fn handle_body_activated_signal(&mut self, id: usize)
        requires
            old(self).wf(),
        ensures
            final(self).wf(),
            final(self).objects.tracks(id),
            final(self).objects.ids@ == if old(self).objects.tracks(id) {
                old(self).objects.ids@
            } else {
                old(self).objects.ids@.push(id)
            },
            forall|k: usize| k != id ==> final(self).objects.tracks(k) == old(self).objects.tracks(k),
            final(self).linear_damping == old(self).linear_damping,
            final(self).angular_damping == old(self).angular_damping,
    {
        self.add(id)
    }

    /// The deactivation fan-in: a sleeping body is left alone.
    pub fn handle_body_deactivated_signal(&mut self, id: usize)
        requires
            old(self).wf(),
        ensures
            final(self).wf(),
            !final(self).objects.tracks(id),
            final(self).objects.ids@ == crate::tracked_set::ids_without(
                old(self).objects.ids@,
                id,
            ),
            forall|k: usize| k != id ==> final(self).objects.tracks(k) == old(self).objects.tracks(k),
            final(self).linear_damping == old(self).linear_damping,
            final(self).angular_damping == old(self).angular_damping,
    {
        self.remove(id)
    }
}

} // verus!
