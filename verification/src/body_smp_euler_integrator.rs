//! The semi-implicit Euler velocity integrator: each step it folds the
//! accumulated accelerations into the velocities of every body it tracks.
//! Positions are integrated by the world after the solver pass, from these
//! updated velocities, which is what makes the scheme semi-implicit.

use vstd::prelude::*;
use crate::bodies_bodies::bodies_wf;
use crate::body_damping::tracked_ok;
use crate::fx::{DT_LIMIT, VEL_LIMIT};
use crate::object::{Body, RigidBody};
use crate::signal::SignalEmitter;
use crate::tracked_set::{lemma_take_push, TrackedSet};

verus! {

/// A body after one velocity step: `v <- v + a * dt`, saturating at the
/// representable velocity range.
pub open spec fn integrated_rb(rb: RigidBody, dt: int) -> RigidBody {
    RigidBody {
        lin_vel: rb.lin_vel.add_clamped_sp(rb.lin_acc.scale_sp(dt), VEL_LIMIT as int),
        ang_vel: rb.ang_vel.add_clamped_sp(rb.ang_acc.scale_sp(dt), VEL_LIMIT as int),
        ..rb
    }
}

/// What one velocity pass does to a slot.
pub open spec fn integrate_slot(s: Option<Body>, watched: bool, dt: int) -> Option<Body> {
    if s is Some && s->Some_0 is RB && watched {
        Some(Body::RB(integrated_rb(s->Some_0.rb(), dt)))
    } else {
        s
    }
}

/// The velocity integrator stage.
pub struct BodySmpEulerIntegrator {
    pub objects: TrackedSet,
}

impl BodySmpEulerIntegrator {
    pub open spec fn wf(self) -> bool {
        self.objects.wf()
    }

    pub fn new(events: &mut SignalEmitter, key: usize) -> (r: BodySmpEulerIntegrator)
        requires
            old(events).handlers_wf(),
        ensures
            r.wf(),
            r.objects.ids@ =~= Seq::<usize>::empty(),
            final(events).handlers_wf(),
            final(events).handlers@.contains(key),
            final(events).log == old(events).log,
            final(events).pending_activations == old(events).pending_activations,
    {
        events.add_body_activation_handler(key);
        BodySmpEulerIntegrator { objects: TrackedSet::new() }
    }

    pub fn add(&mut self, id: usize)
        requires
            old(self).wf(),
        ensures
            final(self).wf(),
            final(self).objects.tracks(id),
            final(self).objects.ids@ == if old(self).objects.tracks(id) {
                old(self).objects.ids@
            } else {
                old(self).objects.ids@.push(id)
            },
            forall|k: usize| k != id ==> final(self).objects.tracks(k) == old(self).objects.tracks(k),
    {
        self.objects.insert(id);
    }

    pub fn remove(&mut self, id: usize)
        requires
            old(self).wf(),
        ensures
            final(self).wf(),
            !final(self).objects.tracks(id),
            final(self).objects.ids@ == crate::tracked_set::ids_without(
                old(self).objects.ids@,
                id,
            ),
            forall|k: usize| k != id ==> final(self).objects.tracks(k) == old(self).objects.tracks(k),
    {
        self.objects.remove(id);
    }

    /// One velocity pass over the tracked bodies.
    pub fn update(&mut self, dt: i64, bodies: &mut Vec<Option<Body>>)
        requires
            old(self).wf(),
            0 < dt <= DT_LIMIT,
            bodies_wf(old(bodies)@),
            tracked_ok(old(self).objects.ids@, old(bodies)@),
        ensures
            *final(self) == *old(self),
            final(bodies)@.len() == old(bodies)@.len(),
            forall|i: int|
                0 <= i < old(bodies)@.len() ==> final(bodies)@[i] == integrate_slot(
                    #[trigger] old(bodies)@[i],
                    old(self).objects.tracks(i as usize),
                    dt as int,
                ),
            bodies_wf(final(bodies)@),
    {
        let ghost bodies0 = bodies@;
        let ghost ids = self.objects.ids@;
        let n = bodies.len();
        proof {
            assert(bodies0.len() == n as int);
        }
        let mut k: usize = 0;
        while k < self.objects.ids.len()
            invariant
                0 <= k <= ids.len(),
                bodies0.len() <= usize::MAX,
                0 < dt <= DT_LIMIT,
                self == old(self),
                self.wf(),
                ids == self.objects.ids@,
                bodies_wf(bodies0),
                bodies_wf(bodies@),
                tracked_ok(ids, bodies0),
                bodies@.len() == bodies0.len(),
                forall|i: int|
                    0 <= i < bodies0.len() ==> bodies@[i] == integrate_slot(
                        #[trigger] bodies0[i],
                        ids.take(k as int).contains(i as usize),
                        dt as int,
                    ),
            decreases ids.len() - k,
        {
            let id = self.objects.ids[k];
            proof {
                assert(ids[k as int] == id);
                assert(!ids.take(k as int).contains(id)) by {
                    if ids.take(k as int).contains(id) {
                        let w = choose|w: int| 0 <= w < k && ids.take(k as int)[w] == id;
                        assert(ids[w] == id);
                    }
                }
                assert(bodies@[id as int] == bodies0[id as int]);
            }
            match &bodies[id] {
                Some(Body::RB(rb)) => {
                    proof {
                        crate::vect::lemma_scale_sp_bounded(
                            rb.lin_acc,
                            dt as int,
                            VEL_LIMIT as int,
                            DT_LIMIT as int,
                        );
                        crate::vect::lemma_scale_sp_bounded(
                            rb.ang_acc,
                            dt as int,
                            VEL_LIMIT as int,
                            DT_LIMIT as int,
                        );
                    }
                    let stepped = RigidBody {
                        lin_vel: rb.lin_vel.add_clamped(rb.lin_acc.scale(dt), VEL_LIMIT),
                        ang_vel: rb.ang_vel.add_clamped(rb.ang_acc.scale(dt), VEL_LIMIT),
                        ..*rb
                    };
                    bodies.set(id, Some(Body::RB(stepped)));
                },
                _ => {
                    proof {
                        assert(false);
                    }
                },
            }
            proof {
                lemma_take_push(ids, k as int);
                assert forall|i: int|
                    0 <= i < bodies0.len() implies bodies@[i] == integrate_slot(
                    #[trigger] bodies0[i],
                    ids.take(k + 1).contains(i as usize),
                    dt as int,
                ) by {
                    if i != id as int {
                        assert(ids.take(k + 1).contains(i as usize) == ids.take(k as int).contains(
                            i as usize,
                        ));
                    }
                }
            }
            k += 1;
        }
        proof {
            assert(ids.take(ids.len() as int) =~= ids);
        }
    }

    /// Velocity integration runs after the force generator.
    pub fn priority(&self) -> (r: i64)
        ensures
            r == 20,
    {
        20
    }

    pub fn handle_body_activated_signal(&mut self, id: usize)
        requires
            old(self).wf(),
        ensures
            final(self).wf(),
            final(self).objects.tracks(id),
            final(self).objects.ids@ == if old(self).objects.tracks(id) {
                old(self).objects.ids@
            } else {
                old(self).objects.ids@.push(id)
            },
            forall|k: usize| k != id ==> final(self).objects.tracks(k) == old(self).objects.tracks(k),
    {
        self.add(id)
    }

    pub fn handle_body_deactivated_signal(&mut self, id: usize)
        requires
            old(self).wf(),
        ensures
            final(self).wf(),
            !final(self).objects.tracks(id),
            final(self).objects.ids@ == crate::tracked_set::ids_without(
                old(self).objects.ids@,
                id,
            ),
            forall|k: usize| k != id ==> final(self).objects.tracks(k) == old(self).objects.tracks(k),
    {
        self.remove(id)
    }
}

} // verus!
