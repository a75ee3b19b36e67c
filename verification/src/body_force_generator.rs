//! The force generator: before velocity integration it writes the external
//! accelerations (gravity plus user acceleration) into every body it tracks.

use vstd::prelude::*;
use crate::bodies_bodies::bodies_wf;
use crate::body_damping::tracked_ok;
use crate::fx::VEL_LIMIT;
use crate::object::{Body, RigidBody};
use crate::signal::SignalEmitter;
use crate::tracked_set::{lemma_take_push, TrackedSet};
use crate::vect::Vect;

verus! {

/// A body loaded with the stage's accelerations.
pub open spec fn forced_rb(rb: RigidBody, lin: Vect, ang: Vect) -> RigidBody {
    RigidBody { lin_acc: lin, ang_acc: ang, ..rb }
}

/// What one pass does to a slot: a tracked rigid body gets the
/// accelerations, everything else is untouched.
pub open spec fn force_slot(s: Option<Body>, watched: bool, lin: Vect, ang: Vect) -> Option<Body> {
    if s is Some && s->Some_0 is RB && watched {
        Some(Body::RB(forced_rb(s->Some_0.rb(), lin, ang)))
    } else {
        s
    }
}

/// The force generator stage.
pub struct BodyForceGenerator {
    /// Linear acceleration applied to every tracked body: gravity.
    pub lin_acc: Vect,
    /// Angular acceleration applied to every tracked body.
    pub ang_acc: Vect,
    pub objects: TrackedSet,
}

impl BodyForceGenerator {
    pub open spec fn wf(self) -> bool {
        &&& self.lin_acc.bounded(VEL_LIMIT as int)
        &&& self.ang_acc.bounded(VEL_LIMIT as int)
        &&& self.objects.wf()
    }

    pub fn new(events: &mut SignalEmitter, key: usize, lin_acc: Vect, ang_acc: Vect) -> (r:
        BodyForceGenerator)
        requires
            old(events).handlers_wf(),
            lin_acc.bounded(VEL_LIMIT as int),
            ang_acc.bounded(VEL_LIMIT as int),
        ensures
            r.wf(),
            r.lin_acc == lin_acc,
            r.ang_acc == ang_acc,
            r.objects.ids@ =~= Seq::<usize>::empty(),
            final(events).handlers_wf(),
            final(events).handlers@.contains(key),
            final(events).log == old(events).log,
            final(events).pending_activations == old(events).pending_activations,
    {
        events.add_body_activation_handler(key);
        BodyForceGenerator { lin_acc, ang_acc, objects: TrackedSet::new() }
    }

    pub fn set_lin_acc(&mut self, lin_acc: Vect)
        requires
            old(self).wf(),
            lin_acc.bounded(VEL_LIMIT as int),
        ensures
            final(self).wf(),
            *final(self) == (BodyForceGenerator { lin_acc, ..*old(self) }),
    {
        self.lin_acc = lin_acc;
    }

    pub fn add(&mut self, id: usize)
        requires
            old(self).wf(),
        ensures
            final(self).wf(),
            final(self).objects.tracks(id),
            final(self).objects.ids@ == if old(self).objects.tracks(id) {
                old(self).objects.ids@
            } else {
                old(self).objects.ids@.push(id)
            },
            forall|k: usize| k != id ==> final(self).objects.tracks(k) == old(self).objects.tracks(k),
            final(self).lin_acc == old(self).lin_acc,
            final(self).ang_acc == old(self).ang_acc,
    {
        self.objects.insert(id);
    }

    pub fn remove(&mut self, id: usize)
        requires
            old(self).wf(),
        ensures
            final(self).wf(),
            !final(self).objects.tracks(id),
            final(self).objects.ids@ == crate::tracked_set::ids_without(
                old(self).objects.ids@,
                id,
            ),
            forall|k: usize| k != id ==> final(self).objects.tracks(k) == old(self).objects.tracks(k),
            final(self).lin_acc == old(self).lin_acc,
            final(self).ang_acc == old(self).ang_acc,
    {
        self.objects.remove(id);
    }

    /// One pass: every tracked body receives the stage's accelerations.
    pub fn update(&mut self, dt: i64, bodies: &mut Vec<Option<Body>>)
        requires
            old(self).wf(),
            bodies_wf(old(bodies)@),
            tracked_ok(old(self).objects.ids@, old(bodies)@),
        ensures
            *final(self) == *old(self),
            final(bodies)@.len() == old(bodies)@.len(),
            forall|i: int|
                0 <= i < old(bodies)@.len() ==> final(bodies)@[i] == force_slot(
                    #[trigger] old(bodies)@[i],
                    old(self).objects.tracks(i as usize),
                    old(self).lin_acc,
                    old(self).ang_acc,
                ),
            bodies_wf(final(bodies)@),
    {
        let _ = dt;
        let ghost bodies0 = bodies@;
        let ghost ids = self.objects.ids@;
        let n = bodies.len();
        proof {
            assert(bodies0.len() == n as int);
        }
        let mut k: usize = 0;
        while k < self.objects.ids.len()
            invariant
                0 <= k <= ids.len(),
                bodies0.len() <= usize::MAX,
                self == old(self),
                self.wf(),
                ids == self.objects.ids@,
                bodies_wf(bodies0),
                bodies_wf(bodies@),
                tracked_ok(ids, bodies0),
                bodies@.len() == bodies0.len(),
                forall|i: int|
                    0 <= i < bodies0.len() ==> bodies@[i] == force_slot(
                        #[trigger] bodies0[i],
                        ids.take(k as int).contains(i as usize),
                        self.lin_acc,
                        self.ang_acc,
                    ),
            decreases ids.len() - k,
        {
            let id = self.objects.ids[k];
            proof {
                assert(ids[k as int] == id);
                assert(!ids.take(k as int).contains(id)) by {
                    if ids.take(k as int).contains(id) {
                        let w = choose|w: int| 0 <= w < k && ids.take(k as int)[w] == id;
                        assert(ids[w] == id);
                    }
                }
                assert(bodies@[id as int] == bodies0[id as int]);
            }
            match &bodies[id] {
                Some(Body::RB(rb)) => {
                    let loaded = RigidBody { lin_acc: self.lin_acc, ang_acc: self.ang_acc, ..*rb };
                    bodies.set(id, Some(Body::RB(loaded)));
                },
                _ => {
                    proof {
                        assert(false);
                    }
                },
            }
            proof {
                lemma_take_push(ids, k as int);
                assert forall|i: int|
                    0 <= i < bodies0.len() implies bodies@[i] == force_slot(
                    #[trigger] bodies0[i],
                    ids.take(k + 1).contains(i as usize),
                    self.lin_acc,
                    self.ang_acc,
                ) by {
                    if i != id as int {
                        assert(ids.take(k + 1).contains(i as usize) == ids.take(k as int).contains(
                            i as usize,
                        ));
                    }
                }
            }
            k += 1;
        }
        proof {
            assert(ids.take(ids.len() as int) =~= ids);
        }
    }

    /// Forces load first, before any velocity update.
    pub fn priority(&self) -> (r: i64)
        ensures
            r == 10,
    {
        10
    }

    pub fn handle_body_activated_signal(&mut self, id: usize)
        requires
            old(self).wf(),
        ensures
            final(self).wf(),
            final(self).objects.tracks(id),
            final(self).objects.ids@ == if old(self).objects.tracks(id) {
                old(self).objects.ids@
            } else {
                old(self).objects.ids@.push(id)
            },
            forall|k: usize| k != id ==> final(self).objects.tracks(k) == old(self).objects.tracks(k),
            final(self).lin_acc == old(self).lin_acc,
            final(self).ang_acc == old(self).ang_acc,
    {
        self.add(id)
    }

    pub fn handle_body_deactivated_signal(&mut self, id: usize)
        requires
            old(self).wf(),
        ensures
            final(self).wf(),
            !final(self).objects.tracks(id),
            final(self).objects.ids@ == crate::tracked_set::ids_without(
                old(self).objects.ids@,
                id,
            ),
            forall|k: usize| k != id ==> final(self).objects.tracks(k) == old(self).objects.tracks(k),
            final(self).lin_acc == old(self).lin_acc,
            final(self).ang_acc == old(self).ang_acc,
    {
        self.remove(id)
    }
}

} // verus!
