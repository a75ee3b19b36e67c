//! The world: owner of the body arena and the pipeline stages, and the
//! conductor of one simulation step.
//!
//! Bodies live in an arena indexed by handle; a removed body leaves a hole
//! that is never reused, so a stale handle can never reach another body.
//! Stages keep handle sets synchronized through the signal fan-out, and the
//! world's invariant ties everything together: every pair the broad phase
//! watches is valid, every valid pair is watched, every stage tracks exactly
//! the awake movable bodies, and the signal log tells each body's lifecycle
//! truthfully.

use vstd::prelude::*;
use crate::bodies_bodies::{
    active_at, bodies_wf, collision_events, contact_constraints, pair_activated, pair_updated,
    wake_list, BodiesBodies,
};
use crate::body_damping::{damp_slot, tracked_ok, BodyDamping};
use crate::body_force_generator::{force_slot, BodyForceGenerator};
use crate::body_smp_euler_integrator::{integrate_slot, BodySmpEulerIntegrator};
use crate::broad_phase::{
    body_of, has_pair, lemma_pairs_added_ok, lemma_pairs_without_ok, pair_ok, pairs_added,
    pairs_complete, pairs_wf, pairs_without, present,
};
use crate::constraint::Constraint;
use crate::fx::{DT_LIMIT, VEL_LIMIT};
use crate::joint::{joint_constraints, JointManager};
use crate::object::Body;
use crate::pairwise::{is_valid_sp, Dispatcher};
use crate::signal::{
    lemma_life_after_push, lemma_log_wf_push, life_after, log_wf, Event, LifeState, SignalEmitter,
};
use crate::swept_ball_motion_clamping::{ccd_step, SweptBallMotionClamping};
use crate::tracked_set::{lemma_take_push, TrackedSet};
use crate::vect::Vect;

verus! {

/// The lifecycle state the signal log owes a body in slot `id`.
pub open spec fn expected_life(bodies: Seq<Option<Body>>, id: usize) -> LifeState {
    if present(bodies, id as int) {
        if body_of(bodies, id as int).is_active_sp() {
            LifeState::Awake
        } else {
            LifeState::Asleep
        }
    } else {
        LifeState::Absent
    }
}

/// A stage's handle set holds exactly the awake movable rigid bodies.
pub open spec fn stage_sync(ids: Seq<usize>, bodies: Seq<Option<Body>>) -> bool {
    forall|id: usize|
        #[trigger] ids.contains(id) <==> (present(bodies, id as int) && body_of(
            bodies,
            id as int,
        ) is RB && body_of(bodies, id as int).rb().is_active_sp() && !body_of(
            bodies,
            id as int,
        ).rb().is_static())
}

/// A synchronized handle set satisfies what the stages require of the
/// handles they iterate.
pub proof fn lemma_stage_sync_ok(ids: Seq<usize>, bodies: Seq<Option<Body>>)
    requires
        stage_sync(ids, bodies),
    ensures
        tracked_ok(ids, bodies),
{
    assert forall|k: int| 0 <= k < ids.len() implies {
        let id = #[trigger] ids[k];
        &&& present(bodies, id as int)
        &&& body_of(bodies, id as int) is RB
        &&& body_of(bodies, id as int).rb().is_active_sp()
        &&& !body_of(bodies, id as int).rb().is_static()
    } by {
        assert(ids.contains(ids[k]));
    }
}

pub struct World {
    /// The body arena: slot = handle; a removed body leaves `None` forever.
    pub bodies: Vec<Option<Body>>,
    pub forces: BodyForceGenerator,
    pub integrator: BodySmpEulerIntegrator,
    pub damping: BodyDamping,
    pub ccd: SweptBallMotionClamping,
    pub narrow: BodiesBodies,
    pub joints: JointManager,
    pub signals: SignalEmitter,
    /// The constraints the last step handed to the solver, kept for
    /// inspection.
    pub constraints: Vec<Constraint>,
}

impl World {
    pub open spec fn wf(self) -> bool {
        &&& bodies_wf(self.bodies@)
        &&& pairs_wf(self.narrow.broad_phase.pairs@, self.bodies@)
        &&& pairs_complete(self.narrow.broad_phase.pairs@, self.bodies@)
        &&& self.narrow.update_bf
        &&& self.forces.wf()
        &&& self.integrator.wf()
        &&& self.damping.wf()
        &&& self.ccd.wf()
        &&& self.joints.wf(self.bodies@)
        &&& self.signals.handlers_wf()
        &&& self.signals.pending_activations@.len() == 0
        &&& stage_sync(self.forces.objects.ids@, self.bodies@)
        &&& stage_sync(self.integrator.objects.ids@, self.bodies@)
        &&& stage_sync(self.damping.objects.ids@, self.bodies@)
        &&& stage_sync(self.ccd.objects.ids@, self.bodies@)
        &&& log_wf(self.signals.log@)
        &&& forall|id: usize|
            #[trigger] life_after(self.signals.log@, id) == expected_life(self.bodies@, id)
    }

    /// An empty world under the given gravity, with the standard pipeline:
    /// force generator, semi-implicit Euler velocity integrator, damping,
    /// swept-ball motion clamping, the narrow phase over an exhaustive
    /// broad phase, and the joint stage.
    pub fn new(gravity: Vect, linear_damping: i64, angular_damping: i64) -> (r: World)
        requires
            gravity.bounded(VEL_LIMIT as int),
            0 <= linear_damping <= crate::fx::SCALE,
            0 <= angular_damping <= crate::fx::SCALE,
        ensures
            r.wf(),
            r.bodies@ =~= Seq::<Option<Body>>::empty(),
            r.signals.log@ =~= Seq::<Event>::empty(),
            r.forces.lin_acc == gravity,
            r.constraints@ =~= Seq::<Constraint>::empty(),
    {
        let mut signals = SignalEmitter::new();
        let forces = BodyForceGenerator::new(&mut signals, 1, gravity, Vect::zero());
        let integrator = BodySmpEulerIntegrator::new(&mut signals, 2);
        let damping = BodyDamping::new(&mut signals, 3, linear_damping, angular_damping);
        let ccd = SweptBallMotionClamping::new(&mut signals, 4);
        let narrow = BodiesBodies::new(&mut signals, 5, true);
        let joints = JointManager::new();
        let w = World {
            bodies: Vec::new(),
            forces,
            integrator,
            damping,
            ccd,
            narrow,
            joints,
            signals,
            constraints: Vec::new(),
        };
        proof {
            assert forall|id: usize|
                #[trigger] life_after(w.signals.log@, id) == expected_life(w.bodies@, id) by {
                assert(w.signals.log@.len() == 0);
            }
            assert forall|id: usize| #[trigger] crate::signal::log_wf_for(w.signals.log@, id) by {
                assert(w.signals.log@.len() == 0);
            }
        }
        w
    }

    /// Sets the gravity every dynamic body feels.
    pub fn set_gravity(&mut self, gravity: Vect)
        requires
            old(self).wf(),
            gravity.bounded(VEL_LIMIT as int),
        ensures
            final(self).wf(),
            *final(self) == (World { forces: final(self).forces, ..*old(self) }),
            final(self).forces.lin_acc == gravity,
    {
        self.forces.set_lin_acc(gravity);
    }

    /// Takes a body into the world: it gets the next handle, every stage
    /// learns of it, and `body_added` is emitted. The body arrives awake.
    pub fn add_body(&mut self, body: Body) -> (id: usize)
        requires
            old(self).wf(),
            body.wf(),
            body.is_active_sp(),
            old(self).bodies@.len() < 0x1000_0000,
        ensures
            final(self).wf(),
            id == old(self).bodies@.len(),
            final(self).bodies@ == old(self).bodies@.push(Some(body)),
            final(self).signals.log@ == old(self).signals.log@.push(Event::BodyAdded { id }),
            final(self).narrow.broad_phase.pairs@ == old(self).narrow.broad_phase.pairs@
                + pairs_added(final(self).bodies@, id, id as int),
    {
        let ghost bodies0 = self.bodies@;
        let id = self.bodies.len();
        self.bodies.push(Some(body));
        let ghost bodies1 = self.bodies@;
        proof {
            assert(bodies1 == bodies0.push(Some(body)));
            assert forall|i: int|
                0 <= i < bodies1.len() && bodies1[i] is Some && bodies1[i]->Some_0 is RB implies (
            #[trigger] bodies1[i])->Some_0.rb().wf() by {
                if i < bodies0.len() {
                    assert(bodies1[i] == bodies0[i]);
                }
            }
        }
        self.signals.emit(Event::BodyAdded { id });
        proof {
            lemma_log_wf_push(old(self).signals.log@, Event::BodyAdded { id });
            assert forall|x: usize|
                #[trigger] life_after(self.signals.log@, x) == expected_life(bodies1, x) by {
                lemma_life_after_push(old(self).signals.log@, Event::BodyAdded { id }, x);
                if x != id {
                    assert(expected_life(bodies1, x) == expected_life(bodies0, x));
                }
            }
        }
        let disp = Dispatcher::new();
        self.narrow.add(id, &self.bodies, &disp);
        let is_dynamic = match &body {
            Body::RB(rb) => rb.can_move(),
            Body::SB(_) => false,
        };
        if is_dynamic {
            self.forces.add(id);
            self.integrator.add(id);
            self.damping.add(id);
            self.ccd.add(id);
        }
        proof {
            let grow = body is RB && body.rb().is_active_sp() && !body.rb().is_static();
            assert(grow == is_dynamic);
            lemma_tracks_bridge(old(self).forces.objects, self.forces.objects, id, grow);
            lemma_tracks_bridge(old(self).integrator.objects, self.integrator.objects, id, grow);
            lemma_tracks_bridge(old(self).damping.objects, self.damping.objects, id, grow);
            lemma_tracks_bridge(old(self).ccd.objects, self.ccd.objects, id, grow);
            self.lemma_add_body_wf(*old(self), body, id);
        }
        id
    }

    /// The well-formedness bookkeeping behind `add_body`.
    proof fn lemma_add_body_wf(&self, pre: World, body: Body, id: usize)
        requires
            pre.wf(),
            body.wf(),
            body.is_active_sp(),
            id == pre.bodies@.len(),
            self.bodies@ == pre.bodies@.push(Some(body)),
            self.narrow.broad_phase.pairs@ == pre.narrow.broad_phase.pairs@ + pairs_added(
                self.bodies@,
                id,
                id as int,
            ),
            self.narrow.update_bf,
            self.forces.wf() && self.integrator.wf() && self.damping.wf() && self.ccd.wf(),
            self.joints == pre.joints,
            self.signals.handlers_wf(),
            self.signals.pending_activations@.len() == 0,
            log_wf(self.signals.log@),
            forall|x: usize|
                #[trigger] life_after(self.signals.log@, x) == expected_life(self.bodies@, x),
            bodies_wf(self.bodies@),
            forall|k: usize|
                #[trigger] self.forces.objects.ids@.contains(k) == (
                pre.forces.objects.ids@.contains(k) || (k == id && body is RB
                    && body.rb().is_active_sp() && !body.rb().is_static())),
            forall|k: usize|
                #[trigger] self.integrator.objects.ids@.contains(k) == (
                pre.integrator.objects.ids@.contains(k) || (k == id && body is RB
                    && body.rb().is_active_sp() && !body.rb().is_static())),
            forall|k: usize|
                #[trigger] self.damping.objects.ids@.contains(k) == (
                pre.damping.objects.ids@.contains(k) || (k == id && body is RB
                    && body.rb().is_active_sp() && !body.rb().is_static())),
            forall|k: usize|
                #[trigger] self.ccd.objects.ids@.contains(k) == (pre.ccd.objects.ids@.contains(k)
                    || (k == id && body is RB && body.rb().is_active_sp()
                    && !body.rb().is_static())),
        ensures
            self.wf(),
    {
        let bodies0 = pre.bodies@;
        let bodies1 = self.bodies@;
        let pairs0 = pre.narrow.broad_phase.pairs@;
        let added = pairs_added(bodies1, id, id as int);
        let pairs1 = self.narrow.broad_phase.pairs@;
        lemma_pairs_added_ok(bodies1, id, id as int);
        assert forall|i: int|
            0 <= i < bodies0.len() implies bodies1[i] == bodies0[i] by {}

        // Old pairs stay in good standing over the extended arena, and the
        // fresh pairs are in good standing by construction.
        assert forall|k: int| 0 <= k < pairs1.len() implies pair_ok(
            #[trigger] pairs1[k],
            bodies1,
        ) by {
            if k < pairs0.len() {
                assert(pairs1[k] == pairs0[k]);
                assert(pair_ok(pairs0[k], bodies0));
                assert(bodies1[pairs0[k].a as int] == bodies0[pairs0[k].a as int]);
                assert(bodies1[pairs0[k].b as int] == bodies0[pairs0[k].b as int]);
            } else {
                assert(pairs1[k] == added[k - pairs0.len()]);
            }
        }
        assert forall|k1: int, k2: int|
            0 <= k1 < k2 < pairs1.len() implies !(pairs1[k1].a == pairs1[k2].a && pairs1[k1].b
            == pairs1[k2].b) by {
            if k1 < pairs0.len() && k2 < pairs0.len() {
                assert(pairs1[k1] == pairs0[k1] && pairs1[k2] == pairs0[k2]);
            } else if k1 < pairs0.len() {
                assert(pairs1[k2] == added[k2 - pairs0.len()]);
                assert(pairs1[k2].b == id);
                assert(pair_ok(pairs0[k1], bodies0));
                assert((pairs0[k1].b as int) < bodies0.len());
            } else {
                assert(pairs1[k1] == added[k1 - pairs0.len()]);
                assert(pairs1[k2] == added[k2 - pairs0.len()]);
                assert((added[k1 - pairs0.len()].a as int) < (added[k2 - pairs0.len()].a as int));
            }
        }

        // Every valid pair is still watched: old pairs cover the old bodies,
        // the fresh pairs cover every partner of the new body.
        assert forall|i: int, j: int|
            0 <= i < j < bodies1.len() && present(bodies1, i) && present(bodies1, j)
                && is_valid_sp(
                i as usize,
                j as usize,
                #[trigger] body_of(bodies1, i),
                #[trigger] body_of(bodies1, j),
            ) implies has_pair(pairs1, i as usize, j as usize) by {
            if j < id as int {
                assert(body_of(bodies1, i) == body_of(bodies0, i));
                assert(body_of(bodies1, j) == body_of(bodies0, j));
                assert(has_pair(pairs0, i as usize, j as usize));
                let w = choose|w: int|
                    0 <= w < pairs0.len() && pairs0[w].a == i as usize && pairs0[w].b == j as usize;
                assert(pairs1[w] == pairs0[w]);
            } else {
                assert(j == id as int);
                assert(has_pair(added, i as usize, id));
                let w = choose|w: int|
                    0 <= w < added.len() && added[w].a == i as usize && added[w].b == id;
                assert(pairs1[pairs0.len() + w] == added[w]);
            }
        }

        // The joints still anchor to present bodies.
        assert forall|k: int|
            0 <= k < self.joints.ball_joints@.len() implies (
        #[trigger] self.joints.ball_joints@[k]).wf(bodies1) by {
            assert(self.joints.ball_joints@[k].wf(bodies0));
        }
        assert forall|k: int|
            0 <= k < self.joints.fixed_joints@.len() implies (
        #[trigger] self.joints.fixed_joints@[k]).wf(bodies1) by {
            assert(self.joints.fixed_joints@[k].wf(bodies0));
        }

        // Each stage set gained exactly the new handle, when it is movable.
        assert(stage_sync(self.forces.objects.ids@, bodies1)) by {
            lemma_sync_after_add(
                pre.forces.objects.ids@,
                self.forces.objects.ids@,
                bodies0,
                bodies1,
                body,
                id,
            );
        }
        assert(stage_sync(self.integrator.objects.ids@, bodies1)) by {
            lemma_sync_after_add(
                pre.integrator.objects.ids@,
                self.integrator.objects.ids@,
                bodies0,
                bodies1,
                body,
                id,
            );
        }
        assert(stage_sync(self.damping.objects.ids@, bodies1)) by {
            lemma_sync_after_add(
                pre.damping.objects.ids@,
                self.damping.objects.ids@,
                bodies0,
                bodies1,
                body,
                id,
            );
        }
        assert(stage_sync(self.ccd.objects.ids@, bodies1)) by {
            lemma_sync_after_add(
                pre.ccd.objects.ids@,
                self.ccd.objects.ids@,
                bodies0,
                bodies1,
                body,
                id,
            );
        }
    }
}

/// Slot shape: presence, rigidity, mobility and wakefulness agree. Every
/// phase of a step that only moves or rescales bodies preserves it.
pub open spec fn shape_eq(s0: Option<Body>, s1: Option<Body>) -> bool {
    &&& (s0 is Some <==> s1 is Some)
    &&& (s0 is Some ==> {
        &&& (s0->Some_0 is RB <==> s1->Some_0 is RB)
        &&& (s0->Some_0 is RB ==> {
            &&& s1->Some_0.rb().mobility == s0->Some_0.rb().mobility
            &&& s1->Some_0.rb().activation.active == s0->Some_0.rb().activation.active
        })
        &&& (!(s0->Some_0 is RB) ==> s1 == s0)
    })
}

pub open spec fn same_shape(b0: Seq<Option<Body>>, b1: Seq<Option<Body>>) -> bool {
    b0.len() == b1.len() && forall|i: int| 0 <= i < b0.len() ==> shape_eq(#[trigger] b0[i], b1[i])
}

/// A synchronized handle set stays synchronized across a shape-preserving
/// change of the arena.
pub proof fn lemma_sync_shape(ids: Seq<usize>, b0: Seq<Option<Body>>, b1: Seq<Option<Body>>)
    requires
        stage_sync(ids, b0),
        same_shape(b0, b1),
    ensures
        stage_sync(ids, b1),
{
    assert forall|k: usize| #[trigger] ids.contains(k) implies (present(b1, k as int) && body_of(
        b1,
        k as int,
    ) is RB && body_of(b1, k as int).rb().is_active_sp() && !body_of(b1, k as int).rb().is_static())
        by {
        assert(shape_eq(b0[k as int], b1[k as int]));
    }
    assert forall|k: usize|
        (present(b1, k as int) && body_of(b1, k as int) is RB && body_of(
            b1,
            k as int,
        ).rb().is_active_sp() && !body_of(b1, k as int).rb().is_static()) implies #[trigger]
        ids.contains(k) by {
        assert(shape_eq(b0[k as int], b1[k as int]));
    }
}

/// The whole world invariant survives a shape-preserving change of the
/// bodies when no other component moved.
pub proof fn lemma_wf_shape(pre: World, cur: World)
    requires
        pre.wf(),
        same_shape(pre.bodies@, cur.bodies@),
        bodies_wf(cur.bodies@),
        cur.narrow == pre.narrow,
        cur.joints == pre.joints,
        cur.signals == pre.signals,
        cur.forces.objects == pre.forces.objects,
        cur.forces.wf(),
        cur.integrator.objects == pre.integrator.objects,
        cur.integrator.wf(),
        cur.damping.objects == pre.damping.objects,
        cur.damping.wf(),
        cur.ccd.objects == pre.ccd.objects,
        cur.ccd.wf(),
    ensures
        cur.wf(),
{
    let b0 = pre.bodies@;
    let b1 = cur.bodies@;
    let pairs = cur.narrow.broad_phase.pairs@;
    assert forall|k: int| 0 <= k < pairs.len() implies pair_ok(#[trigger] pairs[k], b1) by {
        assert(pair_ok(pairs[k], b0));
        assert(shape_eq(b0[pairs[k].a as int], b1[pairs[k].a as int]));
        assert(shape_eq(b0[pairs[k].b as int], b1[pairs[k].b as int]));
    }
    assert forall|i: int, j: int|
        0 <= i < j < b1.len() && present(b1, i) && present(b1, j) && is_valid_sp(
            i as usize,
            j as usize,
            #[trigger] body_of(b1, i),
            #[trigger] body_of(b1, j),
        ) implies has_pair(pairs, i as usize, j as usize) by {
        assert(shape_eq(b0[i], b1[i]));
        assert(shape_eq(b0[j], b1[j]));
        assert(is_valid_sp(i as usize, j as usize, body_of(b0, i), body_of(b0, j)));
    }
    assert forall|k: int|
        0 <= k < cur.joints.ball_joints@.len() implies (#[trigger] cur.joints.ball_joints@[k]).wf(
        b1,
    ) by {
        assert(cur.joints.ball_joints@[k].wf(b0));
        match cur.joints.ball_joints@[k].anchor1.body {
            Some(a) => {
                assert(shape_eq(b0[a as int], b1[a as int]));
            },
            None => {},
        }
        match cur.joints.ball_joints@[k].anchor2.body {
            Some(a) => {
                assert(shape_eq(b0[a as int], b1[a as int]));
            },
            None => {},
        }
    }
    assert forall|k: int|
        0 <= k < cur.joints.fixed_joints@.len() implies (#[trigger] cur.joints.fixed_joints@[k]).wf(
        b1,
    ) by {
        assert(cur.joints.fixed_joints@[k].wf(b0));
        match cur.joints.fixed_joints@[k].anchor1.body {
            Some(a) => {
                assert(shape_eq(b0[a as int], b1[a as int]));
            },
            None => {},
        }
        match cur.joints.fixed_joints@[k].anchor2.body {
            Some(a) => {
                assert(shape_eq(b0[a as int], b1[a as int]));
            },
            None => {},
        }
    }
    lemma_sync_shape(cur.forces.objects.ids@, b0, b1);
    lemma_sync_shape(cur.integrator.objects.ids@, b0, b1);
    lemma_sync_shape(cur.damping.objects.ids@, b0, b1);
    lemma_sync_shape(cur.ccd.objects.ids@, b0, b1);
    assert forall|id: usize|
        #[trigger] life_after(cur.signals.log@, id) == expected_life(b1, id) by {
        assert(life_after(pre.signals.log@, id) == expected_life(b0, id));
        if (id as int) < b0.len() {
            assert(shape_eq(b0[id as int], b1[id as int]));
        }
    }
}

/// A log stays well-formed, and every body's lifecycle state stays put,
/// under a batch of collision announcements.
pub proof fn lemma_log_append_collisions(log: Seq<Event>, evs: Seq<Event>)
    requires
        log_wf(log),
        forall|j: int|
            0 <= j < evs.len() ==> (#[trigger] evs[j] is CollisionStarted || evs[j] is CollisionEnded),
    ensures
        log_wf(log + evs),
        forall|id: usize| #[trigger] life_after(log + evs, id) == life_after(log, id),
    decreases evs.len(),
{
    if evs.len() == 0 {
        assert(log + evs =~= log);
    } else {
        let most = evs.drop_last();
        let e = evs.last();
        lemma_log_append_collisions(log, most);
        assert(log + evs =~= (log + most).push(e));
        lemma_log_wf_push(log + most, e);
        assert forall|id: usize|
            #[trigger] life_after(log + evs, id) == life_after(log, id) by {
            lemma_life_after_push(log + most, e, id);
        }
    }
}

/// A narrow-phase pass announces collisions and nothing else.
pub proof fn lemma_collision_events_kinds(
    pairs: Seq<crate::broad_phase::Pair>,
    bodies: Seq<Option<Body>>,
    upto: int,
)
    ensures
        forall|j: int|
            0 <= j < collision_events(pairs, bodies, upto).len() ==> (#[trigger] collision_events(
                pairs,
                bodies,
                upto,
            )[j] is CollisionStarted || collision_events(pairs, bodies, upto)[j] is CollisionEnded),
    decreases upto,
{
    if upto > 0 {
        lemma_collision_events_kinds(pairs, bodies, upto - 1);
        let pre = collision_events(pairs, bodies, upto - 1);
        let res = collision_events(pairs, bodies, upto);
        assert forall|j: int|
            0 <= j < res.len() implies (#[trigger] res[j] is CollisionStarted
            || res[j] is CollisionEnded) by {
            if j < pre.len() {
                assert(res[j] == pre[j]);
            }
        }
    }
}

/// Pointwise-identical pair endpoints keep the table complete.
pub proof fn lemma_complete_same_pairs(
    p0: Seq<crate::broad_phase::Pair>,
    p1: Seq<crate::broad_phase::Pair>,
    bodies: Seq<Option<Body>>,
)
    requires
        pairs_complete(p0, bodies),
        p0.len() == p1.len(),
        forall|k: int| 0 <= k < p0.len() ==> (#[trigger] p1[k]).a == p0[k].a && p1[k].b == p0[k].b,
    ensures
        pairs_complete(p1, bodies),
{
    assert forall|i: int, j: int|
        0 <= i < j < bodies.len() && present(bodies, i) && present(bodies, j) && is_valid_sp(
            i as usize,
            j as usize,
            #[trigger] body_of(bodies, i),
            #[trigger] body_of(bodies, j),
        ) implies has_pair(p1, i as usize, j as usize) by {
        assert(has_pair(p0, i as usize, j as usize));
        let w = choose|w: int|
            0 <= w < p0.len() && p0[w].a == i as usize && p0[w].b == j as usize;
        assert(p1[w].a == i as usize && p1[w].b == j as usize);
    }
}

/// Appending to a log keeps every earlier prefix a prefix.
pub proof fn lemma_prefix_push(a: Seq<Event>, b: Seq<Event>, e: Event)
    requires
        a.is_prefix_of(b),
    ensures
        a.is_prefix_of(b.push(e)),
{
    assert(b.push(e).subrange(0, a.len() as int) =~= b.subrange(0, a.len() as int));
}

/// What a conditional insertion does to a handle set, spelled out as one
/// membership equation per handle.
proof fn lemma_tracks_bridge(s0: TrackedSet, s1: TrackedSet, id: usize, grow: bool)
    requires
        grow ==> s1.tracks(id) && forall|k: usize| k != id ==> s1.tracks(k) == s0.tracks(k),
        !grow ==> s1 == s0,
    ensures
        forall|k: usize|
            #[trigger] s1.ids@.contains(k) == (s0.ids@.contains(k) || (grow && k == id)),
{
    assert forall|k: usize|
        #[trigger] s1.ids@.contains(k) == (s0.ids@.contains(k) || (grow && k == id)) by {
        if grow {
            if k == id {
                assert(s1.tracks(id));
                if !s0.ids@.contains(id) {
                }
            } else {
                assert(s1.tracks(k) == s0.tracks(k));
            }
        }
    }
}

/// A stage set synchronized with the old arena, grown by the new handle
/// exactly when the new body is awake and movable, is synchronized with the
/// extended arena.
proof fn lemma_sync_after_add(
    ids0: Seq<usize>,
    ids1: Seq<usize>,
    bodies0: Seq<Option<Body>>,
    bodies1: Seq<Option<Body>>,
    body: Body,
    id: usize,
)
    requires
        stage_sync(ids0, bodies0),
        id == bodies0.len(),
        bodies1 == bodies0.push(Some(body)),
        forall|k: usize|
            ids1.contains(k) == (ids0.contains(k) || (k == id && body is RB
                && body.rb().is_active_sp() && !body.rb().is_static())),
    ensures
        stage_sync(ids1, bodies1),
{
    assert forall|k: usize| #[trigger] ids1.contains(k) implies (present(bodies1, k as int)
        && body_of(bodies1, k as int) is RB && body_of(bodies1, k as int).rb().is_active_sp()
        && !body_of(bodies1, k as int).rb().is_static()) by {
        if ids0.contains(k) {
            assert(bodies1[k as int] == bodies0[k as int]);
        } else {
            assert(k == id);
            assert(bodies1[id as int] == Some(body));
        }
    }
    assert forall|k: usize|
        (present(bodies1, k as int) && body_of(bodies1, k as int) is RB && body_of(
            bodies1,
            k as int,
        ).rb().is_active_sp() && !body_of(bodies1, k as int).rb().is_static()) implies #[trigger]
        ids1.contains(k) by {
        if (k as int) < bodies0.len() {
            assert(bodies1[k as int] == bodies0[k as int]);
            assert(ids0.contains(k));
        } else {
            assert(k == id);
        }
    }
}

/// A slot either kept its value or went from asleep to awake with its
/// activation energy refilled; nothing else moved.
pub open spec fn woken_only(s0: Option<Body>, s1: Option<Body>) -> bool {
    s1 == s0 || (s0 is Some && s0->Some_0 is RB && !s0->Some_0.rb().is_active_sp()
        && !s0->Some_0.rb().is_static() && s1 == Some(
        Body::RB(
            crate::object::RigidBody {
                activation: crate::object::ActivationState {
                    active: true,
                    energy: crate::object::ENERGY_LIMIT,
                    ..s0->Some_0.rb().activation
                },
                ..s0->Some_0.rb()
            },
        ),
    ))
}

/// The clamp never touches a slot whose handle no stage tracks.
pub proof fn lemma_ccd_untouched(
    bodies: Seq<Option<Body>>,
    ids: Seq<usize>,
    dt: int,
    k: int,
)
    requires
        0 <= k <= ids.len(),
    ensures
        ccd_step(bodies, ids, dt, k).len() == bodies.len(),
        forall|i: int|
            0 <= i < bodies.len() && !ids.contains(i as usize) ==> ccd_step(bodies, ids, dt, k)[i]
                == bodies[i],
    decreases k,
{
    if k > 0 {
        lemma_ccd_untouched(bodies, ids, dt, k - 1);
        assert(ids.contains(ids[k - 1])) by {
            assert(ids[k - 1] == ids[k - 1]);
        }
        assert forall|i: int|
            0 <= i < bodies.len() && !ids.contains(i as usize) implies ccd_step(
            bodies,
            ids,
            dt,
            k,
        )[i] == bodies[i] by {
            assert(ids[k - 1] != i as usize);
        }
    }
}

/// What a conditional removal does to a handle set.
proof fn lemma_tracks_bridge_rm(s0: TrackedSet, s1: TrackedSet, id: usize)
    requires
        !s1.tracks(id),
        forall|k: usize| k != id ==> s1.tracks(k) == s0.tracks(k),
    ensures
        forall|k: usize| #[trigger] s1.ids@.contains(k) == (s0.ids@.contains(k) && k != id),
{
    assert forall|k: usize|
        #[trigger] s1.ids@.contains(k) == (s0.ids@.contains(k) && k != id) by {
        if k == id {
            assert(!s1.tracks(id));
        } else {
            assert(s1.tracks(k) == s0.tracks(k));
        }
    }
}

/// The world invariant survives waking one sleeping movable body: the slot
/// flips to awake with its energy refilled, `body_activated` is logged, and
/// every stage starts tracking the handle.
proof fn lemma_wf_activate(pre: World, cur: World, id: usize)
    requires
        pre.wf(),
        id < pre.bodies@.len(),
        pre.bodies@[id as int] is Some,
        pre.bodies@[id as int]->Some_0 is RB,
        !pre.bodies@[id as int]->Some_0.rb().is_active_sp(),
        !pre.bodies@[id as int]->Some_0.rb().is_static(),
        cur.bodies@ == pre.bodies@.update(
            id as int,
            Some(
                Body::RB(
                    crate::object::RigidBody {
                        activation: crate::object::ActivationState {
                            active: true,
                            energy: crate::object::ENERGY_LIMIT,
                            ..pre.bodies@[id as int]->Some_0.rb().activation
                        },
                        ..pre.bodies@[id as int]->Some_0.rb()
                    },
                ),
            ),
        ),
        cur.signals.log@ == pre.signals.log@.push(Event::BodyActivated { id }),
        cur.signals.handlers == pre.signals.handlers,
        cur.signals.pending_activations == pre.signals.pending_activations,
        cur.narrow == pre.narrow,
        cur.joints == pre.joints,
        cur.forces.wf() && cur.integrator.wf() && cur.damping.wf() && cur.ccd.wf(),
        forall|k: usize|
            #[trigger] cur.forces.objects.ids@.contains(k) == (pre.forces.objects.ids@.contains(k)
                || k == id),
        forall|k: usize|
            #[trigger] cur.integrator.objects.ids@.contains(k) == (
            pre.integrator.objects.ids@.contains(k) || k == id),
        forall|k: usize|
            #[trigger] cur.damping.objects.ids@.contains(k) == (pre.damping.objects.ids@.contains(
                k,
            ) || k == id),
        forall|k: usize|
            #[trigger] cur.ccd.objects.ids@.contains(k) == (pre.ccd.objects.ids@.contains(k) || k
                == id),
    ensures
        cur.wf(),
{
    let b0 = pre.bodies@;
    let b1 = cur.bodies@;
    let pairs = cur.narrow.broad_phase.pairs@;
    assert(b1[id as int]->Some_0.rb().wf());
    assert forall|i: int|
        0 <= i < b1.len() && b1[i] is Some && b1[i]->Some_0 is RB implies (
    #[trigger] b1[i])->Some_0.rb().wf() by {
        if i != id as int {
            assert(b1[i] == b0[i]);
        }
    }
    assert forall|k: int| 0 <= k < pairs.len() implies pair_ok(#[trigger] pairs[k], b1) by {
        assert(pair_ok(pairs[k], b0));
        if pairs[k].a != id && pairs[k].b != id {
            assert(b1[pairs[k].a as int] == b0[pairs[k].a as int]);
            assert(b1[pairs[k].b as int] == b0[pairs[k].b as int]);
        }
    }
    assert forall|i: int, j: int|
        0 <= i < j < b1.len() && present(b1, i) && present(b1, j) && is_valid_sp(
            i as usize,
            j as usize,
            #[trigger] body_of(b1, i),
            #[trigger] body_of(b1, j),
        ) implies has_pair(pairs, i as usize, j as usize) by {
        assert(is_valid_sp(i as usize, j as usize, body_of(b0, i), body_of(b0, j)));
    }
    assert forall|k: int|
        0 <= k < cur.joints.ball_joints@.len() implies (#[trigger] cur.joints.ball_joints@[k]).wf(
        b1,
    ) by {
        assert(cur.joints.ball_joints@[k].wf(b0));
    }
    assert forall|k: int|
        0 <= k < cur.joints.fixed_joints@.len() implies (#[trigger] cur.joints.fixed_joints@[k]).wf(
        b1,
    ) by {
        assert(cur.joints.fixed_joints@[k].wf(b0));
    }
    lemma_sync_activate(pre.forces.objects.ids@, cur.forces.objects.ids@, b0, b1, id);
    lemma_sync_activate(pre.integrator.objects.ids@, cur.integrator.objects.ids@, b0, b1, id);
    lemma_sync_activate(pre.damping.objects.ids@, cur.damping.objects.ids@, b0, b1, id);
    lemma_sync_activate(pre.ccd.objects.ids@, cur.ccd.objects.ids@, b0, b1, id);
    assert(life_after(pre.signals.log@, id) == LifeState::Asleep);
    lemma_log_wf_push(pre.signals.log@, Event::BodyActivated { id });
    assert forall|x: usize|
        #[trigger] life_after(cur.signals.log@, x) == expected_life(b1, x) by {
        lemma_life_after_push(pre.signals.log@, Event::BodyActivated { id }, x);
        if x != id {
            if (x as int) < b0.len() {
                assert(b1[x as int] == b0[x as int]);
            }
        }
    }
}

/// A handle set synchronized before an activation, grown by the new awake
/// handle, is synchronized after it.
proof fn lemma_sync_activate(
    ids0: Seq<usize>,
    ids1: Seq<usize>,
    b0: Seq<Option<Body>>,
    b1: Seq<Option<Body>>,
    id: usize,
)
    requires
        stage_sync(ids0, b0),
        id < b0.len(),
        b1.len() == b0.len(),
        forall|i: int| 0 <= i < b0.len() && i != id ==> b1[i] == b0[i],
        present(b1, id as int),
        body_of(b1, id as int) is RB,
        body_of(b1, id as int).rb().is_active_sp(),
        !body_of(b1, id as int).rb().is_static(),
        forall|k: usize| #[trigger] ids1.contains(k) == (ids0.contains(k) || k == id),
    ensures
        stage_sync(ids1, b1),
{
    assert forall|k: usize| #[trigger] ids1.contains(k) implies (present(b1, k as int) && body_of(
        b1,
        k as int,
    ) is RB && body_of(b1, k as int).rb().is_active_sp() && !body_of(b1, k as int).rb().is_static())
        by {
        if k != id {
            assert(ids0.contains(k));
            assert(b1[k as int] == b0[k as int]);
        }
    }
    assert forall|k: usize|
        (present(b1, k as int) && body_of(b1, k as int) is RB && body_of(
            b1,
            k as int,
        ).rb().is_active_sp() && !body_of(b1, k as int).rb().is_static()) implies #[trigger]
        ids1.contains(k) by {
        if k != id {
            assert(b1[k as int] == b0[k as int]);
            assert(ids0.contains(k));
        }
    }
}

/// A handle set synchronized before a deactivation, shrunk by the handle
/// falling asleep, is synchronized after it.
proof fn lemma_sync_deactivate(
    ids0: Seq<usize>,
    ids1: Seq<usize>,
    b0: Seq<Option<Body>>,
    b1: Seq<Option<Body>>,
    id: usize,
)
    requires
        stage_sync(ids0, b0),
        id < b0.len(),
        b1.len() == b0.len(),
        forall|i: int| 0 <= i < b0.len() && i != id ==> b1[i] == b0[i],
        present(b1, id as int),
        body_of(b1, id as int) is RB,
        !body_of(b1, id as int).rb().is_active_sp(),
        forall|k: usize| #[trigger] ids1.contains(k) == (ids0.contains(k) && k != id),
    ensures
        stage_sync(ids1, b1),
{
    assert forall|k: usize| #[trigger] ids1.contains(k) implies (present(b1, k as int) && body_of(
        b1,
        k as int,
    ) is RB && body_of(b1, k as int).rb().is_active_sp() && !body_of(b1, k as int).rb().is_static())
        by {
        assert(ids0.contains(k));
        assert(b1[k as int] == b0[k as int]);
    }
    assert forall|k: usize|
        (present(b1, k as int) && body_of(b1, k as int) is RB && body_of(
            b1,
            k as int,
        ).rb().is_active_sp() && !body_of(b1, k as int).rb().is_static()) implies #[trigger]
        ids1.contains(k) by {
        if k != id {
            assert(b1[k as int] == b0[k as int]);
            assert(ids0.contains(k));
        }
    }
}

/// One position-integration step of a slot: an awake movable body advances
/// by its velocities, saturating at the world range; every other slot keeps
/// its value.
pub open spec fn move_slot(s: Option<Body>, dt: int) -> Option<Body> {
    if s is Some && s->Some_0 is RB && s->Some_0.rb().is_active_sp()
        && !s->Some_0.rb().is_static() {
        let rb = s->Some_0.rb();
        Some(
            Body::RB(
                crate::object::RigidBody {
                    position: rb.position.add_clamped_sp(
                        rb.lin_vel.scale_sp(dt),
                        crate::fx::POS_LIMIT as int,
                    ),
                    orientation: rb.orientation.add_clamped_sp(
                        rb.ang_vel.scale_sp(dt),
                        crate::fx::POS_LIMIT as int,
                    ),
                    ..rb
                },
            ),
        )
    } else {
        s
    }
}

/// Whether the sleeping evaluator examines a slot at all.
pub open spec fn sleep_candidate(s: Option<Body>) -> bool {
    s is Some && s->Some_0 is RB && s->Some_0.rb().is_active_sp()
        && !s->Some_0.rb().is_static() && s->Some_0.rb().activation.can_deactivate
}

/// The refreshed kinetic-energy average: three parts old, one part current.
pub open spec fn averaged_energy(rb: crate::object::RigidBody) -> int {
    crate::fx::div_tz(3 * rb.activation.energy + rb.kinetic_sp(), 4)
}

/// A candidate falls asleep when its refreshed average drops under its
/// threshold.
pub open spec fn falls_asleep(s: Option<Body>) -> bool {
    sleep_candidate(s) && averaged_energy(s->Some_0.rb()) < s->Some_0.rb().activation.threshold
}

/// What the sleeping evaluator does to a slot: refresh the average, and put
/// a quiescent candidate to sleep with zeroed velocities.
pub open spec fn sleep_slot(s: Option<Body>) -> Option<Body> {
    if sleep_candidate(s) {
        let rb = s->Some_0.rb();
        let e = averaged_energy(rb) as i64;
        if falls_asleep(s) {
            Some(
                Body::RB(
                    crate::object::RigidBody {
                        lin_vel: crate::vect::Vect { x: 0, y: 0, z: 0 },
                        ang_vel: crate::vect::Vect { x: 0, y: 0, z: 0 },
                        activation: crate::object::ActivationState {
                            active: false,
                            energy: e,
                            ..rb.activation
                        },
                        ..rb
                    },
                ),
            )
        } else {
            Some(
                Body::RB(
                    crate::object::RigidBody {
                        activation: crate::object::ActivationState { energy: e, ..rb.activation },
                        ..rb
                    },
                ),
            )
        }
    } else {
        s
    }
}

/// The deactivation signals one sleeping pass emits, in slot order.
pub open spec fn sleep_events(bodies: Seq<Option<Body>>, upto: int) -> Seq<Event>
    decreases upto,
{
    if upto <= 0 {
        Seq::empty()
    } else {
        let pre = sleep_events(bodies, upto - 1);
        if falls_asleep(bodies[upto - 1]) {
            pre.push(Event::BodyDeactivated { id: (upto - 1) as usize })
        } else {
            pre
        }
    }
}

/// A stage's handle set after the sleeping pass dropped every handle that
/// fell asleep, in slot order.
pub open spec fn purged_ids(ids: Seq<usize>, bodies: Seq<Option<Body>>, upto: int) -> Seq<usize>
    decreases upto,
{
    if upto <= 0 {
        ids
    } else {
        let pre = purged_ids(ids, bodies, upto - 1);
        if falls_asleep(bodies[upto - 1]) {
            crate::tracked_set::ids_without(pre, (upto - 1) as usize)
        } else {
            pre
        }
    }
}

/// Whether one logged event names `i` as the sleeping side of a fresh
/// contact whose other side is awake.
pub open spec fn nominating(e: Event, bodies: Seq<Option<Body>>, i: usize) -> bool {
    match e {
        Event::CollisionStarted { a, b } => (a == i && b != i && active_at(bodies, b as int)) || (
        b == i && a != i && active_at(bodies, a as int)),
        _ => false,
    }
}

/// Body `i` gains a contact with an awake partner somewhere in
/// `log[lo..hi]`.
pub open spec fn contact_nominated(
    bodies: Seq<Option<Body>>,
    log: Seq<Event>,
    lo: int,
    hi: int,
    i: usize,
) -> bool {
    exists|e: int| lo <= e < hi && nominating(#[trigger] log[e], bodies, i)
}

/// The sleeping movable bodies the activation fan-out wakes, in slot order.
pub open spec fn contact_wake_list(
    bodies: Seq<Option<Body>>,
    log: Seq<Event>,
    lo: int,
    hi: int,
    upto: int,
) -> Seq<usize>
    decreases upto,
{
    if upto <= 0 {
        Seq::empty()
    } else {
        let pre = contact_wake_list(bodies, log, lo, hi, upto - 1);
        let j = (upto - 1) as usize;
        if present(bodies, upto - 1) && body_of(bodies, upto - 1) is RB && !body_of(
            bodies,
            upto - 1,
        ).rb().is_active_sp() && !body_of(bodies, upto - 1).rb().is_static() && contact_nominated(
            bodies,
            log,
            lo,
            hi,
            j,
        ) {
            pre.push(j)
        } else {
            pre
        }
    }
}

/// A slot after the activation fan-out: a woken body turns awake with its
/// energy refilled.
pub open spec fn wake_slot(s: Option<Body>, woken: bool) -> Option<Body> {
    if woken && s is Some && s->Some_0 is RB {
        Some(
            Body::RB(
                crate::object::RigidBody {
                    activation: crate::object::ActivationState {
                        active: true,
                        energy: crate::object::ENERGY_LIMIT,
                        ..s->Some_0.rb().activation
                    },
                    ..s->Some_0.rb()
                },
            ),
        )
    } else {
        s
    }
}

/// The fan-out's wake list is strictly ascending, and a handle stands on it
/// exactly when its slot is a nominated sleeping movable body.
pub proof fn lemma_wake_list_ok(
    bodies: Seq<Option<Body>>,
    log: Seq<Event>,
    lo: int,
    hi: int,
    upto: int,
)
    requires
        0 <= upto <= bodies.len(),
        bodies.len() <= usize::MAX,
    ensures
        forall|k1: int, k2: int|
            0 <= k1 < k2 < contact_wake_list(bodies, log, lo, hi, upto).len()
                ==> (contact_wake_list(bodies, log, lo, hi, upto)[k1] as int) < (contact_wake_list(
                bodies,
                log,
                lo,
                hi,
                upto,
            )[k2] as int),
        forall|j: usize|
            #[trigger] contact_wake_list(bodies, log, lo, hi, upto).contains(j) <==> ((j as int)
                < upto && present(bodies, j as int) && body_of(bodies, j as int) is RB && !body_of(
                bodies,
                j as int,
            ).rb().is_active_sp() && !body_of(bodies, j as int).rb().is_static()
                && contact_nominated(bodies, log, lo, hi, j)),
    decreases upto,
{
    if upto > 0 {
        lemma_wake_list_ok(bodies, log, lo, hi, upto - 1);
        let pre = contact_wake_list(bodies, log, lo, hi, upto - 1);
        let res = contact_wake_list(bodies, log, lo, hi, upto);
        assert forall|k: int| 0 <= k < pre.len() implies (pre[k] as int) < upto - 1 by {
            assert(pre.contains(pre[k]));
        }
        if res.len() > pre.len() {
            assert forall|k1: int, k2: int|
                0 <= k1 < k2 < res.len() implies (res[k1] as int) < (res[k2] as int) by {
                if k2 < pre.len() {
                    assert(res[k1] == pre[k1] && res[k2] == pre[k2]);
                } else {
                    assert(res[k2] == (upto - 1) as usize);
                    assert(res[k1] == pre[k1]);
                }
            }
        }
        assert forall|j: usize|
            #[trigger] res.contains(j) implies ((j as int) < upto && present(bodies, j as int)
            && body_of(bodies, j as int) is RB && !body_of(bodies, j as int).rb().is_active_sp()
            && !body_of(bodies, j as int).rb().is_static() && contact_nominated(
            bodies,
            log,
            lo,
            hi,
            j,
        )) by {
            let w = choose|w: int| 0 <= w < res.len() && res[w] == j;
            if w < pre.len() {
                assert(pre.contains(j));
            }
        }
        assert forall|j: usize|
            ((j as int) < upto && present(bodies, j as int) && body_of(bodies, j as int) is RB
                && !body_of(bodies, j as int).rb().is_active_sp() && !body_of(
                bodies,
                j as int,
            ).rb().is_static() && contact_nominated(bodies, log, lo, hi, j)) implies #[trigger]
            res.contains(j) by {
            if (j as int) < upto - 1 {
                assert(pre.contains(j));
                let w = choose|w: int| 0 <= w < pre.len() && pre[w] == j;
                assert(res[w] == j);
            } else {
                assert(res[res.len() - 1] == j);
            }
        }
    }
}

/// The bodies after the integrator phase: accelerations loaded, velocities
/// integrated, damped, and swept-motion clamped.
pub open spec fn phase1_bodies(w: World, dt: int) -> Seq<Option<Body>> {
    let b0 = w.bodies@;
    let b1 = Seq::new(
        b0.len(),
        |i: int|
            force_slot(
                b0[i],
                w.forces.objects.ids@.contains(i as usize),
                w.forces.lin_acc,
                w.forces.ang_acc,
            ),
    );
    let b2 = Seq::new(
        b1.len(),
        |i: int| integrate_slot(b1[i], w.integrator.objects.ids@.contains(i as usize), dt),
    );
    let b3 = Seq::new(
        b2.len(),
        |i: int|
            damp_slot(
                b2[i],
                w.damping.objects.ids@.contains(i as usize),
                w.damping.linear_damping as int,
                w.damping.angular_damping as int,
            ),
    );
    ccd_step(b3, w.ccd.objects.ids@, dt, w.ccd.objects.ids@.len() as int)
}

/// The pair table after one step: every pair refreshed from the
/// post-integration poses.
pub open spec fn step_pairs(w: World, dt: int) -> Seq<crate::broad_phase::Pair> {
    Seq::new(
        w.narrow.broad_phase.pairs@.len(),
        |k: int| pair_updated(w.narrow.broad_phase.pairs@[k], phase1_bodies(w, dt)),
    )
}

/// The log up to and including the detection pass's collision signals.
pub open spec fn step_collision_log(w: World, dt: int) -> Seq<Event> {
    w.signals.log@ + collision_events(
        w.narrow.broad_phase.pairs@,
        phase1_bodies(w, dt),
        w.narrow.broad_phase.pairs@.len() as int,
    )
}

/// The bodies one step wakes: sleeping movable bodies that gained a contact
/// with an awake partner, in slot order.
pub open spec fn step_wake_list(w: World, dt: int) -> Seq<usize> {
    contact_wake_list(
        phase1_bodies(w, dt),
        step_collision_log(w, dt),
        w.signals.log@.len() as int,
        step_collision_log(w, dt).len() as int,
        w.bodies@.len() as int,
    )
}

/// The bodies after the activation fan-out.
pub open spec fn step_bodies_awake(w: World, dt: int) -> Seq<Option<Body>> {
    let b = phase1_bodies(w, dt);
    Seq::new(b.len(), |i: int| wake_slot(b[i], step_wake_list(w, dt).contains(i as usize)))
}

/// The bodies after position integration.
pub open spec fn step_bodies_moved(w: World, dt: int) -> Seq<Option<Body>> {
    let b = step_bodies_awake(w, dt);
    Seq::new(b.len(), |i: int| move_slot(b[i], dt))
}

/// The bodies at the end of one step.
pub open spec fn step_bodies(w: World, dt: int) -> Seq<Option<Body>> {
    let b = step_bodies_moved(w, dt);
    Seq::new(b.len(), |i: int| sleep_slot(b[i]))
}

/// The whole log at the end of one step: the old log, the collision
/// signals, the activations, and the deactivations, in emission order.
pub open spec fn step_log(w: World, dt: int) -> Seq<Event> {
    step_collision_log(w, dt) + step_wake_list(w, dt).map(
        |k: int, id: usize| Event::BodyActivated { id },
    ) + sleep_events(step_bodies_moved(w, dt), w.bodies@.len() as int)
}

/// The constraints one step hands to the external solver: contact
/// constraints from the refreshed pairs, then the joint constraints.
pub open spec fn step_constraints(w: World, dt: int) -> Seq<Constraint> {
    contact_constraints(
        step_pairs(w, dt),
        step_bodies_awake(w, dt),
        w.narrow.broad_phase.pairs@.len() as int,
    ) + joint_constraints(w.joints.ball_joints@, w.joints.fixed_joints@)
}

/// One stage's handle set at the end of a step: grown by the woken handles,
/// then purged of the handles that fell asleep.
pub open spec fn step_stage_ids(ids: Seq<usize>, w: World, dt: int) -> Seq<usize> {
    purged_ids(ids + step_wake_list(w, dt), step_bodies_moved(w, dt), w.bodies@.len() as int)
}

/// The bodies the detection phase's activation fan-out wakes, seen from
/// the state at the phase's entry.
pub open spec fn detect_wake_list(w: World) -> Seq<usize> {
    let evlog = w.signals.log@ + collision_events(
        w.narrow.broad_phase.pairs@,
        w.bodies@,
        w.narrow.broad_phase.pairs@.len() as int,
    );
    contact_wake_list(
        w.bodies@,
        evlog,
        w.signals.log@.len() as int,
        evlog.len() as int,
        w.bodies@.len() as int,
    )
}

impl World {
    /// Advances the simulation by `dt` fixed-point seconds, in the fixed
    /// stage order: force generation, velocity integration, damping, swept
    /// motion clamping, narrow-phase detection with collision signals,
    /// contact-driven reactivation, constraint collection for the external
    /// solver, position integration, and the sleeping evaluation.
    ///
    /// The final state is a function of the old state and `dt`: the bodies,
    /// the pair table, the signal log, the collected constraints, and every
    /// stage's subscription set are each pinned exactly, so two worlds that
    /// agree before a step agree after it. Static bodies come out
    /// bit-identical.
    pub fn step(&mut self, dt: i64)
        requires
            old(self).wf(),
            0 < dt <= DT_LIMIT,
        ensures
            final(self).wf(),
            final(self).bodies@.len() == old(self).bodies@.len(),
            final(self).bodies@ == step_bodies(*old(self), dt as int),
            final(self).narrow.broad_phase.pairs@ == step_pairs(*old(self), dt as int),
            final(self).signals.log@ == step_log(*old(self), dt as int),
            final(self).constraints@ == step_constraints(*old(self), dt as int),
            final(self).forces.objects.ids@ == step_stage_ids(
                old(self).forces.objects.ids@,
                *old(self),
                dt as int,
            ),
            final(self).integrator.objects.ids@ == step_stage_ids(
                old(self).integrator.objects.ids@,
                *old(self),
                dt as int,
            ),
            final(self).damping.objects.ids@ == step_stage_ids(
                old(self).damping.objects.ids@,
                *old(self),
                dt as int,
            ),
            final(self).ccd.objects.ids@ == step_stage_ids(
                old(self).ccd.objects.ids@,
                *old(self),
                dt as int,
            ),
            final(self).joints == old(self).joints,
            forall|i: int|
                0 <= i < old(self).bodies@.len() && old(self).bodies@[i] is Some && old(
                    self,
                ).bodies@[i]->Some_0 is RB && old(self).bodies@[i]->Some_0.rb().is_static()
                    ==> final(self).bodies@[i] == #[trigger] old(self).bodies@[i],
            old(self).signals.log@.is_prefix_of(final(self).signals.log@),
            final(self).forces.lin_acc == old(self).forces.lin_acc,
            final(self).forces.ang_acc == old(self).forces.ang_acc,
    {
        let ghost w0 = *old(self);
        let ghost b0 = self.bodies@;

        // Integrator phase, in priority order: forces, velocities, damping,
        // motion clamping.
        self.integrator_phase(dt);
        let ghost w1 = *self;
        let ghost b4 = self.bodies@;

        // Detection phase: refresh every watched pair, announce collision
        // starts and ends, and wake contacted sleepers before the solver.
        self.detection_phase();
        let ghost b5 = self.bodies@;
        proof {
            assert(detect_wake_list(w1) == step_wake_list(w0, dt as int));
            assert(self.bodies@ =~= step_bodies_awake(w0, dt as int));
            assert(self.narrow.broad_phase.pairs@ =~= step_pairs(w0, dt as int));
            assert(self.signals.log@ =~= step_collision_log(w0, dt as int) + step_wake_list(
                w0,
                dt as int,
            ).map(|k: int, id: usize| Event::BodyActivated { id }));
            assert(self.forces.objects.ids@ == w0.forces.objects.ids@ + step_wake_list(
                w0,
                dt as int,
            ));
        }

        // Constraint collection for the external solver: contacts first,
        // then the joints.
        let mut out: Vec<Constraint> = Vec::new();
        self.narrow.interferences(&self.bodies, &mut out);
        self.joints.interferences(&mut out);
        proof {
            assert(out@ =~= step_constraints(w0, dt as int));
        }
        self.constraints = out;

        // Position integration from the (possibly clamped) velocities.
        self.position_pass(dt);
        let ghost b6 = self.bodies@;
        proof {
            assert(self.bodies@ =~= step_bodies_moved(w0, dt as int));
        }

        // Sleeping evaluation: quiescent bodies leave the active set.
        self.sleep_pass();

        proof {
            let b7 = self.bodies@;
            assert(b7 =~= step_bodies(w0, dt as int));
            assert(self.signals.log@ =~= step_log(w0, dt as int)) by {
                assert(self.signals.log@ =~= (step_collision_log(w0, dt as int) + step_wake_list(
                    w0,
                    dt as int,
                ).map(|k: int, id: usize| Event::BodyActivated { id })) + sleep_events(
                    step_bodies_moved(w0, dt as int),
                    w0.bodies@.len() as int,
                ));
            }
            assert(self.forces.objects.ids@ == step_stage_ids(
                w0.forces.objects.ids@,
                w0,
                dt as int,
            ));
            assert(self.integrator.objects.ids@ == step_stage_ids(
                w0.integrator.objects.ids@,
                w0,
                dt as int,
            ));
            assert(self.damping.objects.ids@ == step_stage_ids(
                w0.damping.objects.ids@,
                w0,
                dt as int,
            ));
            assert(self.ccd.objects.ids@ == step_stage_ids(w0.ccd.objects.ids@, w0, dt as int));
            assert forall|i: int|
                0 <= i < b0.len() && b0[i] is Some && b0[i]->Some_0 is RB
                    && b0[i]->Some_0.rb().is_static() implies b7[i] == #[trigger] b0[i] by {
                assert(b4[i] == b0[i]);
                assert(woken_only(b4[i], b5[i]));
                assert(b5[i] == b4[i]);
                assert(moved_only(b5[i], b6[i]));
                assert(b6[i] == b5[i]);
                assert(slept_only(b6[i], b7[i]));
                assert(b7[i] == b6[i]);
            }
        }
    }

    fn integrator_phase(&mut self, dt: i64)
        requires
            old(self).wf(),
            0 < dt <= DT_LIMIT,
        ensures
            final(self).wf(),
            final(self).bodies@.len() == old(self).bodies@.len(),
            final(self).bodies@ == phase1_bodies(*old(self), dt as int),
            forall|i: int|
                0 <= i < old(self).bodies@.len() && old(self).bodies@[i] is Some && old(
                    self,
                ).bodies@[i]->Some_0 is RB && old(self).bodies@[i]->Some_0.rb().is_static()
                    ==> final(self).bodies@[i] == #[trigger] old(self).bodies@[i],
            final(self).signals == old(self).signals,
            final(self).narrow == old(self).narrow,
            final(self).joints == old(self).joints,
            final(self).constraints == old(self).constraints,
            final(self).forces == old(self).forces,
            final(self).integrator == old(self).integrator,
            final(self).damping == old(self).damping,
            final(self).ccd == old(self).ccd,
    {
        let ghost b0 = self.bodies@;
        let n = self.bodies.len();
        proof {
            assert(b0.len() == n as int);
            lemma_stage_sync_ok(self.forces.objects.ids@, self.bodies@);
        }
        self.forces.update(dt, &mut self.bodies);
        let ghost b1 = self.bodies@;
        proof {
            assert forall|i: int| 0 <= i < b0.len() implies shape_eq(#[trigger] b0[i], b1[i])
                && ((b0[i] is Some && b0[i]->Some_0 is RB && b0[i]->Some_0.rb().is_static())
                ==> b1[i] == b0[i]) by {
                if b0[i] is Some && b0[i]->Some_0 is RB && b0[i]->Some_0.rb().is_static() {
                    assert(!old(self).forces.objects.ids@.contains(i as usize));
                }
            }
            lemma_sync_shape(self.integrator.objects.ids@, b0, b1);
            lemma_stage_sync_ok(self.integrator.objects.ids@, b1);
        }
        self.integrator.update(dt, &mut self.bodies);
        let ghost b2 = self.bodies@;
        proof {
            assert(stage_sync(self.integrator.objects.ids@, b1));
            assert forall|i: int| 0 <= i < b0.len() implies shape_eq(#[trigger] b1[i], b2[i])
                && ((b1[i] is Some && b1[i]->Some_0 is RB
                && b1[i]->Some_0.rb().is_static()) ==> b2[i] == b1[i]) by {
                if b1[i] is Some && b1[i]->Some_0 is RB && b1[i]->Some_0.rb().is_static() {
                    assert(!self.integrator.objects.ids@.contains(i as usize));
                }
            }
            lemma_sync_shape(self.damping.objects.ids@, b0, b1);
            lemma_sync_shape(self.damping.objects.ids@, b1, b2);
            lemma_stage_sync_ok(self.damping.objects.ids@, b2);
        }
        self.damping.update(dt, &mut self.bodies);
        let ghost b3 = self.bodies@;
        proof {
            assert(stage_sync(self.damping.objects.ids@, b2));
            assert forall|i: int| 0 <= i < b0.len() implies shape_eq(#[trigger] b2[i], b3[i])
                && ((b2[i] is Some && b2[i]->Some_0 is RB
                && b2[i]->Some_0.rb().is_static()) ==> b3[i] == b2[i]) by {
                if b2[i] is Some && b2[i]->Some_0 is RB && b2[i]->Some_0.rb().is_static() {
                    assert(!self.damping.objects.ids@.contains(i as usize));
                }
            }
            lemma_sync_shape(self.ccd.objects.ids@, b0, b1);
            lemma_sync_shape(self.ccd.objects.ids@, b1, b2);
            lemma_sync_shape(self.ccd.objects.ids@, b2, b3);
            lemma_stage_sync_ok(self.ccd.objects.ids@, b3);
        }
        self.ccd.update(dt, &mut self.bodies);
        let ghost b4 = self.bodies@;
        proof {
            lemma_ccd_untouched(
                b3,
                self.ccd.objects.ids@,
                dt as int,
                self.ccd.objects.ids@.len() as int,
            );
            assert(stage_sync(self.ccd.objects.ids@, b3));
            assert forall|i: int| 0 <= i < b0.len() implies shape_eq(#[trigger] b3[i], b4[i])
                && ((b3[i] is Some && b3[i]->Some_0 is RB
                && b3[i]->Some_0.rb().is_static()) ==> b4[i] == b3[i]) by {
                assert(crate::swept_ball_motion_clamping::vel_clamped_only(b3[i], b4[i]));
                if b3[i] is Some && b3[i]->Some_0 is RB && b3[i]->Some_0.rb().is_static() {
                    assert(!self.ccd.objects.ids@.contains(i as usize));
                }
            }
            // The whole invariant survives the integrator phase.
            assert(same_shape(b0, b4)) by {
                assert forall|i: int| 0 <= i < b0.len() implies shape_eq(#[trigger] b0[i], b4[i])
                    by {
                    assert(shape_eq(b0[i], b1[i]) && shape_eq(b1[i], b2[i]) && shape_eq(b2[i], b3[i])
                        && shape_eq(b3[i], b4[i]));
                }
            }
            lemma_wf_shape(*old(self), *self);
            // The four exact stage contracts compose into the phase's
            // functional statement.
            let w0v = *old(self);
            let c1 = Seq::new(
                b0.len(),
                |i: int|
                    force_slot(
                        b0[i],
                        w0v.forces.objects.ids@.contains(i as usize),
                        w0v.forces.lin_acc,
                        w0v.forces.ang_acc,
                    ),
            );
            assert forall|i: int| 0 <= i < b0.len() implies b1[i] == c1[i] by {}
            assert(b1 =~= c1);
            let c2 = Seq::new(
                c1.len(),
                |i: int|
                    integrate_slot(c1[i], w0v.integrator.objects.ids@.contains(i as usize), dt as int),
            );
            assert forall|i: int| 0 <= i < b0.len() implies b2[i] == c2[i] by {
                assert(b1[i] == c1[i]);
            }
            assert(b2 =~= c2);
            let c3 = Seq::new(
                c2.len(),
                |i: int|
                    damp_slot(
                        c2[i],
                        w0v.damping.objects.ids@.contains(i as usize),
                        w0v.damping.linear_damping as int,
                        w0v.damping.angular_damping as int,
                    ),
            );
            assert forall|i: int| 0 <= i < b0.len() implies b3[i] == c3[i] by {
                assert(b2[i] == c2[i]);
            }
            assert(b3 =~= c3);
            assert(b1 == c1 && b2 == c2 && b3 == c3);
            assert(self.bodies@ == ccd_step(
                c3,
                w0v.ccd.objects.ids@,
                dt as int,
                w0v.ccd.objects.ids@.len() as int,
            ));
            assert(self.bodies@ == phase1_bodies(w0v, dt as int));
        }

    }


    /// The detection phase of one step: refresh the pair table from the new
    /// poses, announce contact gains and losses, and wake every sleeping
    /// movable body that gained a contact with an awake partner.
    fn detection_phase(&mut self)
        requires
            old(self).wf(),
        ensures
            final(self).wf(),
            final(self).bodies@.len() == old(self).bodies@.len(),
            final(self).bodies@ == Seq::new(
                old(self).bodies@.len(),
                |i: int|
                    wake_slot(
                        old(self).bodies@[i],
                        detect_wake_list(*old(self)).contains(i as usize),
                    ),
            ),
            final(self).narrow.broad_phase.pairs@ == Seq::new(
                old(self).narrow.broad_phase.pairs@.len(),
                |k: int| pair_updated(old(self).narrow.broad_phase.pairs@[k], old(self).bodies@),
            ),
            final(self).signals.log@ == (old(self).signals.log@ + collision_events(
                old(self).narrow.broad_phase.pairs@,
                old(self).bodies@,
                old(self).narrow.broad_phase.pairs@.len() as int,
            )) + detect_wake_list(*old(self)).map(|k: int, id: usize| Event::BodyActivated { id }),
            final(self).forces.objects.ids@ == old(self).forces.objects.ids@ + detect_wake_list(
                *old(self),
            ),
            final(self).integrator.objects.ids@ == old(self).integrator.objects.ids@
                + detect_wake_list(*old(self)),
            final(self).damping.objects.ids@ == old(self).damping.objects.ids@ + detect_wake_list(
                *old(self),
            ),
            final(self).ccd.objects.ids@ == old(self).ccd.objects.ids@ + detect_wake_list(
                *old(self),
            ),
            forall|i: int|
                0 <= i < old(self).bodies@.len() ==> woken_only(
                    #[trigger] old(self).bodies@[i],
                    final(self).bodies@[i],
                ),
            old(self).signals.log@.is_prefix_of(final(self).signals.log@),
            final(self).joints == old(self).joints,
            final(self).constraints == old(self).constraints,
            final(self).forces.lin_acc == old(self).forces.lin_acc,
            final(self).forces.ang_acc == old(self).forces.ang_acc,
    {
        let ghost b4 = self.bodies@;
        let log_mark = self.signals.log.len();
        let ghost pairs4 = self.narrow.broad_phase.pairs@;
        self.narrow.update(&self.bodies, &mut self.signals);
        let log_mark2 = self.signals.log.len();
        proof {
            let evs = collision_events(pairs4, b4, pairs4.len() as int);
            lemma_collision_events_kinds(pairs4, b4, pairs4.len() as int);
            lemma_log_append_collisions(old(self).signals.log@, evs);
            assert forall|k: int|
                0 <= k < pairs4.len() implies (#[trigger] self.narrow.broad_phase.pairs@[k]).a
                == pairs4[k].a && self.narrow.broad_phase.pairs@[k].b == pairs4[k].b by {
                assert(self.narrow.broad_phase.pairs@[k] == crate::bodies_bodies::pair_updated(
                    pairs4[k],
                    b4,
                ));
            }
            lemma_complete_same_pairs(pairs4, self.narrow.broad_phase.pairs@, b4);
            assert(old(self).signals.log@.is_prefix_of(self.signals.log@)) by {
                assert(self.signals.log@.subrange(0, old(self).signals.log@.len() as int)
                    =~= old(self).signals.log@);
            }
            assert forall|id: usize|
                #[trigger] life_after(self.signals.log@, id) == expected_life(self.bodies@, id) by {
                assert(life_after(old(self).signals.log@ + evs, id) == life_after(
                    old(self).signals.log@,
                    id,
                ));
                assert(life_after(old(self).signals.log@, id) == expected_life(b4, id));
            }
            assert(self.wf());
            assert(self.narrow.broad_phase.pairs@ =~= Seq::new(
                pairs4.len(),
                |k: int| pair_updated(pairs4[k], b4),
            ));
        }
        let ghost wmid = *self;
        self.wake_pass(log_mark, log_mark2);
        proof {
            let evs = collision_events(pairs4, b4, pairs4.len() as int);
            let wl = contact_wake_list(
                wmid.bodies@,
                wmid.signals.log@,
                log_mark as int,
                log_mark2 as int,
                wmid.bodies@.len() as int,
            );
            assert(wmid.signals.log@ == old(self).signals.log@ + evs);
            assert(wl == detect_wake_list(*old(self)));
            assert(self.bodies@ =~= Seq::new(
                old(self).bodies@.len(),
                |i: int|
                    wake_slot(
                        old(self).bodies@[i],
                        detect_wake_list(*old(self)).contains(i as usize),
                    ),
            ));
        }
    }

    /// Wakes every sleeping movable body that one of the collision-started
    /// events in `log[lo..hi]` pairs with an awake partner, in handle order:
    /// the slot turns awake, `body_activated` is emitted, and every stage
    /// starts tracking the handle again. The pair table needs no refresh
    /// here: the detection pass that produced these events already
    /// recomputed every pair with an awake side, so the woken bodies'
    /// contacts are current when the constraints are collected.
    fn wake_pass(&mut self, lo: usize, hi: usize)
        requires
            old(self).wf(),
            lo <= hi,
            hi as int == old(self).signals.log@.len(),
        ensures
            final(self).wf(),
            final(self).bodies@.len() == old(self).bodies@.len(),
            final(self).bodies@ == Seq::new(
                old(self).bodies@.len(),
                |i: int|
                    wake_slot(
                        old(self).bodies@[i],
                        contact_wake_list(
                            old(self).bodies@,
                            old(self).signals.log@,
                            lo as int,
                            hi as int,
                            old(self).bodies@.len() as int,
                        ).contains(i as usize),
                    ),
            ),
            final(self).signals.log@ == old(self).signals.log@ + contact_wake_list(
                old(self).bodies@,
                old(self).signals.log@,
                lo as int,
                hi as int,
                old(self).bodies@.len() as int,
            ).map(|k: int, id: usize| Event::BodyActivated { id }),
            final(self).forces.objects.ids@ == old(self).forces.objects.ids@ + contact_wake_list(
                old(self).bodies@,
                old(self).signals.log@,
                lo as int,
                hi as int,
                old(self).bodies@.len() as int,
            ),
            final(self).integrator.objects.ids@ == old(self).integrator.objects.ids@
                + contact_wake_list(
                old(self).bodies@,
                old(self).signals.log@,
                lo as int,
                hi as int,
                old(self).bodies@.len() as int,
            ),
            final(self).damping.objects.ids@ == old(self).damping.objects.ids@ + contact_wake_list(
                old(self).bodies@,
                old(self).signals.log@,
                lo as int,
                hi as int,
                old(self).bodies@.len() as int,
            ),
            final(self).ccd.objects.ids@ == old(self).ccd.objects.ids@ + contact_wake_list(
                old(self).bodies@,
                old(self).signals.log@,
                lo as int,
                hi as int,
                old(self).bodies@.len() as int,
            ),
            forall|i: int|
                0 <= i < old(self).bodies@.len() ==> woken_only(
                    #[trigger] old(self).bodies@[i],
                    final(self).bodies@[i],
                ),
            old(self).signals.log@.is_prefix_of(final(self).signals.log@),
            final(self).narrow == old(self).narrow,
            final(self).joints == old(self).joints,
            final(self).constraints == old(self).constraints,
            final(self).forces.lin_acc == old(self).forces.lin_acc,
            final(self).forces.ang_acc == old(self).forces.ang_acc,
            final(self).damping.linear_damping == old(self).damping.linear_damping,
            final(self).damping.angular_damping == old(self).damping.angular_damping,
    {
        let ghost b = self.bodies@;
        let ghost lg = self.signals.log@;
        let ghost wl = contact_wake_list(b, lg, lo as int, hi as int, b.len() as int);
        let n = self.bodies.len();
        proof {
            assert(b.len() == n as int);
            lemma_wake_list_ok(b, lg, lo as int, hi as int, b.len() as int);
        }

        // Pass one: find every sleeping movable body with a fresh contact
        // against an awake partner, before any activation flag changes.
        let mut to_wake: Vec<usize> = Vec::new();
        let mut i: usize = 0;
        while i < n
            invariant
                0 <= i <= n,
                n as int == b.len(),
                self.bodies@ == b,
                self.signals.log@ == lg,
                lo <= hi,
                hi as int <= lg.len(),
                to_wake@ == contact_wake_list(b, lg, lo as int, hi as int, i as int),
            decreases n - i,
        {
            match &self.bodies[i] {
                Some(Body::RB(rb)) => {
                    if !rb.is_active() && rb.can_move() {
                        let mut nom = false;
                        let mut e: usize = lo;
                        while e < hi
                            invariant
                                lo <= e <= hi,
                                hi as int <= lg.len(),
                                i < n,
                                n as int == b.len(),
                                self.bodies@ == b,
                                self.signals.log@ == lg,
                                nom == exists|e2: int|
                                    lo <= e2 < e && nominating(#[trigger] lg[e2], b, i),
                            decreases hi - e,
                        {
                            let ev = self.signals.log[e];
                            proof {
                                assert(lg[e as int] == ev);
                            }
                            match ev {
                                Event::CollisionStarted { a, b: bb } => {
                                    let partner: usize = if a == i {
                                        bb
                                    } else if bb == i {
                                        a
                                    } else {
                                        i
                                    };
                                    if partner != i && partner < n {
                                        match &self.bodies[partner] {
                                            Some(p) => {
                                                if p.is_active() {
                                                    nom = true;
                                                    proof {
                                                        assert(nominating(lg[e as int], b, i));
                                                    }
                                                }
                                            },
                                            None => (),
                                        }
                                    }
                                },
                                _ => (),
                            }
                            proof {
                                assert forall|e2: int|
                                    lo <= e2 < e + 1 && nominating(
                                        #[trigger] lg[e2],
                                        b,
                                        i,
                                    ) implies nom by {
                                    if e2 == e as int {
                                        assert(nominating(ev, b, i));
                                    }
                                }
                            }
                            e += 1;
                        }
                        if nom {
                            to_wake.push(i);
                        }
                    }
                },
                _ => (),
            }
            proof {
                assert(to_wake@ =~= contact_wake_list(b, lg, lo as int, hi as int, i + 1));
            }
            i += 1;
        }
        proof {
            assert(to_wake@ == wl);
        }

        // Pass two: wake each nominated body, emit its signal, and hand it
        // back to every stage, in handle order.
        let ghost f0 = self.forces.objects.ids@;
        let ghost i0 = self.integrator.objects.ids@;
        let ghost d0 = self.damping.objects.ids@;
        let ghost c0 = self.ccd.objects.ids@;
        let mut k: usize = 0;
        while k < to_wake.len()
            invariant
                0 <= k <= wl.len(),
                to_wake@ == wl,
                b == old(self).bodies@,
                lg == old(self).signals.log@,
                lo <= hi,
                hi as int == lg.len(),
                n as int == b.len(),
                wl == contact_wake_list(b, lg, lo as int, hi as int, b.len() as int),
                self.wf(),
                self.bodies@ == Seq::new(
                    b.len(),
                    |i2: int| wake_slot(b[i2], wl.take(k as int).contains(i2 as usize)),
                ),
                self.signals.log@ == lg + wl.take(k as int).map(
                    |k2: int, id: usize| Event::BodyActivated { id },
                ),
                self.forces.objects.ids@ == f0 + wl.take(k as int),
                self.integrator.objects.ids@ == i0 + wl.take(k as int),
                self.damping.objects.ids@ == d0 + wl.take(k as int),
                self.ccd.objects.ids@ == c0 + wl.take(k as int),
                f0 == old(self).forces.objects.ids@,
                i0 == old(self).integrator.objects.ids@,
                d0 == old(self).damping.objects.ids@,
                c0 == old(self).ccd.objects.ids@,
                self.narrow == old(self).narrow,
                self.joints == old(self).joints,
                self.constraints == old(self).constraints,
                self.forces.lin_acc == old(self).forces.lin_acc,
                self.forces.ang_acc == old(self).forces.ang_acc,
                self.damping.linear_damping == old(self).damping.linear_damping,
                self.damping.angular_damping == old(self).damping.angular_damping,
            decreases wl.len() - k,
        {
            let id = to_wake[k];
            proof {
                lemma_wake_list_ok(b, lg, lo as int, hi as int, b.len() as int);
                assert(wl[k as int] == id);
                assert(wl.contains(id));
                assert(!wl.take(k as int).contains(id)) by {
                    if wl.take(k as int).contains(id) {
                        let w = choose|w: int| 0 <= w < k && wl.take(k as int)[w] == id;
                        assert(wl[w] == id);
                        assert((wl[w] as int) < (wl[k as int] as int));
                    }
                }
                assert(self.bodies@[id as int] == wake_slot(b[id as int], false));
                assert(self.bodies@[id as int] == b[id as int]);
            }
            let ghost wpre = *self;
            let slot = self.bodies[id];
            match slot {
                Some(Body::RB(rb)) => {
                    let woke = crate::object::RigidBody {
                        activation: crate::object::ActivationState {
                            active: true,
                            energy: crate::object::ENERGY_LIMIT,
                            ..rb.activation
                        },
                        ..rb
                    };
                    self.bodies.set(id, Some(Body::RB(woke)));
                    self.signals.emit(Event::BodyActivated { id });
                    self.forces.add(id);
                    self.integrator.add(id);
                    self.damping.add(id);
                    self.ccd.add(id);
                    proof {
                        assert(!wpre.forces.objects.ids@.contains(id));
                        assert(!wpre.integrator.objects.ids@.contains(id));
                        assert(!wpre.damping.objects.ids@.contains(id));
                        assert(!wpre.ccd.objects.ids@.contains(id));
                        lemma_tracks_bridge(wpre.forces.objects, self.forces.objects, id, true);
                        lemma_tracks_bridge(
                            wpre.integrator.objects,
                            self.integrator.objects,
                            id,
                            true,
                        );
                        lemma_tracks_bridge(wpre.damping.objects, self.damping.objects, id, true);
                        lemma_tracks_bridge(wpre.ccd.objects, self.ccd.objects, id, true);
                        lemma_wf_activate(wpre, *self, id);
                        lemma_prefix_push(
                            old(self).signals.log@,
                            wpre.signals.log@,
                            Event::BodyActivated { id },
                        );
                        lemma_take_push(wl, k as int);
                        assert(self.bodies@ =~= Seq::new(
                            b.len(),
                            |i2: int| wake_slot(b[i2], wl.take(k + 1).contains(i2 as usize)),
                        )) by {
                            assert forall|i2: int| 0 <= i2 < b.len() implies self.bodies@[i2]
                                == wake_slot(b[i2], wl.take(k + 1).contains(i2 as usize)) by {
                                if i2 != id as int {
                                    assert(wl.take(k + 1).contains(i2 as usize) == wl.take(
                                        k as int,
                                    ).contains(i2 as usize));
                                    assert(self.bodies@[i2] == wpre.bodies@[i2]);
                                }
                            }
                        }
                        assert(self.signals.log@ =~= lg + wl.take(k + 1).map(
                            |k2: int, id2: usize| Event::BodyActivated { id: id2 },
                        )) by {
                            assert(wl.take(k + 1).map(
                                |k2: int, id2: usize| Event::BodyActivated { id: id2 },
                            ) =~= wl.take(k as int).map(
                                |k2: int, id2: usize| Event::BodyActivated { id: id2 },
                            ).push(Event::BodyActivated { id }));
                        }
                        assert(self.forces.objects.ids@ =~= f0 + wl.take(k + 1));
                        assert(self.integrator.objects.ids@ =~= i0 + wl.take(k + 1));
                        assert(self.damping.objects.ids@ =~= d0 + wl.take(k + 1));
                        assert(self.ccd.objects.ids@ =~= c0 + wl.take(k + 1));
                    }
                },
                _ => {
                    proof {
                        assert(false);
                    }
                },
            }
            k += 1;
        }
        proof {
            lemma_wake_list_ok(b, lg, lo as int, hi as int, b.len() as int);
            assert(wl.take(wl.len() as int) =~= wl);
            assert forall|i2: int|
                0 <= i2 < b.len() implies woken_only(#[trigger] b[i2], self.bodies@[i2]) by {
                assert(self.bodies@[i2] == wake_slot(b[i2], wl.contains(i2 as usize)));
                if wl.contains(i2 as usize) {
                }
            }
        }
    }

    /// Integrates positions and orientations from the current velocities,
    /// for every awake movable body, saturating at the world range.
    fn position_pass(&mut self, dt: i64)
        requires
            old(self).wf(),
            0 < dt <= DT_LIMIT,
        ensures
            final(self).wf(),
            final(self).bodies@.len() == old(self).bodies@.len(),
            final(self).bodies@ == Seq::new(
                old(self).bodies@.len(),
                |i: int| move_slot(old(self).bodies@[i], dt as int),
            ),
            forall|i: int|
                0 <= i < old(self).bodies@.len() ==> moved_only(
                    #[trigger] old(self).bodies@[i],
                    final(self).bodies@[i],
                ),
            final(self).signals == old(self).signals,
            final(self).narrow == old(self).narrow,
            final(self).joints == old(self).joints,
            final(self).constraints == old(self).constraints,
            final(self).forces == old(self).forces,
            final(self).integrator == old(self).integrator,
            final(self).damping == old(self).damping,
            final(self).ccd == old(self).ccd,
    {
        let n = self.bodies.len();
        let mut i: usize = 0;
        while i < n
            invariant
                0 <= i <= n,
                n as int == self.bodies@.len(),
                old(self).bodies@.len() == n as int,
                0 < dt <= DT_LIMIT,
                bodies_wf(self.bodies@),
                same_shape(old(self).bodies@, self.bodies@),
                forall|w: int|
                    0 <= w < i ==> self.bodies@[w] == move_slot(
                        #[trigger] old(self).bodies@[w],
                        dt as int,
                    ),
                forall|w: int| i <= w < n ==> self.bodies@[w] == old(self).bodies@[w],
                forall|w: int|
                    0 <= w < n ==> moved_only(#[trigger] old(self).bodies@[w], self.bodies@[w]),
                self.signals == old(self).signals,
                self.narrow == old(self).narrow,
                self.joints == old(self).joints,
                self.constraints == old(self).constraints,
                self.forces == old(self).forces,
                self.integrator == old(self).integrator,
                self.damping == old(self).damping,
                self.ccd == old(self).ccd,
                old(self).wf(),
            decreases n - i,
        {
            let slot = self.bodies[i];
            match slot {
                Some(Body::RB(rb)) => {
                    if rb.activation.active && rb.can_move() {
                        proof {
                            crate::vect::lemma_scale_sp_bounded(
                                rb.lin_vel,
                                dt as int,
                                VEL_LIMIT as int,
                                DT_LIMIT as int,
                            );
                            crate::vect::lemma_scale_sp_bounded(
                                rb.ang_vel,
                                dt as int,
                                VEL_LIMIT as int,
                                DT_LIMIT as int,
                            );
                        }
                        let moved = crate::object::RigidBody {
                            position: rb.position.add_clamped(
                                rb.lin_vel.scale(dt),
                                crate::fx::POS_LIMIT,
                            ),
                            orientation: rb.orientation.add_clamped(
                                rb.ang_vel.scale(dt),
                                crate::fx::POS_LIMIT,
                            ),
                            ..rb
                        };
                        self.bodies.set(i, Some(Body::RB(moved)));
                        proof {
                            assert(self.bodies@[i as int] == move_slot(
                                old(self).bodies@[i as int],
                                dt as int,
                            ));
                            assert forall|w: int|
                                0 <= w < n implies moved_only(
                                #[trigger] old(self).bodies@[w],
                                self.bodies@[w],
                            ) by {}
                        }
                    } else {
                        proof {
                            assert(self.bodies@[i as int] == move_slot(
                                old(self).bodies@[i as int],
                                dt as int,
                            ));
                        }
                    }
                },
                _ => {
                    proof {
                        assert(self.bodies@[i as int] == move_slot(
                            old(self).bodies@[i as int],
                            dt as int,
                        ));
                    }
                },
            }
            i += 1;
        }
        proof {
            lemma_wf_shape(*old(self), *self);
            assert(self.bodies@ =~= Seq::new(
                old(self).bodies@.len(),
                |i2: int| move_slot(old(self).bodies@[i2], dt as int),
            ));
        }
    }

    /// The sleeping evaluator: every awake movable body that may sleep has
    /// its kinetic-energy average updated; when the average falls under the
    /// body's threshold, the body is put to sleep, its velocities are
    /// zeroed, `body_deactivated` is emitted, and every stage forgets it.
    fn sleep_pass(&mut self)
        requires
            old(self).wf(),
        ensures
            final(self).wf(),
            final(self).bodies@.len() == old(self).bodies@.len(),
            final(self).bodies@ == Seq::new(
                old(self).bodies@.len(),
                |i: int| sleep_slot(old(self).bodies@[i]),
            ),
            final(self).signals.log@ == old(self).signals.log@ + sleep_events(
                old(self).bodies@,
                old(self).bodies@.len() as int,
            ),
            final(self).forces.objects.ids@ == purged_ids(
                old(self).forces.objects.ids@,
                old(self).bodies@,
                old(self).bodies@.len() as int,
            ),
            final(self).integrator.objects.ids@ == purged_ids(
                old(self).integrator.objects.ids@,
                old(self).bodies@,
                old(self).bodies@.len() as int,
            ),
            final(self).damping.objects.ids@ == purged_ids(
                old(self).damping.objects.ids@,
                old(self).bodies@,
                old(self).bodies@.len() as int,
            ),
            final(self).ccd.objects.ids@ == purged_ids(
                old(self).ccd.objects.ids@,
                old(self).bodies@,
                old(self).bodies@.len() as int,
            ),
            forall|i: int|
                0 <= i < old(self).bodies@.len() ==> slept_only(
                    #[trigger] old(self).bodies@[i],
                    final(self).bodies@[i],
                ),
            old(self).signals.log@.is_prefix_of(final(self).signals.log@),
            final(self).narrow == old(self).narrow,
            final(self).joints == old(self).joints,
            final(self).constraints == old(self).constraints,
            final(self).forces.lin_acc == old(self).forces.lin_acc,
            final(self).forces.ang_acc == old(self).forces.ang_acc,
    {
        let ghost b0 = self.bodies@;
        let ghost l0 = self.signals.log@;
        let ghost f0 = self.forces.objects.ids@;
        let ghost i0 = self.integrator.objects.ids@;
        let ghost d0 = self.damping.objects.ids@;
        let ghost c0 = self.ccd.objects.ids@;
        let n = self.bodies.len();
        let mut i: usize = 0;
        while i < n
            invariant
                0 <= i <= n,
                self.wf(),
                n as int == b0.len(),
                self.bodies@.len() == b0.len(),
                b0 == old(self).bodies@,
                l0 == old(self).signals.log@,
                f0 == old(self).forces.objects.ids@,
                i0 == old(self).integrator.objects.ids@,
                d0 == old(self).damping.objects.ids@,
                c0 == old(self).ccd.objects.ids@,
                forall|w: int| 0 <= w < i ==> self.bodies@[w] == sleep_slot(#[trigger] b0[w]),
                forall|w: int| i <= w < n ==> self.bodies@[w] == b0[w],
                forall|w: int| 0 <= w < n ==> slept_only(#[trigger] b0[w], self.bodies@[w]),
                self.signals.log@ == l0 + sleep_events(b0, i as int),
                self.forces.objects.ids@ == purged_ids(f0, b0, i as int),
                self.integrator.objects.ids@ == purged_ids(i0, b0, i as int),
                self.damping.objects.ids@ == purged_ids(d0, b0, i as int),
                self.ccd.objects.ids@ == purged_ids(c0, b0, i as int),
                old(self).signals.log@.is_prefix_of(self.signals.log@),
                self.narrow == old(self).narrow,
                self.joints == old(self).joints,
                self.constraints == old(self).constraints,
                self.forces.lin_acc == old(self).forces.lin_acc,
                self.forces.ang_acc == old(self).forces.ang_acc,
            decreases n - i,
        {
            let slot = self.bodies[i];
            match slot {
                Some(Body::RB(rb)) => {
                    if rb.activation.active && rb.can_move() && rb.activation.can_deactivate {
                        proof {
                            assert(rb.wf());
                            crate::fx::lemma_mul_bound(
                                rb.lin_vel.x as int, rb.lin_vel.x as int,
                                VEL_LIMIT as int, VEL_LIMIT as int,
                            );
                            crate::fx::lemma_mul_bound(
                                rb.lin_vel.y as int, rb.lin_vel.y as int,
                                VEL_LIMIT as int, VEL_LIMIT as int,
                            );
                            crate::fx::lemma_mul_bound(
                                rb.lin_vel.z as int, rb.lin_vel.z as int,
                                VEL_LIMIT as int, VEL_LIMIT as int,
                            );
                            crate::fx::lemma_mul_bound(
                                rb.ang_vel.x as int, rb.ang_vel.x as int,
                                VEL_LIMIT as int, VEL_LIMIT as int,
                            );
                            crate::fx::lemma_mul_bound(
                                rb.ang_vel.y as int, rb.ang_vel.y as int,
                                VEL_LIMIT as int, VEL_LIMIT as int,
                            );
                            crate::fx::lemma_mul_bound(
                                rb.ang_vel.z as int, rb.ang_vel.z as int,
                                VEL_LIMIT as int, VEL_LIMIT as int,
                            );
                        }
                        let kin: i64 = rb.lin_vel.norm_sq() + rb.ang_vel.norm_sq();
                        let averaged: i64 = crate::fx::div_trunc(
                            3 * rb.activation.energy + kin,
                            4,
                        );
                        proof {
                            crate::fx::lemma_div_tz_bound(
                                3 * rb.activation.energy + kin as int,
                                4,
                                crate::object::ENERGY_LIMIT as int,
                            );
                            vstd::arithmetic::div_mod::lemma_div_pos_is_pos(
                                3 * rb.activation.energy + kin as int,
                                4,
                            );
                            assert(averaged == averaged_energy(rb));
                        }
                        let ghost wpre = *self;
                        if averaged < rb.activation.threshold {
                            let slept = crate::object::RigidBody {
                                lin_vel: crate::vect::Vect::zero(),
                                ang_vel: crate::vect::Vect::zero(),
                                activation: crate::object::ActivationState {
                                    active: false,
                                    energy: averaged,
                                    ..rb.activation
                                },
                                ..rb
                            };
                            self.bodies.set(i, Some(Body::RB(slept)));
                            self.signals.emit(Event::BodyDeactivated { id: i });
                            self.forces.remove(i);
                            self.integrator.remove(i);
                            self.damping.remove(i);
                            self.ccd.remove(i);
                            proof {
                                lemma_tracks_bridge_rm(wpre.forces.objects, self.forces.objects, i);
                                lemma_tracks_bridge_rm(
                                    wpre.integrator.objects,
                                    self.integrator.objects,
                                    i,
                                );
                                lemma_tracks_bridge_rm(wpre.damping.objects, self.damping.objects, i);
                                lemma_tracks_bridge_rm(wpre.ccd.objects, self.ccd.objects, i);
                                lemma_wf_deactivate(wpre, *self, i);
                                lemma_prefix_push(
                                    old(self).signals.log@,
                                    wpre.signals.log@,
                                    Event::BodyDeactivated { id: i },
                                );
                                assert(falls_asleep(b0[i as int]));
                                assert(self.bodies@[i as int] == sleep_slot(b0[i as int]));
                                assert(self.signals.log@ =~= l0 + sleep_events(b0, i + 1));
                                assert forall|w: int|
                                    0 <= w < n implies slept_only(
                                    #[trigger] b0[w],
                                    self.bodies@[w],
                                ) by {
                                    if w != i as int {
                                        assert(self.bodies@[w] == wpre.bodies@[w]);
                                    } else {
                                        assert(wpre.bodies@[w] == b0[w]);
                                    }
                                }
                            }
                        } else {
                            let refreshed = crate::object::RigidBody {
                                activation: crate::object::ActivationState {
                                    energy: averaged,
                                    ..rb.activation
                                },
                                ..rb
                            };
                            self.bodies.set(i, Some(Body::RB(refreshed)));
                            proof {
                                lemma_wf_shape(wpre, *self);
                                assert(!falls_asleep(b0[i as int]));
                                assert(self.bodies@[i as int] == sleep_slot(b0[i as int]));
                                assert forall|w: int|
                                    0 <= w < n implies slept_only(
                                    #[trigger] b0[w],
                                    self.bodies@[w],
                                ) by {
                                    if w != i as int {
                                        assert(self.bodies@[w] == wpre.bodies@[w]);
                                    } else {
                                        assert(wpre.bodies@[w] == b0[w]);
                                    }
                                }
                            }
                        }
                    } else {
                        proof {
                            assert(!sleep_candidate(b0[i as int]));
                            assert(self.bodies@[i as int] == sleep_slot(b0[i as int]));
                        }
                    }
                },
                _ => {
                    proof {
                        assert(!sleep_candidate(b0[i as int]));
                        assert(self.bodies@[i as int] == sleep_slot(b0[i as int]));
                    }
                },
            }
            i += 1;
        }
        proof {
            assert(self.bodies@ =~= Seq::new(b0.len(), |i2: int| sleep_slot(b0[i2])));
        }
    }
}

/// A slot either kept its value, or an awake movable body moved: position
/// and orientation advanced, everything else identical.
pub open spec fn moved_only(s0: Option<Body>, s1: Option<Body>) -> bool {
    s1 == s0 || (s0 is Some && s0->Some_0 is RB && s0->Some_0.rb().is_active_sp()
        && !s0->Some_0.rb().is_static() && s1 is Some && s1->Some_0 is RB && s1->Some_0.rb() == (
    crate::object::RigidBody {
        position: s1->Some_0.rb().position,
        orientation: s1->Some_0.rb().orientation,
        ..s0->Some_0.rb()
    }))
}

/// A slot either kept its value, or an awake movable body had its energy
/// average refreshed, or it additionally fell asleep with its velocities
/// zeroed.
pub open spec fn slept_only(s0: Option<Body>, s1: Option<Body>) -> bool {
    ||| s1 == s0
    ||| (s0 is Some && s0->Some_0 is RB && s0->Some_0.rb().is_active_sp()
        && !s0->Some_0.rb().is_static() && s1 is Some && s1->Some_0 is RB && (s1->Some_0.rb() == (
    crate::object::RigidBody {
        activation: crate::object::ActivationState {
            energy: s1->Some_0.rb().activation.energy,
            ..s0->Some_0.rb().activation
        },
        ..s0->Some_0.rb()
    }) || s1->Some_0.rb() == (crate::object::RigidBody {
        lin_vel: crate::vect::Vect { x: 0, y: 0, z: 0 },
        ang_vel: crate::vect::Vect { x: 0, y: 0, z: 0 },
        activation: crate::object::ActivationState {
            active: false,
            energy: s1->Some_0.rb().activation.energy,
            ..s0->Some_0.rb().activation
        },
        ..s0->Some_0.rb()
    })))
}

/// The world invariant survives putting one awake movable body to sleep.
proof fn lemma_wf_deactivate(pre: World, cur: World, id: usize)
    requires
        pre.wf(),
        id < pre.bodies@.len(),
        pre.bodies@[id as int] is Some,
        pre.bodies@[id as int]->Some_0 is RB,
        pre.bodies@[id as int]->Some_0.rb().is_active_sp(),
        !pre.bodies@[id as int]->Some_0.rb().is_static(),
        cur.bodies@.len() == pre.bodies@.len(),
        forall|i: int| 0 <= i < pre.bodies@.len() && i != id ==> cur.bodies@[i] == pre.bodies@[i],
        cur.bodies@[id as int] is Some,
        cur.bodies@[id as int]->Some_0 is RB,
        !cur.bodies@[id as int]->Some_0.rb().is_active_sp(),
        cur.bodies@[id as int]->Some_0.rb().wf(),
        cur.bodies@[id as int]->Some_0.rb().mobility == pre.bodies@[id as int]->Some_0.rb().mobility,
        cur.bodies@[id as int]->Some_0.rb().geom == pre.bodies@[id as int]->Some_0.rb().geom,
        cur.signals.log@ == pre.signals.log@.push(Event::BodyDeactivated { id }),
        cur.signals.handlers == pre.signals.handlers,
        cur.signals.pending_activations == pre.signals.pending_activations,
        cur.narrow == pre.narrow,
        cur.joints == pre.joints,
        cur.forces.wf() && cur.integrator.wf() && cur.damping.wf() && cur.ccd.wf(),
        forall|k: usize|
            #[trigger] cur.forces.objects.ids@.contains(k) == (pre.forces.objects.ids@.contains(k)
                && k != id),
        forall|k: usize|
            #[trigger] cur.integrator.objects.ids@.contains(k) == (
            pre.integrator.objects.ids@.contains(k) && k != id),
        forall|k: usize|
            #[trigger] cur.damping.objects.ids@.contains(k) == (pre.damping.objects.ids@.contains(
                k,
            ) && k != id),
        forall|k: usize|
            #[trigger] cur.ccd.objects.ids@.contains(k) == (pre.ccd.objects.ids@.contains(k) && k
                != id),
    ensures
        cur.wf(),
{
    let b0 = pre.bodies@;
    let b1 = cur.bodies@;
    let pairs = cur.narrow.broad_phase.pairs@;
    assert forall|i: int|
        0 <= i < b1.len() && b1[i] is Some && b1[i]->Some_0 is RB implies (
    #[trigger] b1[i])->Some_0.rb().wf() by {
        if i != id as int {
            assert(b1[i] == b0[i]);
        }
    }
    assert forall|k: int| 0 <= k < pairs.len() implies pair_ok(#[trigger] pairs[k], b1) by {
        assert(pair_ok(pairs[k], b0));
        if pairs[k].a != id && pairs[k].b != id {
            assert(b1[pairs[k].a as int] == b0[pairs[k].a as int]);
            assert(b1[pairs[k].b as int] == b0[pairs[k].b as int]);
        }
    }
    assert forall|i: int, j: int|
        0 <= i < j < b1.len() && present(b1, i) && present(b1, j) && is_valid_sp(
            i as usize,
            j as usize,
            #[trigger] body_of(b1, i),
            #[trigger] body_of(b1, j),
        ) implies has_pair(pairs, i as usize, j as usize) by {
        assert(is_valid_sp(i as usize, j as usize, body_of(b0, i), body_of(b0, j)));
    }
    assert forall|k: int|
        0 <= k < cur.joints.ball_joints@.len() implies (#[trigger] cur.joints.ball_joints@[k]).wf(
        b1,
    ) by {
        assert(cur.joints.ball_joints@[k].wf(b0));
    }
    assert forall|k: int|
        0 <= k < cur.joints.fixed_joints@.len() implies (#[trigger] cur.joints.fixed_joints@[k]).wf(
        b1,
    ) by {
        assert(cur.joints.fixed_joints@[k].wf(b0));
    }
    lemma_sync_deactivate(pre.forces.objects.ids@, cur.forces.objects.ids@, b0, b1, id);
    lemma_sync_deactivate(pre.integrator.objects.ids@, cur.integrator.objects.ids@, b0, b1, id);
    lemma_sync_deactivate(pre.damping.objects.ids@, cur.damping.objects.ids@, b0, b1, id);
    lemma_sync_deactivate(pre.ccd.objects.ids@, cur.ccd.objects.ids@, b0, b1, id);
    assert(life_after(pre.signals.log@, id) == LifeState::Awake);
    lemma_log_wf_push(pre.signals.log@, Event::BodyDeactivated { id });
    assert forall|x: usize|
        #[trigger] life_after(cur.signals.log@, x) == expected_life(b1, x) by {
        lemma_life_after_push(pre.signals.log@, Event::BodyDeactivated { id }, x);
        if x != id {
            if (x as int) < b0.len() {
                assert(b1[x as int] == b0[x as int]);
            }
        }
    }
}

/// The bodies a removal must wake: when the leaving body was asleep, every
/// sleeping movable neighbor under its bounding volume, in slot order.
pub open spec fn removal_wake_list(bodies: Seq<Option<Body>>, id: usize) -> Seq<usize> {
    if body_of(bodies, id as int) is RB && !body_of(bodies, id as int).rb().is_active_sp() {
        let bv = crate::geom::aabb_sp(
            body_of(bodies, id as int).rb().geom,
            body_of(bodies, id as int).rb().position,
        );
        let hits = crate::broad_phase::bv_hits(bodies, bv, bodies.len() as int);
        wake_list(hits, bodies, id, hits.len() as int)
    } else {
        Seq::empty()
    }
}

/// A wake list built over ascending hits names sleeping movable bodies
/// other than the leaving one, in strictly ascending slot order.
proof fn lemma_wake_list_props(
    hits: Seq<usize>,
    bodies: Seq<Option<Body>>,
    id: usize,
    upto: int,
)
    requires
        0 <= upto <= hits.len(),
        forall|k1: int, k2: int| 0 <= k1 < k2 < hits.len() ==> (hits[k1] as int) < (hits[k2] as int),
    ensures
        forall|k: int|
            0 <= k < wake_list(hits, bodies, id, upto).len() ==> {
                let h = #[trigger] wake_list(hits, bodies, id, upto)[k];
                &&& present(bodies, h as int)
                &&& body_of(bodies, h as int) is RB
                &&& !body_of(bodies, h as int).rb().is_active_sp()
                &&& !body_of(bodies, h as int).rb().is_static()
                &&& h != id
            },
        forall|k1: int, k2: int|
            0 <= k1 < k2 < wake_list(hits, bodies, id, upto).len() ==> (wake_list(
                hits,
                bodies,
                id,
                upto,
            )[k1] as int) < (wake_list(hits, bodies, id, upto)[k2] as int),
        forall|k: int|
            0 <= k < wake_list(hits, bodies, id, upto).len() ==> exists|j: int|
                0 <= j < upto && #[trigger] wake_list(hits, bodies, id, upto)[k] == #[trigger] hits[j],
    decreases upto,
{
    if upto > 0 {
        lemma_wake_list_props(hits, bodies, id, upto - 1);
        let pre = wake_list(hits, bodies, id, upto - 1);
        let res = wake_list(hits, bodies, id, upto);
        if res.len() > pre.len() {
            assert(res[res.len() - 1] == hits[upto - 1]);
            assert forall|k: int|
                0 <= k < res.len() implies exists|j: int|
                0 <= j < upto && #[trigger] res[k] == #[trigger] hits[j] by {
                if k < pre.len() {
                    assert(res[k] == pre[k]);
                    let j = choose|j: int|
                        0 <= j < upto - 1 && #[trigger] pre[k] == #[trigger] hits[j];
                    assert(0 <= j < upto && res[k] == hits[j]);
                } else {
                    assert(res[k] == hits[upto - 1]);
                }
            }
            assert forall|k1: int, k2: int|
                0 <= k1 < k2 < res.len() implies (res[k1] as int) < (res[k2] as int) by {
                if k2 < pre.len() {
                    assert(res[k1] == pre[k1] && res[k2] == pre[k2]);
                } else {
                    assert(res[k2] == hits[upto - 1]);
                    assert(res[k1] == pre[k1]);
                    let j = choose|j: int|
                        0 <= j < upto - 1 && #[trigger] pre[k1] == #[trigger] hits[j];
                    assert((hits[j] as int) < (hits[upto - 1] as int));
                }
            }
        } else {
            assert forall|k: int|
                0 <= k < res.len() implies exists|j: int|
                0 <= j < upto && #[trigger] res[k] == #[trigger] hits[j] by {
                assert(res[k] == pre[k]);
                let j = choose|j: int|
                    0 <= j < upto - 1 && #[trigger] pre[k] == #[trigger] hits[j];
                assert(0 <= j < upto && res[k] == hits[j]);
            }
        }
    }
}

/// The removal wake list in full: sleeping movable neighbors, ascending.
pub proof fn lemma_removal_wake_ok(bodies: Seq<Option<Body>>, id: usize)
    requires
        bodies.len() <= usize::MAX,
    ensures
        forall|k: int|
            0 <= k < removal_wake_list(bodies, id).len() ==> {
                let h = #[trigger] removal_wake_list(bodies, id)[k];
                &&& present(bodies, h as int)
                &&& body_of(bodies, h as int) is RB
                &&& !body_of(bodies, h as int).rb().is_active_sp()
                &&& !body_of(bodies, h as int).rb().is_static()
                &&& h != id
            },
        forall|k1: int, k2: int|
            0 <= k1 < k2 < removal_wake_list(bodies, id).len() ==> (removal_wake_list(
                bodies,
                id,
            )[k1] as int) < (removal_wake_list(bodies, id)[k2] as int),
{
    if body_of(bodies, id as int) is RB && !body_of(bodies, id as int).rb().is_active_sp() {
        let bv = crate::geom::aabb_sp(
            body_of(bodies, id as int).rb().geom,
            body_of(bodies, id as int).rb().position,
        );
        let hits = crate::broad_phase::bv_hits(bodies, bv, bodies.len() as int);
        crate::broad_phase::lemma_bv_hits_ok(bodies, bv, bodies.len() as int);
        lemma_wake_list_props(hits, bodies, id, hits.len() as int);
    }
}

/// A handle set synchronized before a removal, shrunk by the removed
/// handle, is synchronized with the holed arena.
proof fn lemma_sync_remove(
    ids0: Seq<usize>,
    ids1: Seq<usize>,
    b0: Seq<Option<Body>>,
    b1: Seq<Option<Body>>,
    id: usize,
)
    requires
        stage_sync(ids0, b0),
        id < b0.len(),
        b1 == b0.update(id as int, Option::<Body>::None),
        forall|k: usize| #[trigger] ids1.contains(k) == (ids0.contains(k) && k != id),
    ensures
        stage_sync(ids1, b1),
{
    assert forall|k: usize| #[trigger] ids1.contains(k) implies (present(b1, k as int) && body_of(
        b1,
        k as int,
    ) is RB && body_of(b1, k as int).rb().is_active_sp() && !body_of(b1, k as int).rb().is_static())
        by {
        assert(ids0.contains(k));
        assert(b1[k as int] == b0[k as int]);
    }
    assert forall|k: usize|
        (present(b1, k as int) && body_of(b1, k as int) is RB && body_of(
            b1,
            k as int,
        ).rb().is_active_sp() && !body_of(b1, k as int).rb().is_static()) implies #[trigger]
        ids1.contains(k) by {
        if k != id {
            assert(b1[k as int] == b0[k as int]);
            assert(ids0.contains(k));
        }
    }
}

/// The world invariant survives pulling one body out: its slot becomes a
/// hole, its pairs and joints are gone, every stage forgot it, and
/// `body_removed` is logged.
proof fn lemma_wf_remove(pre: World, cur: World, id: usize)
    requires
        pre.wf(),
        pre.bodies@.len() <= usize::MAX,
        id < pre.bodies@.len(),
        pre.bodies@[id as int] is Some,
        cur.bodies@ == pre.bodies@.update(id as int, Option::<Body>::None),
        cur.narrow.broad_phase.pairs@ == pairs_without(pre.narrow.broad_phase.pairs@, id),
        cur.narrow.update_bf == pre.narrow.update_bf,
        cur.joints.ball_joints@ == crate::joint::ball_joints_without(pre.joints.ball_joints@, id),
        cur.joints.fixed_joints@ == crate::joint::fixed_joints_without(
            pre.joints.fixed_joints@,
            id,
        ),
        cur.joints.clean_of(id),
        cur.signals.log@ == pre.signals.log@.push(Event::BodyRemoved { id }),
        cur.signals.handlers == pre.signals.handlers,
        cur.signals.handlers_wf(),
        cur.signals.pending_activations@.len() == 0,
        cur.forces.wf() && cur.integrator.wf() && cur.damping.wf() && cur.ccd.wf(),
        forall|k: usize|
            #[trigger] cur.forces.objects.ids@.contains(k) == (pre.forces.objects.ids@.contains(k)
                && k != id),
        forall|k: usize|
            #[trigger] cur.integrator.objects.ids@.contains(k) == (
            pre.integrator.objects.ids@.contains(k) && k != id),
        forall|k: usize|
            #[trigger] cur.damping.objects.ids@.contains(k) == (pre.damping.objects.ids@.contains(
                k,
            ) && k != id),
        forall|k: usize|
            #[trigger] cur.ccd.objects.ids@.contains(k) == (pre.ccd.objects.ids@.contains(k) && k
                != id),
    ensures
        cur.wf(),
{
    let b0 = pre.bodies@;
    let b1 = cur.bodies@;
    let pairs0 = pre.narrow.broad_phase.pairs@;
    let pairs1 = cur.narrow.broad_phase.pairs@;
    assert forall|i: int|
        0 <= i < b1.len() && b1[i] is Some && b1[i]->Some_0 is RB implies (
    #[trigger] b1[i])->Some_0.rb().wf() by {
        if i != id as int {
            assert(b1[i] == b0[i]);
        }
    }
    lemma_pairs_without_ok(pairs0, id);
    assert forall|k: int| 0 <= k < pairs1.len() implies pair_ok(#[trigger] pairs1[k], b1) by {
        assert(pairs0.contains(pairs1[k]) && pairs1[k].a != id && pairs1[k].b != id);
        let w = choose|w: int| 0 <= w < pairs0.len() && pairs0[w] == pairs1[k];
        assert(pair_ok(pairs0[w], b0));
        assert(b1[pairs1[k].a as int] == b0[pairs1[k].a as int]);
        assert(b1[pairs1[k].b as int] == b0[pairs1[k].b as int]);
    }
    assert forall|k1: int, k2: int|
        0 <= k1 < k2 < pairs1.len() implies !(pairs1[k1].a == pairs1[k2].a && pairs1[k1].b
        == pairs1[k2].b) by {
        lemma_pairs_without_distinct(pairs0, id);
    }
    assert forall|i: int, j: int|
        0 <= i < j < b1.len() && present(b1, i) && present(b1, j) && is_valid_sp(
            i as usize,
            j as usize,
            #[trigger] body_of(b1, i),
            #[trigger] body_of(b1, j),
        ) implies has_pair(pairs1, i as usize, j as usize) by {
        assert(i != id && j != id);
        assert(b1[i] == b0[i] && b1[j] == b0[j]);
        assert(is_valid_sp(i as usize, j as usize, body_of(b0, i), body_of(b0, j)));
        assert(has_pair(pairs0, i as usize, j as usize));
        let w = choose|w: int|
            0 <= w < pairs0.len() && pairs0[w].a == i as usize && pairs0[w].b == j as usize;
        assert(pairs0[w].a != id && pairs0[w].b != id);
        assert(pairs_without(pairs0, id).contains(pairs0[w]));
        let w2 = choose|w2: int| 0 <= w2 < pairs1.len() && pairs1[w2] == pairs0[w];
        assert(pairs1[w2].a == i as usize && pairs1[w2].b == j as usize);
    }
    crate::joint::lemma_ball_joints_without_sub(pre.joints.ball_joints@, id);
    crate::joint::lemma_ball_joints_without_clean(pre.joints.ball_joints@, id);
    crate::joint::lemma_fixed_joints_without_sub(pre.joints.fixed_joints@, id);
    crate::joint::lemma_fixed_joints_without_clean(pre.joints.fixed_joints@, id);
    assert forall|k: int|
        0 <= k < cur.joints.ball_joints@.len() implies (#[trigger] cur.joints.ball_joints@[k]).wf(
        b1,
    ) by {
        let j = cur.joints.ball_joints@[k];
        assert(pre.joints.ball_joints@.contains(j));
        let w = choose|w: int|
            0 <= w < pre.joints.ball_joints@.len() && pre.joints.ball_joints@[w] == j;
        assert(j.wf(b0));
        assert(!j.references(id));
        match j.anchor1.body {
            Some(a) => {
                assert(a != id);
                assert(b1[a as int] == b0[a as int]);
            },
            None => {},
        }
        match j.anchor2.body {
            Some(a) => {
                assert(a != id);
                assert(b1[a as int] == b0[a as int]);
            },
            None => {},
        }
    }
    assert forall|k: int|
        0 <= k < cur.joints.fixed_joints@.len() implies (#[trigger] cur.joints.fixed_joints@[k]).wf(
        b1,
    ) by {
        let j = cur.joints.fixed_joints@[k];
        assert(pre.joints.fixed_joints@.contains(j));
        let w = choose|w: int|
            0 <= w < pre.joints.fixed_joints@.len() && pre.joints.fixed_joints@[w] == j;
        assert(j.wf(b0));
        assert(!j.references(id));
        match j.anchor1.body {
            Some(a) => {
                assert(a != id);
                assert(b1[a as int] == b0[a as int]);
            },
            None => {},
        }
        match j.anchor2.body {
            Some(a) => {
                assert(a != id);
                assert(b1[a as int] == b0[a as int]);
            },
            None => {},
        }
    }
    lemma_sync_remove(pre.forces.objects.ids@, cur.forces.objects.ids@, b0, b1, id);
    lemma_sync_remove(pre.integrator.objects.ids@, cur.integrator.objects.ids@, b0, b1, id);
    lemma_sync_remove(pre.damping.objects.ids@, cur.damping.objects.ids@, b0, b1, id);
    lemma_sync_remove(pre.ccd.objects.ids@, cur.ccd.objects.ids@, b0, b1, id);
    assert(!(life_after(pre.signals.log@, id) is Absent));
    lemma_log_wf_push(pre.signals.log@, Event::BodyRemoved { id });
    assert forall|x: usize|
        #[trigger] life_after(cur.signals.log@, x) == expected_life(b1, x) by {
        lemma_life_after_push(pre.signals.log@, Event::BodyRemoved { id }, x);
        if x != id {
            if (x as int) < b0.len() {
                assert(b1[x as int] == b0[x as int]);
            }
        }
    }
}

/// Distinct survivors: removal keeps the no-duplicate discipline.
proof fn lemma_pairs_without_distinct(s: Seq<crate::broad_phase::Pair>, id: usize)
    requires
        forall|k1: int, k2: int|
            0 <= k1 < k2 < s.len() ==> !(s[k1].a == s[k2].a && s[k1].b == s[k2].b),
    ensures
        forall|k1: int, k2: int|
            0 <= k1 < k2 < pairs_without(s, id).len() ==> !(pairs_without(s, id)[k1].a
                == pairs_without(s, id)[k2].a && pairs_without(s, id)[k1].b == pairs_without(
                s,
                id,
            )[k2].b),
    decreases s.len(),
{
    if s.len() > 0 {
        lemma_pairs_without_distinct(s.drop_last(), id);
        let pre = pairs_without(s.drop_last(), id);
        let res = pairs_without(s, id);
        if res.len() > pre.len() {
            lemma_pairs_without_ok(s.drop_last(), id);
            assert forall|k1: int, k2: int|
                0 <= k1 < k2 < res.len() implies !(res[k1].a == res[k2].a && res[k1].b
                == res[k2].b) by {
                if k2 < pre.len() {
                    assert(res[k1] == pre[k1] && res[k2] == pre[k2]);
                } else {
                    assert(res[k2] == s.last());
                    assert(res[k1] == pre[k1]);
                    assert(s.drop_last().contains(pre[k1]));
                    let w = choose|w: int|
                        0 <= w < s.drop_last().len() && s.drop_last()[w] == pre[k1];
                    assert(s[w] == pre[k1]);
                    assert(s[s.len() - 1] == s.last());
                }
            }
        }
    }
}

impl World {
    /// Takes a body out of the world: its pairs and joints are purged,
    /// every stage forgets it, `body_removed` is emitted, and — when the
    /// body was asleep — every sleeping movable neighbor under its bounding
    /// volume is woken, with `body_activated` emitted for each, before this
    /// call returns. Each woken neighbor's pairs are refreshed through the
    /// narrow phase's activation fan-in; the constraints that surfaces are
    /// dropped here, since the next step regenerates them from the
    /// refreshed table. The slot stays a hole forever, so a stale handle
    /// can never reach another body.
    pub fn remove_body(&mut self, id: usize)
        requires
            old(self).wf(),
            id < old(self).bodies@.len(),
            old(self).bodies@[id as int] is Some,
        ensures
            final(self).wf(),
            final(self).bodies@.len() == old(self).bodies@.len(),
            final(self).bodies@[id as int] is None,
            forall|i: int|
                0 <= i < old(self).bodies@.len() && i != id ==> final(self).bodies@[i] == wake_slot(
                    #[trigger] old(self).bodies@[i],
                    removal_wake_list(old(self).bodies@, id).contains(i as usize),
                ),
            final(self).signals.log@ == old(self).signals.log@.push(Event::BodyRemoved { id })
                + removal_wake_list(old(self).bodies@, id).map(
                |k: int, h: usize| Event::BodyActivated { id: h },
            ),
            final(self).joints.ball_joints@ == crate::joint::ball_joints_without(
                old(self).joints.ball_joints@,
                id,
            ),
            final(self).joints.fixed_joints@ == crate::joint::fixed_joints_without(
                old(self).joints.fixed_joints@,
                id,
            ),
            final(self).joints.clean_of(id),
            final(self).forces.objects.ids@ == crate::tracked_set::ids_without(
                old(self).forces.objects.ids@,
                id,
            ) + removal_wake_list(old(self).bodies@, id),
            final(self).integrator.objects.ids@ == crate::tracked_set::ids_without(
                old(self).integrator.objects.ids@,
                id,
            ) + removal_wake_list(old(self).bodies@, id),
            final(self).damping.objects.ids@ == crate::tracked_set::ids_without(
                old(self).damping.objects.ids@,
                id,
            ) + removal_wake_list(old(self).bodies@, id),
            final(self).ccd.objects.ids@ == crate::tracked_set::ids_without(
                old(self).ccd.objects.ids@,
                id,
            ) + removal_wake_list(old(self).bodies@, id),
            final(self).narrow.broad_phase.pairs@.len() == pairs_without(
                old(self).narrow.broad_phase.pairs@,
                id,
            ).len(),
            forall|k: int|
                0 <= k < final(self).narrow.broad_phase.pairs@.len()
                    ==> (#[trigger] final(self).narrow.broad_phase.pairs@[k]).a == pairs_without(
                    old(self).narrow.broad_phase.pairs@,
                    id,
                )[k].a && final(self).narrow.broad_phase.pairs@[k].b == pairs_without(
                    old(self).narrow.broad_phase.pairs@,
                    id,
                )[k].b,
            final(self).constraints == old(self).constraints,
            final(self).forces.lin_acc == old(self).forces.lin_acc,
            final(self).forces.ang_acc == old(self).forces.ang_acc,
    {
        let ghost b0 = self.bodies@;
        let ghost pairs0 = self.narrow.broad_phase.pairs@;
        let ghost rwl = removal_wake_list(b0, id);
        let n = self.bodies.len();
        proof {
            assert(b0.len() == n as int);
        }

        // Queue the sleeping neighbors to wake and prune the leaving body's
        // pairs, then take the queue over.
        self.narrow.remove(id, &self.bodies, &mut self.signals);
        let pending = self.signals.take_pending_activations();
        proof {
            assert(pending@ =~= rwl);
        }

        // Purge the joints anchored to the body, drop it from every stage,
        // turn its slot into a hole, and announce the removal.
        self.joints.handle_body_removed(id);
        self.forces.remove(id);
        self.integrator.remove(id);
        self.damping.remove(id);
        self.ccd.remove(id);
        self.bodies.set(id, None);
        self.signals.emit(Event::BodyRemoved { id });
        proof {
            lemma_tracks_bridge_rm(old(self).forces.objects, self.forces.objects, id);
            lemma_tracks_bridge_rm(old(self).integrator.objects, self.integrator.objects, id);
            lemma_tracks_bridge_rm(old(self).damping.objects, self.damping.objects, id);
            lemma_tracks_bridge_rm(old(self).ccd.objects, self.ccd.objects, id);
            assert(b0.len() <= usize::MAX);
            lemma_wf_remove(*old(self), *self, id);
            lemma_removal_wake_ok(b0, id);
        }

        // Honor the queued reactivations, in slot order: each sleeping
        // neighbor wakes, its signal is emitted, every stage tracks it
        // again, and the narrow phase refreshes its pairs.
        let mut scratch: Vec<Constraint> = Vec::new();
        let mut k: usize = 0;
        while k < pending.len()
            invariant
                0 <= k <= rwl.len(),
                pending@ == rwl,
                b0 == old(self).bodies@,
                pairs0 == old(self).narrow.broad_phase.pairs@,
                rwl == removal_wake_list(b0, id),
                id < b0.len(),
                n as int == b0.len(),
                self.wf(),
                self.bodies@.len() == b0.len(),
                self.bodies@[id as int] is None,
                forall|i: int|
                    0 <= i < b0.len() && i != id ==> self.bodies@[i] == wake_slot(
                        #[trigger] b0[i],
                        rwl.take(k as int).contains(i as usize),
                    ),
                self.signals.log@ == old(self).signals.log@.push(Event::BodyRemoved { id })
                    + rwl.take(k as int).map(|k2: int, h: usize| Event::BodyActivated { id: h }),
                self.forces.objects.ids@ == crate::tracked_set::ids_without(
                    old(self).forces.objects.ids@,
                    id,
                ) + rwl.take(k as int),
                self.integrator.objects.ids@ == crate::tracked_set::ids_without(
                    old(self).integrator.objects.ids@,
                    id,
                ) + rwl.take(k as int),
                self.damping.objects.ids@ == crate::tracked_set::ids_without(
                    old(self).damping.objects.ids@,
                    id,
                ) + rwl.take(k as int),
                self.ccd.objects.ids@ == crate::tracked_set::ids_without(
                    old(self).ccd.objects.ids@,
                    id,
                ) + rwl.take(k as int),
                self.joints.ball_joints@ == crate::joint::ball_joints_without(
                    old(self).joints.ball_joints@,
                    id,
                ),
                self.joints.fixed_joints@ == crate::joint::fixed_joints_without(
                    old(self).joints.fixed_joints@,
                    id,
                ),
                self.joints.clean_of(id),
                self.narrow.broad_phase.pairs@.len() == pairs_without(pairs0, id).len(),
                forall|k2: int|
                    0 <= k2 < self.narrow.broad_phase.pairs@.len()
                        ==> (#[trigger] self.narrow.broad_phase.pairs@[k2]).a == pairs_without(
                        pairs0,
                        id,
                    )[k2].a && self.narrow.broad_phase.pairs@[k2].b == pairs_without(
                        pairs0,
                        id,
                    )[k2].b,
                self.constraints == old(self).constraints,
                self.forces.lin_acc == old(self).forces.lin_acc,
                self.forces.ang_acc == old(self).forces.ang_acc,
            decreases rwl.len() - k,
        {
            let h = pending[k];
            proof {
                lemma_removal_wake_ok(b0, id);
                assert(rwl[k as int] == h);
                assert(rwl.contains(h));
                assert(h != id);
                assert(!rwl.take(k as int).contains(h)) by {
                    if rwl.take(k as int).contains(h) {
                        let w = choose|w: int| 0 <= w < k && rwl.take(k as int)[w] == h;
                        assert(rwl[w] == h);
                        assert((rwl[w] as int) < (rwl[k as int] as int));
                    }
                }
                assert(self.bodies@[h as int] == wake_slot(b0[h as int], false));
                assert(self.bodies@[h as int] == b0[h as int]);
            }
            let ghost wpre = *self;
            let slot = self.bodies[h];
            match slot {
                Some(Body::RB(rb)) => {
                    let woke = crate::object::RigidBody {
                        activation: crate::object::ActivationState {
                            active: true,
                            energy: crate::object::ENERGY_LIMIT,
                            ..rb.activation
                        },
                        ..rb
                    };
                    self.bodies.set(h, Some(Body::RB(woke)));
                    self.signals.emit(Event::BodyActivated { id: h });
                    self.forces.add(h);
                    self.integrator.add(h);
                    self.damping.add(h);
                    self.ccd.add(h);
                    proof {
                        assert(!wpre.forces.objects.ids@.contains(h));
                        assert(!wpre.integrator.objects.ids@.contains(h));
                        assert(!wpre.damping.objects.ids@.contains(h));
                        assert(!wpre.ccd.objects.ids@.contains(h));
                        lemma_tracks_bridge(wpre.forces.objects, self.forces.objects, h, true);
                        lemma_tracks_bridge(
                            wpre.integrator.objects,
                            self.integrator.objects,
                            h,
                            true,
                        );
                        lemma_tracks_bridge(wpre.damping.objects, self.damping.objects, h, true);
                        lemma_tracks_bridge(wpre.ccd.objects, self.ccd.objects, h, true);
                        lemma_wf_activate(wpre, *self, h);
                        lemma_take_push(rwl, k as int);
                        assert forall|i: int|
                            0 <= i < b0.len() && i != id implies self.bodies@[i] == wake_slot(
                            #[trigger] b0[i],
                            rwl.take(k + 1).contains(i as usize),
                        ) by {
                            if i != h as int {
                                assert(rwl.take(k + 1).contains(i as usize) == rwl.take(
                                    k as int,
                                ).contains(i as usize));
                                assert(self.bodies@[i] == wpre.bodies@[i]);
                            }
                        }
                        assert(self.signals.log@ =~= old(self).signals.log@.push(
                            Event::BodyRemoved { id },
                        ) + rwl.take(k + 1).map(|k2: int, h2: usize| Event::BodyActivated { id: h2 }))
                            by {
                            assert(rwl.take(k + 1).map(
                                |k2: int, h2: usize| Event::BodyActivated { id: h2 },
                            ) =~= rwl.take(k as int).map(
                                |k2: int, h2: usize| Event::BodyActivated { id: h2 },
                            ).push(Event::BodyActivated { id: h }));
                        }
                        assert(self.forces.objects.ids@ =~= crate::tracked_set::ids_without(
                            old(self).forces.objects.ids@,
                            id,
                        ) + rwl.take(k + 1));
                        assert(self.integrator.objects.ids@ =~= crate::tracked_set::ids_without(
                            old(self).integrator.objects.ids@,
                            id,
                        ) + rwl.take(k + 1));
                        assert(self.damping.objects.ids@ =~= crate::tracked_set::ids_without(
                            old(self).damping.objects.ids@,
                            id,
                        ) + rwl.take(k + 1));
                        assert(self.ccd.objects.ids@ =~= crate::tracked_set::ids_without(
                            old(self).ccd.objects.ids@,
                            id,
                        ) + rwl.take(k + 1));
                    }
                    let ghost wmid = *self;
                    self.narrow.handle_body_activated_signal(h, &self.bodies, &mut scratch);
                    proof {
                        assert forall|k2: int|
                            0 <= k2 < self.narrow.broad_phase.pairs@.len()
                                implies (#[trigger] self.narrow.broad_phase.pairs@[k2]).a
                            == wmid.narrow.broad_phase.pairs@[k2].a
                            && self.narrow.broad_phase.pairs@[k2].b
                            == wmid.narrow.broad_phase.pairs@[k2].b by {
                            assert(self.narrow.broad_phase.pairs@[k2]
                                == crate::bodies_bodies::pair_activated(
                                wmid.narrow.broad_phase.pairs@[k2],
                                wmid.bodies@,
                                h,
                            ));
                        }
                        lemma_complete_same_pairs(
                            wmid.narrow.broad_phase.pairs@,
                            self.narrow.broad_phase.pairs@,
                            self.bodies@,
                        );
                        assert(self.wf());
                    }
                },
                _ => {
                    proof {
                        assert(false);
                    }
                },
            }
            k += 1;
        }
        proof {
            assert(rwl.take(rwl.len() as int) =~= rwl);
        }
    }
}

} // verus!
