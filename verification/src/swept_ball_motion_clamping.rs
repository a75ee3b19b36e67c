//! Continuous collision detection: for each flagged body, the motion the
//! velocities would produce this step is swept as a ball of the body's
//! safety margin against every plane in the world; if a time of impact
//! inside the step is found, the velocity is scaled so the position update
//! stops at the impact. It runs after the velocity integrator and before
//! the world integrates positions, so the clamp still shapes the positions.

use vstd::prelude::*;
use vstd::arithmetic::div_mod::{lemma_div_pos_is_pos, lemma_multiply_divide_lt};
use crate::bodies_bodies::bodies_wf;
use crate::body_damping::tracked_ok;
use crate::broad_phase::{body_of, present};
use crate::fx::{
    div_trunc, div_tz, is_sqrt_floor, isqrt, lemma_div_tz_bound, lemma_fx_mul_shrinks,
    lemma_mul_bound, sqrt_floor, DT_LIMIT, NORM_LIMIT, POS_LIMIT, SCALE, VEL_LIMIT,
};
use crate::geom::Geom;
use crate::object::{Body, RigidBody};
use crate::signal::SignalEmitter;
use crate::tracked_set::TrackedSet;
use crate::vect::Vect;

verus! {

/// The time of impact, as a fraction of the step in `[0, SCALE)`, of a ball
/// of radius `r` at `c` moving by `m`, against the plane through `p` with
/// normal `n`: present exactly when the ball starts outside and would end
/// inside.
pub open spec fn toi_sp(c: Vect, m: Vect, r: i64, p: Vect, n: Vect) -> Option<i64> {
    let nlen = sqrt_floor(n.norm_sq_sp());
    let d0 = n.dot_sp(c.sub_sp(p));
    let dm = n.dot_sp(m);
    let rn = r * nlen;
    if d0 >= rn && d0 + dm < rn {
        Some(div_tz((d0 - rn) * SCALE, -dm) as i64)
    } else {
        None
    }
}

/// The exact time of impact of a swept ball against one plane.
pub fn toi(c: Vect, m: Vect, r: i64, p: Vect, n: Vect) -> (res: Option<i64>)
    requires
        c.bounded(POS_LIMIT as int),
        m.bounded(0x4000_0000),
        p.bounded(POS_LIMIT as int),
        0 <= r <= POS_LIMIT,
        n.bounded(NORM_LIMIT as int),
        !n.is_zero(),
    ensures
        res == toi_sp(c, m, r, p, n),
        res is Some ==> 0 <= res->Some_0 < SCALE,
{
    let nn: i64 = n.norm_sq();
    proof {
        lemma_mul_bound(n.x as int, n.x as int, NORM_LIMIT as int, NORM_LIMIT as int);
        lemma_mul_bound(n.y as int, n.y as int, NORM_LIMIT as int, NORM_LIMIT as int);
        lemma_mul_bound(n.z as int, n.z as int, NORM_LIMIT as int, NORM_LIMIT as int);
        assert(nn >= 1) by (nonlinear_arith)
            requires
                nn == n.x * n.x + n.y * n.y + n.z * n.z,
                !(n.x == 0 && n.y == 0 && n.z == 0);
    }
    let nlen: i64 = isqrt(nn as u64) as i64;
    let d = c.sub(p);
    let d0: i64 = n.dot(d);
    let dm: i64 = n.dot(m);
    proof {
        assert(is_sqrt_floor(nlen as int, nn as int));
        assert(nlen >= 1) by (nonlinear_arith)
            requires is_sqrt_floor(nlen as int, nn as int), nn >= 1;
        assert(nlen <= 0x40_0000) by (nonlinear_arith)
            requires is_sqrt_floor(nlen as int, nn as int), nn <= 0x1000_0000_0000;
        lemma_mul_bound(r as int, nlen as int, POS_LIMIT as int, 0x40_0000);
        lemma_mul_bound(n.x as int, d.x as int, NORM_LIMIT as int, 0x4000_0000);
        lemma_mul_bound(n.y as int, d.y as int, NORM_LIMIT as int, 0x4000_0000);
        lemma_mul_bound(n.z as int, d.z as int, NORM_LIMIT as int, 0x4000_0000);
        lemma_mul_bound(n.x as int, m.x as int, NORM_LIMIT as int, 0x4000_0000);
        lemma_mul_bound(n.y as int, m.y as int, NORM_LIMIT as int, 0x4000_0000);
        lemma_mul_bound(n.z as int, m.z as int, NORM_LIMIT as int, 0x4000_0000);
    }
    let rn: i64 = r * nlen;
    if d0 >= rn && d0 + dm < rn {
        proof {
            assert(dm < 0);
            lemma_mul_bound((d0 - rn) as int, SCALE as int, 0x40_0000_0000_0000, SCALE as int);
            lemma_div_pos_is_pos(((d0 - rn) as int) * (SCALE as int), -dm as int);
            assert(((d0 - rn) as int) * (SCALE as int) < (-dm as int) * (SCALE as int))
                by (nonlinear_arith)
                requires d0 - rn < -dm, SCALE > 0;
            lemma_multiply_divide_lt(
                ((d0 - rn) as int) * (SCALE as int),
                -dm as int,
                SCALE as int,
            );
        }
        let num: i64 = (d0 - rn) * SCALE;
        let t: i64 = div_trunc(num, -dm);
        Some(t)
    } else {
        None
    }
}

/// The earliest time of impact of a swept ball against every plane in the
/// slots below `upto`.
pub open spec fn min_toi(
    bodies: Seq<Option<Body>>,
    c: Vect,
    m: Vect,
    margin: i64,
    upto: int,
) -> Option<i64>
    decreases upto,
{
    if upto <= 0 {
        None
    } else {
        let pre = min_toi(bodies, c, m, margin, upto - 1);
        let j = upto - 1;
        let cur = if present(bodies, j) && body_of(bodies, j) is RB && body_of(
            bodies,
            j,
        ).rb().geom is Plane {
            toi_sp(c, m, margin, body_of(bodies, j).rb().position, body_of(bodies, j).rb().geom->Plane_normal)
        } else {
            None
        };
        match (pre, cur) {
            (Option::None, c2) => c2,
            (Option::Some(a), Option::None) => Some(a),
            (Option::Some(a), Option::Some(b)) => Some(if a <= b { a } else { b }),
        }
    }
}

/// A flagged body after the clamp: if its swept motion hits a plane inside
/// the step, the velocity is scaled by the impact fraction, so this step's
/// position update stops at the impact point.
pub open spec fn ccd_rb(rb: RigidBody, bodies: Seq<Option<Body>>, dt: int) -> RigidBody {
    if !rb.ccd_enabled {
        rb
    } else {
        let m = rb.lin_vel.scale_sp(dt);
        match min_toi(bodies, rb.position, m, rb.ccd_margin, bodies.len() as int) {
            Option::Some(t) => RigidBody { lin_vel: rb.lin_vel.scale_sp(t as int), ..rb },
            Option::None => rb,
        }
    }
}

/// The clamp applied to the tracked handles below `k`, one after the other,
/// each reading the state the previous ones left.
pub open spec fn ccd_step(
    bodies: Seq<Option<Body>>,
    ids: Seq<usize>,
    dt: int,
    k: int,
) -> Seq<Option<Body>>
    decreases k,
{
    if k <= 0 {
        bodies
    } else {
        let pre = ccd_step(bodies, ids, dt, k - 1);
        let id = ids[k - 1];
        if present(pre, id as int) && body_of(pre, id as int) is RB {
            pre.update(id as int, Some(Body::RB(ccd_rb(body_of(pre, id as int).rb(), pre, dt))))
        } else {
            pre
        }
    }
}

/// The clamp only ever rescales a body's linear velocity toward zero:
/// every other field, and every slot without a rigid body, is untouched.
pub open spec fn vel_clamped_only(s0: Option<Body>, s1: Option<Body>) -> bool {
    if s0 is Some && s0->Some_0 is RB {
        &&& s1 is Some && s1->Some_0 is RB
        &&& s1->Some_0.rb() == (RigidBody { lin_vel: s1->Some_0.rb().lin_vel, ..s0->Some_0.rb() })
        &&& crate::fx::mag_le(s1->Some_0.rb().lin_vel.x as int, s0->Some_0.rb().lin_vel.x as int)
        &&& crate::fx::mag_le(s1->Some_0.rb().lin_vel.y as int, s0->Some_0.rb().lin_vel.y as int)
        &&& crate::fx::mag_le(s1->Some_0.rb().lin_vel.z as int, s0->Some_0.rb().lin_vel.z as int)
    } else {
        s1 == s0
    }
}

/// The motion of one step stays inside the dot product's working range.
proof fn lemma_motion_bounded(v: Vect, dt: int)
    requires
        v.bounded(VEL_LIMIT as int),
        0 < dt <= DT_LIMIT,
    ensures
        v.scale_sp(dt).bounded(0x4000_0000),
{
    lemma_mul_bound(v.x as int, dt, VEL_LIMIT as int, DT_LIMIT as int);
    lemma_mul_bound(v.y as int, dt, VEL_LIMIT as int, DT_LIMIT as int);
    lemma_mul_bound(v.z as int, dt, VEL_LIMIT as int, DT_LIMIT as int);
    lemma_div_tz_bound((v.x as int) * dt, SCALE as int, 0x4000_0000);
    lemma_div_tz_bound((v.y as int) * dt, SCALE as int, 0x4000_0000);
    lemma_div_tz_bound((v.z as int) * dt, SCALE as int, 0x4000_0000);
}

/// The swept-ball motion clamping stage.
pub struct SweptBallMotionClamping {
    pub objects: TrackedSet,
}

impl SweptBallMotionClamping {
    pub open spec fn wf(self) -> bool {
        self.objects.wf()
    }

    pub fn new(events: &mut SignalEmitter, key: usize) -> (r: SweptBallMotionClamping)
        requires
            old(events).handlers_wf(),
        ensures
            r.wf(),
            r.objects.ids@ =~= Seq::<usize>::empty(),
            final(events).handlers_wf(),
            final(events).handlers@.contains(key),
            final(events).log == old(events).log,
            final(events).pending_activations == old(events).pending_activations,
    {
        events.add_body_activation_handler(key);
        SweptBallMotionClamping { objects: TrackedSet::new() }
    }

    pub fn add(&mut self, id: usize)
        requires
            old(self).wf(),
        ensures
            final(self).wf(),
            final(self).objects.tracks(id),
            final(self).objects.ids@ == if old(self).objects.tracks(id) {
                old(self).objects.ids@
            } else {
                old(self).objects.ids@.push(id)
            },
            forall|k: usize| k != id ==> final(self).objects.tracks(k) == old(self).objects.tracks(k),
    {
        self.objects.insert(id);
    }

    pub fn remove(&mut self, id: usize)
        requires
            old(self).wf(),
        ensures
            final(self).wf(),
            !final(self).objects.tracks(id),
            final(self).objects.ids@ == crate::tracked_set::ids_without(
                old(self).objects.ids@,
                id,
            ),
            forall|k: usize| k != id ==> final(self).objects.tracks(k) == old(self).objects.tracks(k),
    {
        self.objects.remove(id);
    }

    /// One clamping pass over the tracked handles, in tracking order.
    pub fn update(&mut self, dt: i64, bodies: &mut Vec<Option<Body>>)
        requires
            old(self).wf(),
            0 < dt <= DT_LIMIT,
            bodies_wf(old(bodies)@),
            tracked_ok(old(self).objects.ids@, old(bodies)@),
        ensures
            *final(self) == *old(self),
            final(bodies)@ == ccd_step(
                old(bodies)@,
                old(self).objects.ids@,
                dt as int,
                old(self).objects.ids@.len() as int,
            ),
            final(bodies)@.len() == old(bodies)@.len(),
            bodies_wf(final(bodies)@),
            forall|i: int|
                0 <= i < old(bodies)@.len() ==> vel_clamped_only(
                    #[trigger] old(bodies)@[i],
                    final(bodies)@[i],
                ),
    {
        let ghost bodies0 = bodies@;
        let ghost ids = self.objects.ids@;
        let mut k: usize = 0;
        while k < self.objects.ids.len()
            invariant
                0 <= k <= ids.len(),
                0 < dt <= DT_LIMIT,
                self == old(self),
                self.wf(),
                ids == self.objects.ids@,
                bodies_wf(bodies@),
                tracked_ok(ids, bodies@),
                bodies@.len() == bodies0.len(),
                bodies@ == ccd_step(bodies0, ids, dt as int, k as int),
                forall|i: int|
                    0 <= i < bodies0.len() ==> vel_clamped_only(
                        #[trigger] bodies0[i],
                        bodies@[i],
                    ),
            decreases ids.len() - k,
        {
            let id = self.objects.ids[k];
            proof {
                assert(ids[k as int] == id);
            }
            match &bodies[id] {
                Some(Body::RB(rb)) => {
                    let rbc = *rb;
                    if rbc.ccd_enabled {
                        proof {
                            lemma_motion_bounded(rbc.lin_vel, dt as int);
                        }
                        let m = rbc.lin_vel.scale(dt);
                        let mut best: Option<i64> = None;
                        let mut j: usize = 0;
                        while j < bodies.len()
                            invariant
                                0 <= j <= bodies@.len(),
                                bodies_wf(bodies@),
                                m.bounded(0x4000_0000),
                                rbc.wf(),
                                best == min_toi(bodies@, rbc.position, m, rbc.ccd_margin, j as int),
                                best is Some ==> 0 <= best->Some_0 < SCALE,
                            decreases bodies@.len() - j,
                        {
                            match &bodies[j] {
                                Some(Body::RB(other)) => {
                                    match &other.geom {
                                        Geom::Plane { normal } => {
                                            let cand = toi(
                                                rbc.position,
                                                m,
                                                rbc.ccd_margin,
                                                other.position,
                                                *normal,
                                            );
                                            match (best, cand) {
                                                (None, c2) => {
                                                    best = c2;
                                                },
                                                (Some(a), Some(b)) => {
                                                    best = Some(if a <= b { a } else { b });
                                                },
                                                (Some(_), None) => (),
                                            }
                                        },
                                        _ => (),
                                    }
                                },
                                _ => (),
                            }
                            j += 1;
                        }
                        match best {
                            Some(t) => {
                                proof {
                                    lemma_fx_mul_shrinks(rbc.lin_vel.x as int, t as int);
                                    lemma_fx_mul_shrinks(rbc.lin_vel.y as int, t as int);
                                    lemma_fx_mul_shrinks(rbc.lin_vel.z as int, t as int);
                                }
                                let clamped = RigidBody { lin_vel: rbc.lin_vel.scale(t), ..rbc };
                                bodies.set(id, Some(Body::RB(clamped)));
                            },
                            None => {
                                bodies.set(id, Some(Body::RB(rbc)));
                            },
                        }
                    } else {
                        bodies.set(id, Some(Body::RB(rbc)));
                    }
                },
                _ => {
                    proof {
                        assert(false);
                    }
                },
            }
            proof {
                assert(bodies@ =~= ccd_step(bodies0, ids, dt as int, k + 1));
                assert forall|w: int|
                    0 <= w < ids.len() implies {
                    let wid = #[trigger] ids[w];
                    present(bodies@, wid as int) && body_of(bodies@, wid as int) is RB && body_of(
                        bodies@,
                        wid as int,
                    ).rb().is_active_sp() && !body_of(bodies@, wid as int).rb().is_static()
                } by {
                    assert(tracked_ok(ids, ccd_step(bodies0, ids, dt as int, k as int)));
                }
            }
            k += 1;
        }
    }

    /// Motion clamping runs after every velocity-writing integrator.
    pub fn priority(&self) -> (r: i64)
        ensures
            r == 150,
    {
        150
    }

    pub fn handle_body_activated_signal(&mut self, id: usize)
        requires
            old(self).wf(),
        ensures
            final(self).wf(),
            final(self).objects.tracks(id),
            final(self).objects.ids@ == if old(self).objects.tracks(id) {
                old(self).objects.ids@
            } else {
                old(self).objects.ids@.push(id)
            },
            forall|k: usize| k != id ==> final(self).objects.tracks(k) == old(self).objects.tracks(k),
    {
        self.add(id)
    }

    pub fn handle_body_deactivated_signal(&mut self, id: usize)
        requires
            old(self).wf(),
        ensures
            final(self).wf(),
            !final(self).objects.tracks(id),
            final(self).objects.ids@ == crate::tracked_set::ids_without(
                old(self).objects.ids@,
                id,
            ),
            forall|k: usize| k != id ==> final(self).objects.tracks(k) == old(self).objects.tracks(k),
    {
        self.remove(id)
    }
}

} // verus!
