//! The narrow phase: keeps the pairwise detectors of the broad-phase pair
//! table up to date, announces collision starts and ends, collects contact
//! constraints for the solver, and keeps sleeping islands honest when a
//! body is pulled out from under its neighbors.

use vstd::prelude::*;
use crate::broad_phase::{
    body_of, bv_hits, lemma_bv_hits_ok, pair_ok, pairs_added, pairs_wf, pairs_without, present,
    BroadPhase, Pair,
};
use crate::constraint::Constraint;
use crate::geom::aabb_sp;
use crate::object::Body;
use crate::pairwise::{Dispatcher, GeomGeom, PairwiseDetector};
use crate::signal::{Event, SignalEmitter};

verus! {

/// A rigid body in slot `i` that is awake.
pub open spec fn active_at(bodies: Seq<Option<Body>>, i: int) -> bool {
    present(bodies, i) && body_of(bodies, i).is_active_sp()
}

/// A pair's detector recomputed from the two current poses, whatever the
/// activation states.
pub open spec fn pair_refresh(p: Pair, bodies: Seq<Option<Body>>) -> Pair {
    if p.det is GG && present(bodies, p.a as int) && present(bodies, p.b as int) && body_of(
        bodies,
        p.a as int,
    ) is RB && body_of(bodies, p.b as int) is RB {
        let ra = body_of(bodies, p.a as int).rb();
        let rb = body_of(bodies, p.b as int).rb();
        Pair {
            det: PairwiseDetector::GG(
                GeomGeom { contact: crate::geom::collide_sp(ra.geom, ra.position, rb.geom, rb.position) },
            ),
            ..p
        }
    } else {
        p
    }
}

/// What one update pass does to a pair: a pair of two sleeping bodies is
/// frozen; any other pair is refreshed.
pub open spec fn pair_updated(p: Pair, bodies: Seq<Option<Body>>) -> Pair {
    if active_at(bodies, p.a as int) || active_at(bodies, p.b as int) {
        pair_refresh(p, bodies)
    } else {
        p
    }
}

/// The number of contacts a detector holds.
pub open spec fn det_colls(det: PairwiseDetector) -> int {
    match det {
        PairwiseDetector::GG(gg) => if gg.contact is Some { 1int } else { 0int },
        PairwiseDetector::Unsupported => 0,
    }
}

/// The collision signals one update pass emits for the pairs below `upto`,
/// in table order: a start when a pair gains its first contact, an end when
/// it loses its last.
pub open spec fn collision_events(pairs: Seq<Pair>, bodies: Seq<Option<Body>>, upto: int) -> Seq<
    Event,
>
    decreases upto,
{
    if upto <= 0 {
        Seq::empty()
    } else {
        let pre = collision_events(pairs, bodies, upto - 1);
        let p = pairs[upto - 1];
        let q = pair_updated(p, bodies);
        if det_colls(p.det) == 0 && det_colls(q.det) > 0 {
            pre.push(Event::CollisionStarted { a: p.a, b: p.b })
        } else if det_colls(p.det) > 0 && det_colls(q.det) == 0 {
            pre.push(Event::CollisionEnded { a: p.a, b: p.b })
        } else {
            pre
        }
    }
}

/// The contact constraints the pairs below `upto` contribute, in table
/// order: one per live contact on a pair with at least one body awake.
pub open spec fn contact_constraints(
    pairs: Seq<Pair>,
    bodies: Seq<Option<Body>>,
    upto: int,
) -> Seq<Constraint>
    decreases upto,
{
    if upto <= 0 {
        Seq::empty()
    } else {
        let pre = contact_constraints(pairs, bodies, upto - 1);
        let p = pairs[upto - 1];
        if (active_at(bodies, p.a as int) || active_at(bodies, p.b as int)) && p.det is GG
            && p.det->GG_0.contact is Some {
            pre.push(Constraint::RBRB { a: p.a, b: p.b, contact: p.det->GG_0.contact->Some_0 })
        } else {
            pre
        }
    }
}

/// A reactivated body's pairs, refreshed; other pairs untouched.
pub open spec fn pair_activated(p: Pair, bodies: Seq<Option<Body>>, id: usize) -> Pair {
    if p.a == id || p.b == id {
        pair_refresh(p, bodies)
    } else {
        p
    }
}

/// The fresh contact constraints a reactivation hands to its out-buffer, in
/// table order: one per contact the refreshed pairs of `id` now hold.
pub open spec fn activation_constraints(
    pairs: Seq<Pair>,
    bodies: Seq<Option<Body>>,
    id: usize,
    upto: int,
) -> Seq<Constraint>
    decreases upto,
{
    if upto <= 0 {
        Seq::empty()
    } else {
        let pre = activation_constraints(pairs, bodies, id, upto - 1);
        let p = pairs[upto - 1];
        let q = pair_activated(p, bodies, id);
        if (p.a == id || p.b == id) && q.det is GG && q.det->GG_0.contact is Some {
            pre.push(Constraint::RBRB { a: p.a, b: p.b, contact: q.det->GG_0.contact->Some_0 })
        } else {
            pre
        }
    }
}

/// The sleeping movable neighbors a removal must wake, in slot order: every
/// bounding-volume hit other than the removed body itself that is asleep and
/// dynamic.
pub open spec fn wake_list(
    hits: Seq<usize>,
    bodies: Seq<Option<Body>>,
    id: usize,
    upto: int,
) -> Seq<usize>
    decreases upto,
{
    if upto <= 0 {
        Seq::empty()
    } else {
        let pre = wake_list(hits, bodies, id, upto - 1);
        let h = hits[upto - 1];
        if h != id && present(bodies, h as int) && body_of(bodies, h as int) is RB && !body_of(
            bodies,
            h as int,
        ).rb().is_active_sp() && !body_of(bodies, h as int).rb().is_static() {
            pre.push(h)
        } else {
            pre
        }
    }
}


/// The ray-cast results over the slots below `upto`, in slot order: each
/// present rigid body the ray hits, with the exact fixed-point time of
/// impact against its geometry; misses are omitted.
pub open spec fn ray_hits(
    bodies: Seq<Option<Body>>,
    origin: crate::vect::Vect,
    dir: crate::vect::Vect,
    upto: int,
) -> Seq<(usize, i64)>
    decreases upto,
{
    if upto <= 0 {
        Seq::empty()
    } else {
        let pre = ray_hits(bodies, origin, dir, upto - 1);
        let j = upto - 1;
        if present(bodies, j) && body_of(bodies, j) is RB && crate::geom::ray_toi_sp(
            origin,
            dir,
            body_of(bodies, j).rb().geom,
            body_of(bodies, j).rb().position,
        ) is Some {
            pre.push(
                (
                    j as usize,
                    crate::geom::ray_toi_sp(
                        origin,
                        dir,
                        body_of(bodies, j).rb().geom,
                        body_of(bodies, j).rb().position,
                    )->Some_0,
                ),
            )
        } else {
            pre
        }
    }
}

/// Every body in `bodies` that is rigid is well-formed.
pub open spec fn bodies_wf(bodies: Seq<Option<Body>>) -> bool {
    forall|i: int|
        0 <= i < bodies.len() && bodies[i] is Some && bodies[i]->Some_0 is RB ==> (
        #[trigger] bodies[i])->Some_0.rb().wf()
}

/// The narrow phase stage. It owns the broad-phase pair table; `update_bf`
/// says whether this stage maintains the table on body add and removal, or
/// some other component does.
pub struct BodiesBodies {
    pub broad_phase: BroadPhase,
    pub update_bf: bool,
}

impl BodiesBodies {
    /// A fresh narrow phase, registered on the activation channel under
    /// `key`.
    pub fn new(events: &mut SignalEmitter, key: usize, update_bf: bool) -> (r: BodiesBodies)
        requires
            old(events).handlers_wf(),
        ensures
            r.broad_phase.pairs@ =~= Seq::<Pair>::empty(),
            r.update_bf == update_bf,
            final(events).handlers_wf(),
            final(events).handlers@.contains(key),
            final(events).handlers@ == if old(events).handlers@.contains(key) {
                old(events).handlers@
            } else {
                old(events).handlers@.push(key)
            },
            final(events).log == old(events).log,
            final(events).pending_activations == old(events).pending_activations,
    {
        events.add_body_activation_handler(key);
        BodiesBodies { broad_phase: BroadPhase::new(), update_bf }
    }

    /// Watches a freshly appended body against every valid partner.
    pub fn add(&mut self, id: usize, bodies: &Vec<Option<Body>>, disp: &Dispatcher)
        requires
            id == bodies@.len() - 1,
            bodies@[id as int] is Some,
        ensures
            final(self).update_bf == old(self).update_bf,
            final(self).broad_phase.pairs@ == if old(self).update_bf {
                old(self).broad_phase.pairs@ + pairs_added(bodies@, id, id as int)
            } else {
                old(self).broad_phase.pairs@
            },
    {
        if self.update_bf {
            self.broad_phase.add(id, bodies, disp);
        }
    }

    /// Unwatches a body about to leave the world. If it was asleep, every
    /// sleeping movable neighbor under its bounding volume is requested
    /// awake, so no island stays frozen in mid air on top of a hole.
    pub fn remove(&mut self, id: usize, bodies: &Vec<Option<Body>>, signals: &mut SignalEmitter)
        requires
            bodies_wf(bodies@),
            present(bodies@, id as int),
        ensures
            final(self).update_bf == old(self).update_bf,
            final(self).broad_phase.pairs@ == if old(self).update_bf {
                pairs_without(old(self).broad_phase.pairs@, id)
            } else {
                old(self).broad_phase.pairs@
            },
            final(signals).pending_activations@ == old(signals).pending_activations@ + (
            if body_of(bodies@, id as int) is RB && !body_of(bodies@, id as int).rb().is_active_sp() {
                let bv = aabb_sp(
                    body_of(bodies@, id as int).rb().geom,
                    body_of(bodies@, id as int).rb().position,
                );
                let hits = bv_hits(bodies@, bv, bodies@.len() as int);
                wake_list(hits, bodies@, id, hits.len() as int)
            } else {
                Seq::empty()
            }),
            final(signals).log == old(signals).log,
            final(signals).handlers == old(signals).handlers,
    {
        let ghost pending0 = signals.pending_activations@;
        match &bodies[id] {
            Some(Body::RB(rb)) => {
                if !rb.is_active() {
                    let bv = crate::geom::aabb(&rb.geom, rb.position);
                    let n = bodies.len();
                    let hits = self.broad_phase.interferences_with_bounding_volume(&bv, bodies);
                    proof {
                        assert(bodies@.len() == n as int);
                        lemma_bv_hits_ok(bodies@, bv, bodies@.len() as int);
                    }
                    let mut k: usize = 0;
                    while k < hits.len()
                        invariant
                            0 <= k <= hits@.len(),
                            bodies_wf(bodies@),
                            hits@ == bv_hits(bodies@, bv, bodies@.len() as int),
                            forall|m: int|
                                0 <= m < hits@.len() ==> present(bodies@, #[trigger] hits@[m] as int)
                                    && body_of(bodies@, hits@[m] as int) is RB,
                            signals.pending_activations@ == pending0 + wake_list(
                                hits@,
                                bodies@,
                                id,
                                k as int,
                            ),
                            signals.log == old(signals).log,
                            signals.handlers == old(signals).handlers,
                        decreases hits@.len() - k,
                    {
                        let h = hits[k];
                        if h != id {
                            match &bodies[h] {
                                Some(Body::RB(other)) => {
                                    if !other.is_active() && other.can_move() {
                                        signals.request_body_activation(h);
                                    }
                                },
                                _ => (),
                            }
                        }
                        k += 1;
                    }
                }
            },
            _ => (),
        }
        if self.update_bf {
            self.broad_phase.remove(id);
        }
    }

    /// One detection pass: refreshes every pair with an awake body from the
    /// current poses and announces contact gains and losses.
    pub fn update(&mut self, bodies: &Vec<Option<Body>>, signals: &mut SignalEmitter)
        requires
            bodies_wf(bodies@),
            pairs_wf(old(self).broad_phase.pairs@, bodies@),
        ensures
            final(self).update_bf == old(self).update_bf,
            final(self).broad_phase.pairs@.len() == old(self).broad_phase.pairs@.len(),
            forall|k: int|
                0 <= k < old(self).broad_phase.pairs@.len() ==> final(self).broad_phase.pairs@[k]
                    == pair_updated(#[trigger] old(self).broad_phase.pairs@[k], bodies@),
            pairs_wf(final(self).broad_phase.pairs@, bodies@),
            final(signals).log@ == old(signals).log@ + collision_events(
                old(self).broad_phase.pairs@,
                bodies@,
                old(self).broad_phase.pairs@.len() as int,
            ),
            final(signals).handlers == old(signals).handlers,
            final(signals).pending_activations == old(signals).pending_activations,
    {
        let ghost pairs0 = self.broad_phase.pairs@;
        let ghost log0 = signals.log@;
        let mut k: usize = 0;
        while k < self.broad_phase.pairs.len()
            invariant
                0 <= k <= pairs0.len(),
                bodies_wf(bodies@),
                pairs_wf(pairs0, bodies@),
                self.update_bf == old(self).update_bf,
                self.broad_phase.pairs@.len() == pairs0.len(),
                forall|m: int|
                    0 <= m < k ==> self.broad_phase.pairs@[m] == pair_updated(
                        #[trigger] pairs0[m],
                        bodies@,
                    ),
                forall|m: int| k <= m < pairs0.len() ==> self.broad_phase.pairs@[m] == pairs0[m],
                forall|m: int|
                    0 <= m < pairs0.len() ==> (#[trigger] self.broad_phase.pairs@[m]).det.wf(),
                signals.log@ == log0 + collision_events(pairs0, bodies@, k as int),
                signals.handlers == old(signals).handlers,
                signals.pending_activations == old(signals).pending_activations,
            decreases pairs0.len() - k,
        {
            let p = self.broad_phase.pairs[k];
            proof {
                assert(pair_ok(pairs0[k as int], bodies@));
            }
            match p.det {
                PairwiseDetector::GG(mut gg) => {
                    let ba = bodies[p.a].as_ref().unwrap().to_rigid_body();
                    let bb = bodies[p.b].as_ref().unwrap().to_rigid_body();
                    if ba.is_active() || bb.is_active() {
                        let ncols = gg.num_colls();
                        gg.update(&ba.geom, ba.position, &bb.geom, bb.position);
                        let new_ncols = gg.num_colls();
                        if ncols == 0 && new_ncols != 0 {
                            signals.emit(Event::CollisionStarted { a: p.a, b: p.b });
                        } else if ncols != 0 && new_ncols == 0 {
                            signals.emit(Event::CollisionEnded { a: p.a, b: p.b });
                        }
                        self.broad_phase.pairs.set(
                            k,
                            Pair { a: p.a, b: p.b, det: PairwiseDetector::GG(gg) },
                        );
                    }
                },
                PairwiseDetector::Unsupported => (),
            }
            proof {
                assert(self.broad_phase.pairs@[k as int] == pair_updated(pairs0[k as int], bodies@));
                assert(signals.log@ =~= log0 + collision_events(pairs0, bodies@, k + 1));
            }
            k += 1;
        }
        proof {
            assert forall|k2: int|
                0 <= k2 < self.broad_phase.pairs@.len() implies pair_ok(
                #[trigger] self.broad_phase.pairs@[k2],
                bodies@,
            ) by {
                let p0 = pairs0[k2];
                let p1 = self.broad_phase.pairs@[k2];
                assert(p1 == pair_updated(p0, bodies@));
                assert(pair_ok(p0, bodies@));
                assert(p1.a == p0.a && p1.b == p0.b);
                assert(p1.det is GG <==> p0.det is GG);
            }
            assert forall|k1: int, k2: int|
                0 <= k1 < k2 < self.broad_phase.pairs@.len() implies !(self.broad_phase.pairs@[k1].a
                == self.broad_phase.pairs@[k2].a && self.broad_phase.pairs@[k1].b
                == self.broad_phase.pairs@[k2].b) by {
                assert(self.broad_phase.pairs@[k1] == pair_updated(pairs0[k1], bodies@));
                assert(self.broad_phase.pairs@[k2] == pair_updated(pairs0[k2], bodies@));
                assert(self.broad_phase.pairs@[k1].a == pairs0[k1].a && self.broad_phase.pairs@[k1].b
                    == pairs0[k1].b);
                assert(self.broad_phase.pairs@[k2].a == pairs0[k2].a && self.broad_phase.pairs@[k2].b
                    == pairs0[k2].b);
            }
        }
    }

    /// Appends one `RBRB` constraint per live contact on a pair with at
    /// least one body awake, in table order.
    pub fn interferences(&self, bodies: &Vec<Option<Body>>, out: &mut Vec<Constraint>)
        requires
            pairs_wf(self.broad_phase.pairs@, bodies@),
        ensures
            final(out)@ == old(out)@ + contact_constraints(
                self.broad_phase.pairs@,
                bodies@,
                self.broad_phase.pairs@.len() as int,
            ),
    {
        let ghost out0 = out@;
        let ghost pairs0 = self.broad_phase.pairs@;
        let mut k: usize = 0;
        while k < self.broad_phase.pairs.len()
            invariant
                0 <= k <= pairs0.len(),
                pairs_wf(pairs0, bodies@),
                self.broad_phase.pairs@ == pairs0,
                out@ == out0 + contact_constraints(pairs0, bodies@, k as int),
            decreases pairs0.len() - k,
        {
            let p = self.broad_phase.pairs[k];
            proof {
                assert(pair_ok(pairs0[k as int], bodies@));
            }
            match &p.det {
                PairwiseDetector::GG(gg) => {
                    let ba = bodies[p.a].as_ref().unwrap().to_rigid_body();
                    let bb = bodies[p.b].as_ref().unwrap().to_rigid_body();
                    if ba.is_active() || bb.is_active() {
                        match &gg.contact {
                            Some(c) => {
                                out.push(Constraint::RBRB { a: p.a, b: p.b, contact: *c });
                            },
                            None => (),
                        }
                    }
                },
                PairwiseDetector::Unsupported => (),
            }
            proof {
                assert(out@ =~= out0 + contact_constraints(pairs0, bodies@, k + 1));
            }
            k += 1;
        }
    }

    /// Refreshes the pairs of a freshly awakened body and hands the
    /// contacts that now matter to the activation out-buffer.
    pub fn activate(&mut self, id: usize, bodies: &Vec<Option<Body>>, out: &mut Vec<Constraint>)
        requires
            bodies_wf(bodies@),
            pairs_wf(old(self).broad_phase.pairs@, bodies@),
        ensures
            final(self).update_bf == old(self).update_bf,
            final(self).broad_phase.pairs@.len() == old(self).broad_phase.pairs@.len(),
            forall|k: int|
                0 <= k < old(self).broad_phase.pairs@.len() ==> final(self).broad_phase.pairs@[k]
                    == pair_activated(#[trigger] old(self).broad_phase.pairs@[k], bodies@, id),
            pairs_wf(final(self).broad_phase.pairs@, bodies@),
            final(out)@ == old(out)@ + activation_constraints(
                old(self).broad_phase.pairs@,
                bodies@,
                id,
                old(self).broad_phase.pairs@.len() as int,
            ),
    {
        let ghost pairs0 = self.broad_phase.pairs@;
        let ghost out0 = out@;
        let mut k: usize = 0;
        while k < self.broad_phase.pairs.len()
            invariant
                0 <= k <= pairs0.len(),
                bodies_wf(bodies@),
                pairs_wf(pairs0, bodies@),
                self.update_bf == old(self).update_bf,
                self.broad_phase.pairs@.len() == pairs0.len(),
                forall|m: int|
                    0 <= m < k ==> self.broad_phase.pairs@[m] == pair_activated(
                        #[trigger] pairs0[m],
                        bodies@,
                        id,
                    ),
                forall|m: int| k <= m < pairs0.len() ==> self.broad_phase.pairs@[m] == pairs0[m],
                forall|m: int|
                    0 <= m < pairs0.len() ==> (#[trigger] self.broad_phase.pairs@[m]).det.wf(),
                out@ == out0 + activation_constraints(pairs0, bodies@, id, k as int),
            decreases pairs0.len() - k,
        {
            let p = self.broad_phase.pairs[k];
            proof {
                assert(pair_ok(pairs0[k as int], bodies@));
            }
            if p.a == id || p.b == id {
                match p.det {
                    PairwiseDetector::GG(mut gg) => {
                        let ba = bodies[p.a].as_ref().unwrap().to_rigid_body();
                        let bb = bodies[p.b].as_ref().unwrap().to_rigid_body();
                        gg.update(&ba.geom, ba.position, &bb.geom, bb.position);
                        match &gg.contact {
                            Some(c) => {
                                out.push(Constraint::RBRB { a: p.a, b: p.b, contact: *c });
                            },
                            None => (),
                        }
                        self.broad_phase.pairs.set(
                            k,
                            Pair { a: p.a, b: p.b, det: PairwiseDetector::GG(gg) },
                        );
                    },
                    PairwiseDetector::Unsupported => (),
                }
            }
            proof {
                assert(self.broad_phase.pairs@[k as int] == pair_activated(
                    pairs0[k as int],
                    bodies@,
                    id,
                ));
                assert(out@ =~= out0 + activation_constraints(pairs0, bodies@, id, k + 1));
            }
            k += 1;
        }
        proof {
            assert forall|k2: int|
                0 <= k2 < self.broad_phase.pairs@.len() implies pair_ok(
                #[trigger] self.broad_phase.pairs@[k2],
                bodies@,
            ) by {
                let p0 = pairs0[k2];
                let p1 = self.broad_phase.pairs@[k2];
                assert(p1 == pair_activated(p0, bodies@, id));
                assert(pair_ok(p0, bodies@));
                assert(p1.a == p0.a && p1.b == p0.b);
                assert(p1.det is GG <==> p0.det is GG);
            }
            assert forall|k1: int, k2: int|
                0 <= k1 < k2 < self.broad_phase.pairs@.len() implies !(self.broad_phase.pairs@[k1].a
                == self.broad_phase.pairs@[k2].a && self.broad_phase.pairs@[k1].b
                == self.broad_phase.pairs@[k2].b) by {
                assert(self.broad_phase.pairs@[k1] == pair_activated(pairs0[k1], bodies@, id));
                assert(self.broad_phase.pairs@[k2] == pair_activated(pairs0[k2], bodies@, id));
                assert(self.broad_phase.pairs@[k1].a == pairs0[k1].a && self.broad_phase.pairs@[k1].b
                    == pairs0[k1].b);
                assert(self.broad_phase.pairs@[k2].a == pairs0[k2].a && self.broad_phase.pairs@[k2].b
                    == pairs0[k2].b);
            }
        }
    }

    /// A body falling asleep needs no table change: the exhaustive index
    /// keeps its pairs, and `update` freezes the ones whose bodies all
    /// sleep.
    pub fn deactivate(&mut self, id: usize)
        ensures
            *final(self) == *old(self),
    {
        let _ = id;
    }


    /// Casts a ray from `origin` along `dir` through every body in the
    /// world: appends, in slot order, each present rigid body the ray hits
    /// together with the exact fixed-point time of impact against its
    /// geometry.
    pub fn interferences_with_ray(
        &self,
        origin: crate::vect::Vect,
        dir: crate::vect::Vect,
        bodies: &Vec<Option<Body>>,
        out: &mut Vec<(usize, i64)>,
    )
        requires
            bodies_wf(bodies@),
            origin.bounded(crate::fx::POS_LIMIT as int),
            dir.bounded(crate::fx::VEL_LIMIT as int),
            !dir.is_zero(),
        ensures
            final(out)@ == old(out)@ + ray_hits(bodies@, origin, dir, bodies@.len() as int),
    {
        let ghost out0 = out@;
        let mut j: usize = 0;
        while j < bodies.len()
            invariant
                0 <= j <= bodies@.len(),
                bodies_wf(bodies@),
                origin.bounded(crate::fx::POS_LIMIT as int),
                dir.bounded(crate::fx::VEL_LIMIT as int),
                !dir.is_zero(),
                out@ == out0 + ray_hits(bodies@, origin, dir, j as int),
            decreases bodies@.len() - j,
        {
            match &bodies[j] {
                Some(Body::RB(rb)) => {
                    let toi = match &rb.geom {
                        crate::geom::Geom::Ball { radius } => crate::geom::ray_ball_toi(
                            origin,
                            dir,
                            rb.position,
                            *radius,
                        ),
                        crate::geom::Geom::Plane { normal } => crate::geom::ray_plane_toi(
                            origin,
                            dir,
                            rb.position,
                            *normal,
                        ),
                    };
                    match toi {
                        Some(t) => {
                            out.push((j, t));
                        },
                        None => (),
                    }
                },
                _ => (),
            }
            proof {
                assert(out@ =~= out0 + ray_hits(bodies@, origin, dir, j + 1));
            }
            j += 1;
        }
    }

    /// The narrow phase runs after the integrators and before the joint
    /// stage.
    pub fn priority(&self) -> (r: i64)
        ensures
            r == 50,
    {
        50
    }

    /// The activation fan-in: refresh the new body's pairs and surface the
    /// contacts that now matter.
    pub fn handle_body_activated_signal(
        &mut self,
        id: usize,
        bodies: &Vec<Option<Body>>,
        out: &mut Vec<Constraint>,
    )
        requires
            bodies_wf(bodies@),
            pairs_wf(old(self).broad_phase.pairs@, bodies@),
        ensures
            final(self).update_bf == old(self).update_bf,
            final(self).broad_phase.pairs@.len() == old(self).broad_phase.pairs@.len(),
            forall|k: int|
                0 <= k < old(self).broad_phase.pairs@.len() ==> final(self).broad_phase.pairs@[k]
                    == pair_activated(#[trigger] old(self).broad_phase.pairs@[k], bodies@, id),
            pairs_wf(final(self).broad_phase.pairs@, bodies@),
            final(out)@ == old(out)@ + activation_constraints(
                old(self).broad_phase.pairs@,
                bodies@,
                id,
                old(self).broad_phase.pairs@.len() as int,
            ),
    {
        self.activate(id, bodies, out)
    }

    /// The deactivation fan-in.
    pub fn handle_body_deactivated_signal(&mut self, id: usize)
        ensures
            *final(self) == *old(self),
    {
        self.deactivate(id)
    }
}

} // verus!
