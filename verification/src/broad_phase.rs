//! The broad phase: the pair table the narrow phase works from.
//!
//! This index is exhaustive: it keeps one entry for every valid pair of
//! bodies in the world, so it is trivially conservative, and the exact
//! contact kernels of the narrow phase do the pruning. The table changes
//! only when a body is added or removed; waking and sleeping leave it alone.

use vstd::prelude::*;
use crate::geom::{aabb_sp, Aabb, Geom};
use crate::object::Body;
use crate::pairwise::{dispatch_sp, is_valid_sp, Dispatcher, PairwiseDetector};

verus! {

/// One watched pair: the two arena indices, lower first, and the pairwise
/// detector dispatched for them.
#[derive(Clone, Copy, PartialEq, Eq, Structural, Debug)]
pub struct Pair {
    pub a: usize,
    pub b: usize,
    pub det: PairwiseDetector,
}

/// The body in slot `i`.
pub open spec fn body_of(bodies: Seq<Option<Body>>, i: int) -> Body {
    bodies[i]->Some_0
}

pub open spec fn present(bodies: Seq<Option<Body>>, i: int) -> bool {
    0 <= i < bodies.len() && bodies[i] is Some
}

/// A pair entry in good standing: ordered distinct indices of present
/// bodies, valid in the dispatcher's eyes (never two static bodies), with
/// the detector the dispatcher would give the pair.
pub open spec fn pair_ok(p: Pair, bodies: Seq<Option<Body>>) -> bool {
    &&& p.a < p.b
    &&& present(bodies, p.a as int)
    &&& present(bodies, p.b as int)
    &&& is_valid_sp(p.a, p.b, body_of(bodies, p.a as int), body_of(bodies, p.b as int))
    &&& (p.det is GG <==> body_of(bodies, p.a as int) is RB && body_of(bodies, p.b as int) is RB)
    &&& p.det.wf()
}

/// Every entry is in good standing and no pair is watched twice.
pub open spec fn pairs_wf(pairs: Seq<Pair>, bodies: Seq<Option<Body>>) -> bool {
    &&& forall|k: int| 0 <= k < pairs.len() ==> pair_ok(#[trigger] pairs[k], bodies)
    &&& forall|k1: int, k2: int|
        0 <= k1 < k2 < pairs.len() ==> !(pairs[k1].a == pairs[k2].a && pairs[k1].b == pairs[k2].b)
}

pub open spec fn has_pair(pairs: Seq<Pair>, a: usize, b: usize) -> bool {
    exists|k: int| 0 <= k < pairs.len() && pairs[k].a == a && pairs[k].b == b
}

/// Every valid pair of present bodies is watched: the table never misses a
/// pair the narrow phase should see.
pub open spec fn pairs_complete(pairs: Seq<Pair>, bodies: Seq<Option<Body>>) -> bool {
    forall|i: int, j: int|
        0 <= i < j < bodies.len() && present(bodies, i) && present(bodies, j) && is_valid_sp(
            i as usize,
            j as usize,
            #[trigger] body_of(bodies, i),
            #[trigger] body_of(bodies, j),
        ) ==> has_pair(pairs, i as usize, j as usize)
}

/// The entries created for a fresh body `id` against the bodies in slots
/// below `upto`: one per valid partner, in slot order.
pub open spec fn pairs_added(bodies: Seq<Option<Body>>, id: usize, upto: int) -> Seq<Pair>
    decreases upto,
{
    if upto <= 0 {
        Seq::empty()
    } else {
        let pre = pairs_added(bodies, id, upto - 1);
        let j = upto - 1;
        if present(bodies, j) && is_valid_sp(
            j as usize,
            id,
            body_of(bodies, j),
            body_of(bodies, id as int),
        ) {
            pre.push(
                Pair {
                    a: j as usize,
                    b: id,
                    det: dispatch_sp(body_of(bodies, j), body_of(bodies, id as int)),
                },
            )
        } else {
            pre
        }
    }
}

/// The entries that survive when body `id` goes away.
pub open spec fn pairs_without(s: Seq<Pair>, id: usize) -> Seq<Pair>
    decreases s.len(),
{
    if s.len() == 0 {
        Seq::empty()
    } else {
        let pre = pairs_without(s.drop_last(), id);
        if s.last().a == id || s.last().b == id {
            pre
        } else {
            pre.push(s.last())
        }
    }
}

/// The present rigid bodies, in slot order, whose bounding volume overlaps
/// `bv`.
pub open spec fn bv_hits(bodies: Seq<Option<Body>>, bv: Aabb, upto: int) -> Seq<usize>
    decreases upto,
{
    if upto <= 0 {
        Seq::empty()
    } else {
        let pre = bv_hits(bodies, bv, upto - 1);
        let j = upto - 1;
        if present(bodies, j) && body_of(bodies, j) is RB && aabb_sp(
            body_of(bodies, j).rb().geom,
            body_of(bodies, j).rb().position,
        ).overlaps_sp(bv) {
            pre.push(j as usize)
        } else {
            pre
        }
    }
}

/// The exhaustive pair index.
pub struct BroadPhase {
    pub pairs: Vec<Pair>,
}

impl BroadPhase {
    pub fn new() -> (r: BroadPhase)
        ensures
            r.pairs@ =~= Seq::<Pair>::empty(),
    {
        BroadPhase { pairs: Vec::new() }
    }

    /// Registers the freshly appended body `id` against every valid
    /// partner.
    pub fn add(&mut self, id: usize, bodies: &Vec<Option<Body>>, disp: &Dispatcher)
        requires
            id == bodies@.len() - 1,
            bodies@[id as int] is Some,
        ensures
            final(self).pairs@ == old(self).pairs@ + pairs_added(bodies@, id, id as int),
    {
        let ghost pairs0 = self.pairs@;
        let new_body = match &bodies[id] {
            Some(b) => b,
            None => vstd::pervasive::unreached(),
        };
        let mut j: usize = 0;
        while j < id
            invariant
                0 <= j <= id,
                id == bodies@.len() - 1,
                bodies@[id as int] is Some,
                *new_body == body_of(bodies@, id as int),
                self.pairs@ == pairs0 + pairs_added(bodies@, id, j as int),
            decreases id - j,
        {
            match &bodies[j] {
                Some(other) => {
                    if disp.is_valid(j, id, other, new_body) {
                        let det = disp.dispatch(other, new_body);
                        self.pairs.push(Pair { a: j, b: id, det });
                    }
                },
                None => (),
            }
            proof {
                assert(self.pairs@ =~= pairs0 + pairs_added(bodies@, id, j + 1));
            }
            j += 1;
        }
    }

    /// Drops every pair that watches body `id`.
    pub fn remove(&mut self, id: usize)
        ensures
            final(self).pairs@ == pairs_without(old(self).pairs@, id),
    {
        let ghost pairs0 = self.pairs@;
        let mut kept: Vec<Pair> = Vec::new();
        let mut k: usize = 0;
        while k < self.pairs.len()
            invariant
                0 <= k <= pairs0.len(),
                self.pairs@ == pairs0,
                kept@ == pairs_without(pairs0.subrange(0, k as int), id),
            decreases pairs0.len() - k,
        {
            let p = self.pairs[k];
            proof {
                assert(pairs0.subrange(0, k + 1).drop_last() =~= pairs0.subrange(0, k as int));
                assert(pairs0.subrange(0, k + 1).last() == pairs0[k as int]);
            }
            if p.a != id && p.b != id {
                kept.push(p);
            }
            k += 1;
        }
        proof {
            assert(pairs0.subrange(0, pairs0.len() as int) =~= pairs0);
        }
        self.pairs = kept;
    }

    /// The present rigid bodies whose bounding volume overlaps `bv`, in
    /// slot order.
    pub fn interferences_with_bounding_volume(
        &self,
        bv: &Aabb,
        bodies: &Vec<Option<Body>>,
    ) -> (r: Vec<usize>)
        requires
            forall|i: int|
                0 <= i < bodies@.len() && bodies@[i] is Some && bodies@[i]->Some_0 is RB
                    ==> (#[trigger] bodies@[i])->Some_0.rb().wf(),
        ensures
            r@ == bv_hits(bodies@, *bv, bodies@.len() as int),
    {
        let mut out: Vec<usize> = Vec::new();
        let mut j: usize = 0;
        while j < bodies.len()
            invariant
                0 <= j <= bodies@.len(),
                forall|i: int|
                    0 <= i < bodies@.len() && bodies@[i] is Some && bodies@[i]->Some_0 is RB
                        ==> (#[trigger] bodies@[i])->Some_0.rb().wf(),
                out@ == bv_hits(bodies@, *bv, j as int),
            decreases bodies@.len() - j,
        {
            match &bodies[j] {
                Some(Body::RB(rb)) => {
                    let bb = crate::geom::aabb(&rb.geom, rb.position);
                    if bb.overlaps(bv) {
                        out.push(j);
                    }
                },
                _ => (),
            }
            j += 1;
        }
        out
    }
}

/// Every bounding-volume hit names a present rigid body.
pub proof fn lemma_bv_hits_ok(bodies: Seq<Option<Body>>, bv: Aabb, upto: int)
    requires
        upto <= bodies.len(),
        bodies.len() <= usize::MAX,
    ensures
        forall|k: int|
            0 <= k < bv_hits(bodies, bv, upto).len() ==> {
                let h = #[trigger] bv_hits(bodies, bv, upto)[k];
                present(bodies, h as int) && body_of(bodies, h as int) is RB && (h as int) < upto
            },
        forall|k1: int, k2: int|
            0 <= k1 < k2 < bv_hits(bodies, bv, upto).len() ==> (bv_hits(bodies, bv, upto)[k1]
                as int) < (bv_hits(bodies, bv, upto)[k2] as int),
    decreases upto,
{
    if upto > 0 {
        lemma_bv_hits_ok(bodies, bv, upto - 1);
        let pre = bv_hits(bodies, bv, upto - 1);
        let res = bv_hits(bodies, bv, upto);
        assert forall|k: int|
            0 <= k < res.len() implies {
            let h = #[trigger] res[k];
            present(bodies, h as int) && body_of(bodies, h as int) is RB && (h as int) < upto
        } by {
            if k < pre.len() {
                assert(res[k] == pre[k]);
            } else {
                assert(res[k] == (upto - 1) as usize);
                assert(present(bodies, upto - 1) && body_of(bodies, upto - 1) is RB);
            }
        }
        assert forall|k1: int, k2: int|
            0 <= k1 < k2 < res.len() implies (res[k1] as int) < (res[k2] as int) by {
            if k2 < pre.len() {
                assert(res[k1] == pre[k1] && res[k2] == pre[k2]);
            } else if res.len() > pre.len() {
                assert(res[k2] == (upto - 1) as usize);
                assert(res[k1] == pre[k1]);
            }
        }
    }
}

/// Each entry `add` creates is in good standing, watches the new body, and
/// covers every valid partner below the new slot.
pub proof fn lemma_pairs_added_ok(bodies: Seq<Option<Body>>, id: usize, upto: int)
    requires
        0 <= upto <= id < bodies.len(),
        bodies[id as int] is Some,
    ensures
        forall|k: int|
            0 <= k < pairs_added(bodies, id, upto).len() ==> pair_ok(
                #[trigger] pairs_added(bodies, id, upto)[k],
                bodies,
            ) && pairs_added(bodies, id, upto)[k].b == id && (pairs_added(bodies, id, upto)[k].a
                as int) < upto,
        forall|k1: int, k2: int|
            0 <= k1 < k2 < pairs_added(bodies, id, upto).len() ==> (pairs_added(
                bodies,
                id,
                upto,
            )[k1].a as int) < (pairs_added(bodies, id, upto)[k2].a as int),
        forall|j: int|
            0 <= j < upto && present(bodies, j) && is_valid_sp(
                j as usize,
                id,
                #[trigger] body_of(bodies, j),
                body_of(bodies, id as int),
            ) ==> has_pair(pairs_added(bodies, id, upto), j as usize, id),
    decreases upto,
{
    if upto > 0 {
        lemma_pairs_added_ok(bodies, id, upto - 1);
        let pre = pairs_added(bodies, id, upto - 1);
        let res = pairs_added(bodies, id, upto);
        let j = upto - 1;
        if present(bodies, j) && is_valid_sp(
            j as usize,
            id,
            body_of(bodies, j),
            body_of(bodies, id as int),
        ) {
            let p = Pair {
                a: j as usize,
                b: id,
                det: dispatch_sp(body_of(bodies, j), body_of(bodies, id as int)),
            };
            assert(res == pre.push(p));
            assert(pair_ok(p, bodies));
            assert(res[res.len() - 1] == p);
            assert forall|jj: int|
                0 <= jj < upto && present(bodies, jj) && is_valid_sp(
                    jj as usize,
                    id,
                    #[trigger] body_of(bodies, jj),
                    body_of(bodies, id as int),
                ) implies has_pair(res, jj as usize, id) by {
                if jj < upto - 1 {
                    let w = choose|w: int|
                        0 <= w < pre.len() && pre[w].a == jj as usize && pre[w].b == id;
                    assert(res[w] == pre[w]);
                } else {
                    assert(res[res.len() - 1].a == jj as usize && res[res.len() - 1].b == id);
                }
            }
        } else {
            assert forall|jj: int|
                0 <= jj < upto && present(bodies, jj) && is_valid_sp(
                    jj as usize,
                    id,
                    #[trigger] body_of(bodies, jj),
                    body_of(bodies, id as int),
                ) implies has_pair(res, jj as usize, id) by {
                let w = choose|w: int|
                    0 <= w < pre.len() && pre[w].a == jj as usize && pre[w].b == id;
            }
        }
    }
}

/// What survives a removal is exactly the old entries that do not watch the
/// removed body, in their old order, still distinct, and the removed body is
/// watched by none of them.
pub proof fn lemma_pairs_without_ok(s: Seq<Pair>, id: usize)
    ensures
        forall|k: int|
            0 <= k < pairs_without(s, id).len() ==> s.contains(#[trigger] pairs_without(s, id)[k])
                && pairs_without(s, id)[k].a != id && pairs_without(s, id)[k].b != id,
        forall|k: int|
            0 <= k < s.len() && s[k].a != id && s[k].b != id ==> pairs_without(s, id).contains(
                #[trigger] s[k],
            ),
    decreases s.len(),
{
    if s.len() > 0 {
        lemma_pairs_without_ok(s.drop_last(), id);
        let pre = pairs_without(s.drop_last(), id);
        let res = pairs_without(s, id);
        assert forall|k: int|
            0 <= k < res.len() implies s.contains(#[trigger] res[k]) && res[k].a != id && res[k].b
            != id by {
            if k < pre.len() {
                assert(res[k] == pre[k]);
                assert(s.drop_last().contains(pre[k]));
                let w = choose|w: int| 0 <= w < s.drop_last().len() && s.drop_last()[w] == pre[k];
                assert(s[w] == pre[k]);
            } else {
                assert(res[k] == s.last());
                assert(s[s.len() - 1] == s.last());
            }
        }
        assert forall|k: int|
            0 <= k < s.len() && s[k].a != id && s[k].b != id implies res.contains(
            #[trigger] s[k],
        ) by {
            if k < s.len() - 1 {
                assert(s.drop_last()[k] == s[k]);
                assert(pre.contains(s[k]));
                let w = choose|w: int| 0 <= w < pre.len() && pre[w] == s[k];
                if s.last().a == id || s.last().b == id {
                    assert(res[w] == s[k]);
                } else {
                    assert(res[w] == s[k]);
                }
            } else {
                assert(res[res.len() - 1] == s.last());
            }
        }
    }
}

} // verus!
