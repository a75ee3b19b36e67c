//! Joints: anchors, the two joint flavors, and the detector stage that owns
//! the joint instances and emits a constraint for each one every step.

use vstd::prelude::*;
use crate::constraint::Constraint;
use crate::fx::POS_LIMIT;
use crate::object::Body;
use crate::vect::Vect;

verus! {

/// A local point attached to a body, or to the world when `body` is `None`.
#[derive(Clone, Copy, PartialEq, Eq, Structural, Debug)]
pub struct Anchor {
    pub body: Option<usize>,
    pub position: Vect,
}

impl Anchor {
    /// The anchor references an existing body, or the inertial frame.
    pub open spec fn wf(self, bodies: Seq<Option<Body>>) -> bool {
        &&& self.position.bounded(POS_LIMIT as int)
        &&& match self.body {
            Some(id) => id < bodies.len() && bodies[id as int] is Some,
            None => true,
        }
    }

    pub open spec fn references(self, id: usize) -> bool {
        self.body == Some(id)
    }
}

/// Two anchor points required to coincide.
#[derive(Clone, Copy, PartialEq, Eq, Structural, Debug)]
pub struct BallInSocketJoint {
    pub anchor1: Anchor,
    pub anchor2: Anchor,
}

impl BallInSocketJoint {
    pub open spec fn wf(self, bodies: Seq<Option<Body>>) -> bool {
        self.anchor1.wf(bodies) && self.anchor2.wf(bodies)
    }

    pub open spec fn references(self, id: usize) -> bool {
        self.anchor1.references(id) || self.anchor2.references(id)
    }
}

/// Two local frames (a point and an orientation) required to coincide.
#[derive(Clone, Copy, PartialEq, Eq, Structural, Debug)]
pub struct FixedJoint {
    pub anchor1: Anchor,
    pub orientation1: Vect,
    pub anchor2: Anchor,
    pub orientation2: Vect,
}

impl FixedJoint {
    pub open spec fn wf(self, bodies: Seq<Option<Body>>) -> bool {
        &&& self.anchor1.wf(bodies)
        &&& self.anchor2.wf(bodies)
        &&& self.orientation1.bounded(POS_LIMIT as int)
        &&& self.orientation2.bounded(POS_LIMIT as int)
    }

    pub open spec fn references(self, id: usize) -> bool {
        self.anchor1.references(id) || self.anchor2.references(id)
    }
}

/// The ball-in-socket joints that survive when body `id` goes away.
pub open spec fn ball_joints_without(s: Seq<BallInSocketJoint>, id: usize) -> Seq<
    BallInSocketJoint,
>
    decreases s.len(),
{
    if s.len() == 0 {
        Seq::empty()
    } else {
        let pre = ball_joints_without(s.drop_last(), id);
        if s.last().references(id) {
            pre
        } else {
            pre.push(s.last())
        }
    }
}

/// The fixed joints that survive when body `id` goes away.
pub open spec fn fixed_joints_without(s: Seq<FixedJoint>, id: usize) -> Seq<FixedJoint>
    decreases s.len(),
{
    if s.len() == 0 {
        Seq::empty()
    } else {
        let pre = fixed_joints_without(s.drop_last(), id);
        if s.last().references(id) {
            pre
        } else {
            pre.push(s.last())
        }
    }
}

/// The constraints a joint set emits: one `BallInSocket` per ball joint,
/// then one `Fixed` per fixed joint, in storage order.
pub open spec fn joint_constraints(
    balls: Seq<BallInSocketJoint>,
    fixeds: Seq<FixedJoint>,
) -> Seq<Constraint> {
    balls.map(|i: int, j: BallInSocketJoint| Constraint::BallInSocket { joint: j }) + fixeds.map(
        |i: int, j: FixedJoint| Constraint::Fixed { joint: j },
    )
}

/// The detector stage that owns the persistent joints. It re-emits each
/// joint as a constraint every step and purges the joints of a removed body.
pub struct JointManager {
    pub ball_joints: Vec<BallInSocketJoint>,
    pub fixed_joints: Vec<FixedJoint>,
}

impl JointManager {
    pub open spec fn wf(self, bodies: Seq<Option<Body>>) -> bool {
        &&& forall|k: int|
            0 <= k < self.ball_joints@.len() ==> (#[trigger] self.ball_joints@[k]).wf(bodies)
        &&& forall|k: int|
            0 <= k < self.fixed_joints@.len() ==> (#[trigger] self.fixed_joints@[k]).wf(bodies)
    }

    /// No joint references body `id`.
    pub open spec fn clean_of(self, id: usize) -> bool {
        &&& forall|k: int|
            0 <= k < self.ball_joints@.len() ==> !(#[trigger] self.ball_joints@[k]).references(id)
        &&& forall|k: int|
            0 <= k < self.fixed_joints@.len() ==> !(#[trigger] self.fixed_joints@[k]).references(
                id,
            )
    }

    pub fn new() -> (r: JointManager)
        ensures
            r.ball_joints@ =~= Seq::<BallInSocketJoint>::empty(),
            r.fixed_joints@ =~= Seq::<FixedJoint>::empty(),
    {
        JointManager { ball_joints: Vec::new(), fixed_joints: Vec::new() }
    }

    pub fn add_ball_in_socket(&mut self, joint: BallInSocketJoint)
        ensures
            final(self).ball_joints@ == old(self).ball_joints@.push(joint),
            final(self).fixed_joints == old(self).fixed_joints,
    {
        self.ball_joints.push(joint);
    }

    pub fn add_fixed(&mut self, joint: FixedJoint)
        ensures
            final(self).fixed_joints@ == old(self).fixed_joints@.push(joint),
            final(self).ball_joints == old(self).ball_joints,
    {
        self.fixed_joints.push(joint);
    }

    /// Moves the world-side frame of a fixed joint, the handle used to drag
    /// a body along a prescribed trajectory.
    pub fn set_fixed_anchor2(&mut self, k: usize, position: Vect, orientation: Vect)
        requires
            k < old(self).fixed_joints@.len(),
            position.bounded(POS_LIMIT as int),
            orientation.bounded(POS_LIMIT as int),
        ensures
            final(self).fixed_joints@ == old(self).fixed_joints@.update(
                k as int,
                FixedJoint {
                    anchor2: Anchor {
                        body: old(self).fixed_joints@[k as int].anchor2.body,
                        position,
                    },
                    orientation2: orientation,
                    ..old(self).fixed_joints@[k as int]
                },
            ),
            final(self).ball_joints == old(self).ball_joints,
    {
        let j = self.fixed_joints[k];
        let updated = FixedJoint {
            anchor1: j.anchor1,
            orientation1: j.orientation1,
            anchor2: Anchor { body: j.anchor2.body, position },
            orientation2: orientation,
        };
        self.fixed_joints.set(k, updated);
    }

    /// Purges every joint anchored to a removed body.
    pub fn handle_body_removed(&mut self, id: usize)
        ensures
            final(self).ball_joints@ == ball_joints_without(old(self).ball_joints@, id),
            final(self).fixed_joints@ == fixed_joints_without(old(self).fixed_joints@, id),
            final(self).clean_of(id),
    {
        let ghost balls0 = self.ball_joints@;
        let mut kept_balls: Vec<BallInSocketJoint> = Vec::new();
        let mut i: usize = 0;
        while i < self.ball_joints.len()
            invariant
                0 <= i <= balls0.len(),
                self.ball_joints@ == balls0,
                kept_balls@ == ball_joints_without(balls0.subrange(0, i as int), id),
            decreases balls0.len() - i,
        {
            let j = self.ball_joints[i];
            proof {
                assert(balls0.subrange(0, i + 1).drop_last() =~= balls0.subrange(0, i as int));
                assert(balls0.subrange(0, i + 1).last() == balls0[i as int]);
            }
            let keep = match (j.anchor1.body, j.anchor2.body) {
                (Some(a), _) if a == id => false,
                (_, Some(b)) if b == id => false,
                _ => true,
            };
            if keep {
                kept_balls.push(j);
            }
            i += 1;
        }
        proof {
            assert(balls0.subrange(0, balls0.len() as int) =~= balls0);
        }
        self.ball_joints = kept_balls;

        let ghost fixeds0 = self.fixed_joints@;
        let mut kept_fixed: Vec<FixedJoint> = Vec::new();
        let mut i: usize = 0;
        while i < self.fixed_joints.len()
            invariant
                0 <= i <= fixeds0.len(),
                self.fixed_joints@ == fixeds0,
                kept_fixed@ == fixed_joints_without(fixeds0.subrange(0, i as int), id),
            decreases fixeds0.len() - i,
        {
            let j = self.fixed_joints[i];
            proof {
                assert(fixeds0.subrange(0, i + 1).drop_last() =~= fixeds0.subrange(0, i as int));
                assert(fixeds0.subrange(0, i + 1).last() == fixeds0[i as int]);
            }
            let keep = match (j.anchor1.body, j.anchor2.body) {
                (Some(a), _) if a == id => false,
                (_, Some(b)) if b == id => false,
                _ => true,
            };
            if keep {
                kept_fixed.push(j);
            }
            i += 1;
        }
        proof {
            assert(fixeds0.subrange(0, fixeds0.len() as int) =~= fixeds0);
            lemma_ball_joints_without_clean(balls0, id);
            lemma_fixed_joints_without_clean(fixeds0, id);
        }
        self.fixed_joints = kept_fixed;
    }

    /// Appends one constraint per joint, ball joints first, in storage
    /// order.
    pub fn interferences(&self, out: &mut Vec<Constraint>)
        ensures
            final(out)@ == old(out)@ + joint_constraints(self.ball_joints@, self.fixed_joints@),
    {
        let ghost out0 = old(out)@;
        let ghost ballmap = self.ball_joints@.map(
            |i: int, j: BallInSocketJoint| Constraint::BallInSocket { joint: j },
        );
        let ghost fixedmap = self.fixed_joints@.map(
            |i: int, j: FixedJoint| Constraint::Fixed { joint: j },
        );
        let mut i: usize = 0;
        while i < self.ball_joints.len()
            invariant
                0 <= i <= self.ball_joints@.len(),
                ballmap == self.ball_joints@.map(
                    |i: int, j: BallInSocketJoint| Constraint::BallInSocket { joint: j },
                ),
                out@ == out0 + ballmap.subrange(0, i as int),
            decreases self.ball_joints@.len() - i,
        {
            out.push(Constraint::BallInSocket { joint: self.ball_joints[i] });
            proof {
                assert(ballmap.subrange(0, i + 1).drop_last() =~= ballmap.subrange(0, i as int));
                assert(out@ =~= out0 + ballmap.subrange(0, i + 1));
            }
            i += 1;
        }
        proof {
            assert(ballmap.subrange(0, ballmap.len() as int) =~= ballmap);
        }
        let mut i: usize = 0;
        while i < self.fixed_joints.len()
            invariant
                0 <= i <= self.fixed_joints@.len(),
                fixedmap == self.fixed_joints@.map(
                    |i: int, j: FixedJoint| Constraint::Fixed { joint: j },
                ),
                ballmap == self.ball_joints@.map(
                    |i: int, j: BallInSocketJoint| Constraint::BallInSocket { joint: j },
                ),
                out@ == out0 + ballmap + fixedmap.subrange(0, i as int),
            decreases self.fixed_joints@.len() - i,
        {
            out.push(Constraint::Fixed { joint: self.fixed_joints[i] });
            proof {
                assert(fixedmap.subrange(0, i + 1).drop_last() =~= fixedmap.subrange(0, i as int));
                assert(out@ =~= out0 + ballmap + fixedmap.subrange(0, i + 1));
            }
            i += 1;
        }
        proof {
            assert(fixedmap.subrange(0, fixedmap.len() as int) =~= fixedmap);
            assert(final(out)@ =~= out0 + joint_constraints(self.ball_joints@, self.fixed_joints@));
        }
    }

    /// The joint stage runs after the narrow phase.
    pub fn priority(&self) -> (r: i64)
        ensures
            r == 60,
    {
        60
    }
}

/// Purging leaves no joint that references the removed body.
pub proof fn lemma_ball_joints_without_clean(s: Seq<BallInSocketJoint>, id: usize)
    ensures
        forall|k: int|
            0 <= k < ball_joints_without(s, id).len() ==> !(#[trigger] ball_joints_without(
                s,
                id,
            )[k]).references(id),
    decreases s.len(),
{
    if s.len() > 0 {
        lemma_ball_joints_without_clean(s.drop_last(), id);
        let pre = ball_joints_without(s.drop_last(), id);
        let res = ball_joints_without(s, id);
        if !s.last().references(id) {
            assert forall|k: int| 0 <= k < res.len() implies !(#[trigger] res[k]).references(
                id,
            ) by {
                if k < pre.len() {
                    assert(res[k] == pre[k]);
                } else {
                    assert(res[k] == s.last());
                }
            }
        }
    }
}

/// Purging leaves no fixed joint that references the removed body.
pub proof fn lemma_fixed_joints_without_clean(s: Seq<FixedJoint>, id: usize)
    ensures
        forall|k: int|
            0 <= k < fixed_joints_without(s, id).len() ==> !(#[trigger] fixed_joints_without(
                s,
                id,
            )[k]).references(id),
    decreases s.len(),
{
    if s.len() > 0 {
        lemma_fixed_joints_without_clean(s.drop_last(), id);
        let pre = fixed_joints_without(s.drop_last(), id);
        let res = fixed_joints_without(s, id);
        if !s.last().references(id) {
            assert forall|k: int| 0 <= k < res.len() implies !(#[trigger] res[k]).references(
                id,
            ) by {
                if k < pre.len() {
                    assert(res[k] == pre[k]);
                } else {
                    assert(res[k] == s.last());
                }
            }
        }
    }
}


/// Every surviving joint stood in the old set.
pub proof fn lemma_ball_joints_without_sub(s: Seq<BallInSocketJoint>, id: usize)
    ensures
        forall|k: int|
            0 <= k < ball_joints_without(s, id).len() ==> s.contains(
                #[trigger] ball_joints_without(s, id)[k],
            ),
    decreases s.len(),
{
    if s.len() > 0 {
        lemma_ball_joints_without_sub(s.drop_last(), id);
        let pre = ball_joints_without(s.drop_last(), id);
        let res = ball_joints_without(s, id);
        assert forall|k: int| 0 <= k < res.len() implies s.contains(#[trigger] res[k]) by {
            if k < pre.len() {
                assert(res[k] == pre[k]);
                assert(s.drop_last().contains(pre[k]));
                let w = choose|w: int| 0 <= w < s.drop_last().len() && s.drop_last()[w] == pre[k];
                assert(s[w] == pre[k]);
            } else {
                assert(res[k] == s.last());
                assert(s[s.len() - 1] == s.last());
            }
        }
    }
}

/// Every surviving fixed joint stood in the old set.
pub proof fn lemma_fixed_joints_without_sub(s: Seq<FixedJoint>, id: usize)
    ensures
        forall|k: int|
            0 <= k < fixed_joints_without(s, id).len() ==> s.contains(
                #[trigger] fixed_joints_without(s, id)[k],
            ),
    decreases s.len(),
{
    if s.len() > 0 {
        lemma_fixed_joints_without_sub(s.drop_last(), id);
        let pre = fixed_joints_without(s.drop_last(), id);
        let res = fixed_joints_without(s, id);
        assert forall|k: int| 0 <= k < res.len() implies s.contains(#[trigger] res[k]) by {
            if k < pre.len() {
                assert(res[k] == pre[k]);
                assert(s.drop_last().contains(pre[k]));
                let w = choose|w: int| 0 <= w < s.drop_last().len() && s.drop_last()[w] == pre[k];
                assert(s[w] == pre[k]);
            } else {
                assert(res[k] == s.last());
                assert(s[s.len() - 1] == s.last());
            }
        }
    }
}

} // verus!
