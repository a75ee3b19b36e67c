//! The body model: rigid bodies, the reserved soft-body tag, mobility and
//! the activation record driving the island-sleeping system.

use vstd::prelude::*;
use crate::fx::{clamp_sp, POS_LIMIT, SCALE, VEL_LIMIT};
use crate::geom::Geom;
use crate::vect::Vect;

verus! {

/// Largest activation energy a well-formed body can record.
pub const ENERGY_LIMIT: i64 = 0x8_0000_0000_0000;

#[derive(Clone, Copy, PartialEq, Eq, Structural, Debug)]
pub enum Mobility {
    Static,
    Dynamic,
}

/// Bookkeeping for the island-sleeping system.
#[derive(Clone, Copy, PartialEq, Eq, Structural, Debug)]
pub struct ActivationState {
    pub active: bool,
    /// Exponential moving average of the body's kinetic energy.
    pub energy: i64,
    /// The body falls asleep when the average drops below this value.
    pub threshold: i64,
    pub can_deactivate: bool,
}

#[derive(Clone, Copy, PartialEq, Eq, Structural, Debug)]
pub struct RigidBody {
    pub geom: Geom,
    pub mobility: Mobility,
    pub position: Vect,
    /// Orientation as a rotation vector; planar worlds use the third
    /// component alone.
    pub orientation: Vect,
    pub lin_vel: Vect,
    pub ang_vel: Vect,
    pub lin_acc: Vect,
    pub ang_acc: Vect,
    /// Inverse mass as a fixed-point scalar; zero for static bodies.
    pub inv_mass: i64,
    /// Inverse of the isotropic inertia; zero for static bodies.
    pub inv_inertia: i64,
    pub restitution: i64,
    pub friction: i64,
    pub activation: ActivationState,
    pub ccd_enabled: bool,
    pub ccd_margin: i64,
}

/// Reserved tag: the interface accepts soft bodies, the stages refuse them.
#[derive(Clone, Copy, PartialEq, Eq, Structural, Debug)]
pub struct SoftBody {}

#[derive(Clone, Copy, PartialEq, Eq, Structural, Debug)]
pub enum Body {
    RB(RigidBody),
    SB(SoftBody),
}

impl RigidBody {
    pub open spec fn is_static(self) -> bool {
        self.mobility is Static
    }

    pub open spec fn is_active_sp(self) -> bool {
        self.activation.active
    }

    /// The quantity the sleeping evaluator averages: the squared linear
    /// velocity plus the squared angular velocity.
    pub open spec fn kinetic_sp(self) -> int {
        self.lin_vel.norm_sq_sp() + self.ang_vel.norm_sq_sp()
    }

    pub open spec fn wf(self) -> bool {
        &&& self.geom.wf()
        &&& self.position.bounded(POS_LIMIT as int)
        &&& self.orientation.bounded(POS_LIMIT as int)
        &&& self.lin_vel.bounded(VEL_LIMIT as int)
        &&& self.ang_vel.bounded(VEL_LIMIT as int)
        &&& self.lin_acc.bounded(VEL_LIMIT as int)
        &&& self.ang_acc.bounded(VEL_LIMIT as int)
        &&& 0 <= self.inv_mass <= POS_LIMIT
        &&& 0 <= self.inv_inertia <= POS_LIMIT
        &&& 0 <= self.restitution <= SCALE
        &&& 0 <= self.friction <= SCALE
        &&& 0 <= self.activation.energy <= ENERGY_LIMIT
        &&& 0 <= self.activation.threshold <= ENERGY_LIMIT
        &&& 0 <= self.ccd_margin <= POS_LIMIT
        &&& self.is_static() ==> {
            &&& self.lin_vel.is_zero()
            &&& self.ang_vel.is_zero()
            &&& self.lin_acc.is_zero()
            &&& self.ang_acc.is_zero()
            &&& self.inv_mass == 0
            &&& self.inv_inertia == 0
        }
        &&& !self.activation.active ==> self.lin_vel.is_zero() && self.ang_vel.is_zero()
    }

    /// A fresh body: at rest, active, with the given material. Static bodies
    /// get inverse mass and inverse inertia zero whatever was passed.
    pub fn new(
        geom: Geom,
        mobility: Mobility,
        inv_mass: i64,
        inv_inertia: i64,
        restitution: i64,
        friction: i64,
    ) -> (r: RigidBody)
        requires
            geom.wf(),
            0 <= inv_mass <= POS_LIMIT,
            0 <= inv_inertia <= POS_LIMIT,
            0 <= restitution <= SCALE,
            0 <= friction <= SCALE,
        ensures
            r.wf(),
            r.geom == geom,
            r.mobility == mobility,
            r.restitution == restitution,
            r.friction == friction,
            r.position.is_zero() && r.orientation.is_zero(),
            r.lin_vel.is_zero() && r.ang_vel.is_zero(),
            r.lin_acc.is_zero() && r.ang_acc.is_zero(),
            r.is_static() ==> r.inv_mass == 0 && r.inv_inertia == 0,
            !r.is_static() ==> r.inv_mass == inv_mass && r.inv_inertia == inv_inertia,
            r.activation == (ActivationState {
                active: true,
                energy: ENERGY_LIMIT,
                threshold: 0,
                can_deactivate: false,
            }),
            !r.ccd_enabled,
    {
        let is_static = matches!(mobility, Mobility::Static);
        RigidBody {
            geom,
            mobility,
            position: Vect::zero(),
            orientation: Vect::zero(),
            lin_vel: Vect::zero(),
            ang_vel: Vect::zero(),
            lin_acc: Vect::zero(),
            ang_acc: Vect::zero(),
            inv_mass: if is_static { 0 } else { inv_mass },
            inv_inertia: if is_static { 0 } else { inv_inertia },
            restitution,
            friction,
            activation: ActivationState {
                active: true,
                energy: ENERGY_LIMIT,
                threshold: 0,
                can_deactivate: false,
            },
            ccd_enabled: false,
            ccd_margin: 0,
        }
    }

    pub fn can_move(&self) -> (r: bool)
        ensures
            r == !self.is_static(),
    {
        matches!(self.mobility, Mobility::Dynamic)
    }

    pub fn is_active(&self) -> (r: bool)
        ensures
            r == self.is_active_sp(),
    {
        self.activation.active
    }

    /// Moves the body by `v`, clamping each coordinate into the world range.
    pub fn translate(&mut self, v: Vect)
        requires
            old(self).wf(),
            v.bounded(POS_LIMIT as int),
        ensures
            final(self).wf(),
            final(self).position.x == clamp_sp(old(self).position.x + v.x, POS_LIMIT as int),
            final(self).position.y == clamp_sp(old(self).position.y + v.y, POS_LIMIT as int),
            final(self).position.z == clamp_sp(old(self).position.z + v.z, POS_LIMIT as int),
            *final(self) == (RigidBody { position: final(self).position, ..*old(self) }),
    {
        self.position = self.position.add(v).clamp_comps(POS_LIMIT);
    }

    /// Turns the body by the rotation vector `v`, clamped the same way.
    pub fn rotate(&mut self, v: Vect)
        requires
            old(self).wf(),
            v.bounded(POS_LIMIT as int),
        ensures
            final(self).wf(),
            final(self).orientation.x == clamp_sp(old(self).orientation.x + v.x, POS_LIMIT as int),
            final(self).orientation.y == clamp_sp(old(self).orientation.y + v.y, POS_LIMIT as int),
            final(self).orientation.z == clamp_sp(old(self).orientation.z + v.z, POS_LIMIT as int),
            *final(self) == (RigidBody { orientation: final(self).orientation, ..*old(self) }),
    {
        self.orientation = self.orientation.add(v).clamp_comps(POS_LIMIT);
    }

    /// Sets the linear velocity of an awake dynamic body.
    pub fn set_lin_vel(&mut self, v: Vect)
        requires
            old(self).wf(),
            !old(self).is_static(),
            old(self).is_active_sp(),
            v.bounded(VEL_LIMIT as int),
        ensures
            final(self).wf(),
            *final(self) == (RigidBody { lin_vel: v, ..*old(self) }),
    {
        self.lin_vel = v;
    }

    /// Sets the angular velocity of an awake dynamic body.
    pub fn set_ang_vel(&mut self, v: Vect)
        requires
            old(self).wf(),
            !old(self).is_static(),
            old(self).is_active_sp(),
            v.bounded(VEL_LIMIT as int),
        ensures
            final(self).wf(),
            *final(self) == (RigidBody { ang_vel: v, ..*old(self) }),
    {
        self.ang_vel = v;
    }

    /// Switches continuous collision detection on with the given safety
    /// margin around the swept ball.
    pub fn enable_ccd(&mut self, margin: i64)
        requires
            old(self).wf(),
            0 <= margin <= POS_LIMIT,
        ensures
            final(self).wf(),
            *final(self) == (RigidBody { ccd_enabled: true, ccd_margin: margin, ..*old(self) }),
    {
        self.ccd_enabled = true;
        self.ccd_margin = margin;
    }

    pub fn disable_ccd(&mut self)
        requires
            old(self).wf(),
        ensures
            final(self).wf(),
            *final(self) == (RigidBody { ccd_enabled: false, ..*old(self) }),
    {
        self.ccd_enabled = false;
    }

    pub fn set_deactivation_threshold(&mut self, threshold: i64)
        requires
            old(self).wf(),
            0 <= threshold <= ENERGY_LIMIT,
        ensures
            final(self).wf(),
            *final(self) == (RigidBody {
                activation: ActivationState { threshold, ..old(self).activation },
                ..*old(self)
            }),
    {
        self.activation.threshold = threshold;
    }

    pub fn set_can_deactivate(&mut self, can_deactivate: bool)
        requires
            old(self).wf(),
        ensures
            final(self).wf(),
            *final(self) == (RigidBody {
                activation: ActivationState { can_deactivate, ..old(self).activation },
                ..*old(self)
            }),
    {
        self.activation.can_deactivate = can_deactivate;
    }
}

impl Body {
    pub open spec fn wf(self) -> bool {
        match self {
            Body::RB(rb) => rb.wf(),
            Body::SB(_) => true,
        }
    }

    pub open spec fn is_rigid(self) -> bool {
        self is RB
    }

    pub open spec fn rb(self) -> RigidBody
        recommends
            self is RB,
    {
        self->RB_0
    }

    pub open spec fn can_move_sp(self) -> bool {
        match self {
            Body::RB(rb) => !rb.is_static(),
            Body::SB(_) => true,
        }
    }

    pub open spec fn is_active_sp(self) -> bool {
        match self {
            Body::RB(rb) => rb.is_active_sp(),
            Body::SB(_) => true,
        }
    }

    pub fn can_move(&self) -> (r: bool)
        ensures
            r == self.can_move_sp(),
    {
        match self {
            Body::RB(rb) => rb.can_move(),
            Body::SB(_) => true,
        }
    }

    pub fn is_active(&self) -> (r: bool)
        ensures
            r == self.is_active_sp(),
    {
        match self {
            Body::RB(rb) => rb.is_active(),
            Body::SB(_) => true,
        }
    }

    /// The rigid body behind the tag. The reserved soft-body tag reaching a
    /// stage is a programmer error, so callers rule it out.
    pub fn to_rigid_body(&self) -> (r: &RigidBody)
        requires
            self is RB,
        ensures
            *r == self.rb(),
    {
        match self {
            Body::RB(rb) => rb,
            Body::SB(_) => vstd::pervasive::unreached(),
        }
    }
}

} // verus!
