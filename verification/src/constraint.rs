//! The constraints a step hands to the solver: contact constraints from the
//! narrow phase and equality constraints from the joints. They are
//! materialized each step and consumed the same step.

use vstd::prelude::*;
use crate::geom::Contact;
use crate::joint::{BallInSocketJoint, FixedJoint};

verus! {

#[derive(Clone, Copy, PartialEq, Eq, Structural, Debug)]
pub enum Constraint {
    /// A contact manifold point between two rigid bodies.
    RBRB { a: usize, b: usize, contact: Contact },
    /// Two anchor points required to coincide.
    BallInSocket { joint: BallInSocketJoint },
    /// Two local frames required to coincide in position and orientation.
    Fixed { joint: FixedJoint },
}

} // verus!
