//! The pairwise collision dispatcher: given two bodies it hands back either
//! a stateful geometry-against-geometry detector or refuses the pair, and it
//! decides which pairs are worth watching at all.

use vstd::prelude::*;
use crate::fx::POS_LIMIT;
use crate::geom::{collide, collide_sp, Contact, Geom};
use crate::object::Body;
use crate::vect::Vect;

verus! {

/// A stateful detector for one body pair: it remembers the current contact
/// between the two geometries across steps.
#[derive(Clone, Copy, PartialEq, Eq, Structural, Debug)]
pub struct GeomGeom {
    pub contact: Option<Contact>,
}

impl GeomGeom {
    pub open spec fn wf(self) -> bool {
        self.contact is Some ==> self.contact->Some_0.bounded()
    }

    pub fn new() -> (r: GeomGeom)
        ensures
            r.contact is None,
            r.wf(),
    {
        GeomGeom { contact: None }
    }

    /// Recomputes the contact from the two current poses and geometries.
    pub fn update(&mut self, g1: &Geom, p1: Vect, g2: &Geom, p2: Vect)
        requires
            g1.wf(),
            g2.wf(),
            p1.bounded(POS_LIMIT as int),
            p2.bounded(POS_LIMIT as int),
        ensures
            final(self).contact == collide_sp(*g1, p1, *g2, p2),
            final(self).wf(),
    {
        self.contact = collide(g1, p1, g2, p2);
    }

    /// How many contact points the last update found.
    pub fn num_colls(&self) -> (r: usize)
        ensures
            r == if self.contact is Some { 1int } else { 0int },
    {
        if self.contact.is_some() {
            1
        } else {
            0
        }
    }

    /// Appends the current contacts to `out`.
    pub fn colls(&self, out: &mut Vec<Contact>)
        ensures
            final(out)@ == match self.contact {
                Some(c) => old(out)@.push(c),
                None => old(out)@,
            },
    {
        match &self.contact {
            Some(c) => out.push(*c),
            None => (),
        }
    }
}

/// What the dispatcher hands back for a pair of bodies.
#[derive(Clone, Copy, PartialEq, Eq, Structural, Debug)]
pub enum PairwiseDetector {
    GG(GeomGeom),
    Unsupported,
}

impl PairwiseDetector {
    pub open spec fn wf(self) -> bool {
        match self {
            PairwiseDetector::GG(gg) => gg.wf(),
            PairwiseDetector::Unsupported => true,
        }
    }

    /// How many contact points the detector currently holds.
    pub fn num_colls(&self) -> (r: usize)
        ensures
            r == match self {
                PairwiseDetector::GG(gg) => if gg.contact is Some { 1int } else { 0int },
                PairwiseDetector::Unsupported => 0int,
            },
    {
        match self {
            PairwiseDetector::GG(gg) => gg.num_colls(),
            PairwiseDetector::Unsupported => 0,
        }
    }
}

/// What `dispatch` yields for two bodies: a fresh geometry-geometry
/// detector for two rigid bodies, a refusal for anything else.
pub open spec fn dispatch_sp(a: Body, b: Body) -> PairwiseDetector {
    if a is RB && b is RB {
        PairwiseDetector::GG(GeomGeom { contact: None })
    } else {
        PairwiseDetector::Unsupported
    }
}

/// A pair is worth watching when the two identities differ and, for two
/// rigid bodies, at least one of them can move: static pairs rest forever.
pub open spec fn is_valid_sp(a_id: usize, b_id: usize, a: Body, b: Body) -> bool {
    a_id != b_id && match (a, b) {
        (Body::RB(ra), Body::RB(rb)) => !ra.is_static() || !rb.is_static(),
        _ => true,
    }
}

/// Builds pairwise detectors from bounding-volume overlap events.
pub struct Dispatcher {}

impl Dispatcher {
    /// The exact contact kernels need no scratch space, so the dispatcher
    /// itself carries none.
    pub fn new() -> (r: Dispatcher) {
        Dispatcher {}
    }

    /// The detector for a fresh pair.
    pub fn dispatch(&self, a: &Body, b: &Body) -> (r: PairwiseDetector)
        ensures
            r == dispatch_sp(*a, *b),
            r.wf(),
    {
        match (a, b) {
            (Body::RB(_), Body::RB(_)) => PairwiseDetector::GG(GeomGeom::new()),
            _ => PairwiseDetector::Unsupported,
        }
    }

    /// Whether a pair of bodies should be watched at all.
    pub fn is_valid(&self, a_id: usize, b_id: usize, a: &Body, b: &Body) -> (r: bool)
        ensures
            r == is_valid_sp(a_id, b_id, *a, *b),
    {
        if a_id == b_id {
            return false;
        }
        match (a, b) {
            (Body::RB(ra), Body::RB(rb)) => ra.can_move() || rb.can_move(),
            _ => true,
        }
    }
}

} // verus!
