//! Geometries, bounding volumes, and the exact contact kernels the narrow
//! phase evaluates for each candidate pair.
//!
//! Contacts carry an unnormalized `normal` pointing from the first body
//! toward the second and a fixed-point penetration `depth`; the two witness
//! points lie on the first and second body.

use vstd::prelude::*;
use crate::fx::{
    div_trunc, div_tz, is_sqrt_floor, isqrt, lemma_div_tz_bound, lemma_mul_bound,
    lemma_sqrt_floor_unique, sqrt_floor, NORM_LIMIT, POS_LIMIT, SCALE,
};
use vstd::arithmetic::mul::lemma_mul_inequality;
use crate::vect::Vect;

verus! {

/// Bound on any coordinate a bounding box may hold.
pub const AABB_LIMIT: i64 = 0x4000_0000;

/// Bound on any coordinate a contact may hold.
pub const CONTACT_LIMIT: i64 = 0x8000_0000;

/// Bound on a contact depth.
pub const DEPTH_LIMIT: i64 = 0x40_0000_0000_0000;

#[derive(Clone, Copy, PartialEq, Eq, Structural, Debug)]
pub enum Geom {
    Ball { radius: i64 },
    Plane { normal: Vect },
}

impl Geom {
    pub open spec fn wf(self) -> bool {
        match self {
            Geom::Ball { radius } => 0 < radius <= POS_LIMIT,
            Geom::Plane { normal } => normal.bounded(NORM_LIMIT as int) && !normal.is_zero(),
        }
    }

    pub fn new_ball(radius: i64) -> (r: Geom)
        requires
            0 < radius <= POS_LIMIT,
        ensures
            r == (Geom::Ball { radius }),
            r.wf(),
    {
        Geom::Ball { radius }
    }

    pub fn new_plane(normal: Vect) -> (r: Geom)
        requires
            normal.bounded(NORM_LIMIT as int),
            !normal.is_zero(),
        ensures
            r == (Geom::Plane { normal }),
            r.wf(),
    {
        Geom::Plane { normal }
    }
}

#[derive(Clone, Copy, PartialEq, Eq, Structural, Debug)]
pub struct Aabb {
    pub min: Vect,
    pub max: Vect,
}

impl Aabb {
    pub open spec fn overlaps_sp(self, o: Aabb) -> bool {
        &&& self.min.x <= o.max.x && o.min.x <= self.max.x
        &&& self.min.y <= o.max.y && o.min.y <= self.max.y
        &&& self.min.z <= o.max.z && o.min.z <= self.max.z
    }

    pub fn overlaps(&self, o: &Aabb) -> (r: bool)
        ensures
            r == self.overlaps_sp(*o),
    {
        self.min.x <= o.max.x && o.min.x <= self.max.x && self.min.y <= o.max.y
            && o.min.y <= self.max.y && self.min.z <= o.max.z && o.min.z <= self.max.z
    }
}

/// The axis-aligned bounding box of a geometry posed at `pos`: a ball's box
/// spans its radius around the center; a plane is unbounded, so its box
/// spans the whole admissible range.
pub open spec fn aabb_sp(g: Geom, pos: Vect) -> Aabb {
    match g {
        Geom::Ball { radius } => Aabb {
            min: Vect {
                x: (pos.x - radius) as i64,
                y: (pos.y - radius) as i64,
                z: (pos.z - radius) as i64,
            },
            max: Vect {
                x: (pos.x + radius) as i64,
                y: (pos.y + radius) as i64,
                z: (pos.z + radius) as i64,
            },
        },
        Geom::Plane { .. } => Aabb {
            min: Vect { x: (-AABB_LIMIT) as i64, y: (-AABB_LIMIT) as i64, z: (-AABB_LIMIT) as i64 },
            max: Vect { x: AABB_LIMIT, y: AABB_LIMIT, z: AABB_LIMIT },
        },
    }
}

/// The axis-aligned bounding box of a geometry posed at `pos`. A plane is
/// unbounded, so its box spans the whole admissible range.
pub fn aabb(g: &Geom, pos: Vect) -> (r: Aabb)
    requires
        g.wf(),
        pos.bounded(POS_LIMIT as int),
    ensures
        r == aabb_sp(*g, pos),
        r.min.bounded(AABB_LIMIT as int),
        r.max.bounded(AABB_LIMIT as int),
        match *g {
            Geom::Ball { radius } => {
                &&& r.min.x == pos.x - radius && r.max.x == pos.x + radius
                &&& r.min.y == pos.y - radius && r.max.y == pos.y + radius
                &&& r.min.z == pos.z - radius && r.max.z == pos.z + radius
            },
            Geom::Plane { .. } => {
                &&& r.min.x == -AABB_LIMIT && r.max.x == AABB_LIMIT
                &&& r.min.y == -AABB_LIMIT && r.max.y == AABB_LIMIT
                &&& r.min.z == -AABB_LIMIT && r.max.z == AABB_LIMIT
            },
        },
{
    match g {
        Geom::Ball { radius } => {
            let rr: i64 = *radius;
            Aabb {
                min: Vect::new(pos.x - rr, pos.y - rr, pos.z - rr),
                max: Vect::new(pos.x + rr, pos.y + rr, pos.z + rr),
            }
        },
        Geom::Plane { .. } => Aabb {
            min: Vect::new(-AABB_LIMIT, -AABB_LIMIT, -AABB_LIMIT),
            max: Vect::new(AABB_LIMIT, AABB_LIMIT, AABB_LIMIT),
        },
    }
}

#[derive(Clone, Copy, PartialEq, Eq, Structural, Debug)]
pub struct Contact {
    pub world1: Vect,
    pub world2: Vect,
    pub normal: Vect,
    pub depth: i64,
}

impl Contact {
    pub open spec fn bounded(self) -> bool {
        &&& self.world1.bounded(CONTACT_LIMIT as int)
        &&& self.world2.bounded(CONTACT_LIMIT as int)
        &&& self.normal.bounded(CONTACT_LIMIT as int)
        &&& 0 <= self.depth <= DEPTH_LIMIT
    }

    /// The same contact seen from the other body.
    pub open spec fn flipped_sp(self) -> Contact {
        Contact {
            world1: self.world2,
            world2: self.world1,
            normal: Vect {
                x: (-self.normal.x) as i64,
                y: (-self.normal.y) as i64,
                z: (-self.normal.z) as i64,
            },
            depth: self.depth,
        }
    }

    pub fn flipped(&self) -> (r: Contact)
        requires
            self.bounded(),
        ensures
            r == self.flipped_sp(),
            r.bounded(),
    {
        Contact {
            world1: self.world2,
            world2: self.world1,
            normal: Vect::new(-self.normal.x, -self.normal.y, -self.normal.z),
            depth: self.depth,
        }
    }
}

/// Two balls penetrate when their centers are distinct and closer than the
/// sum of the radii.
pub open spec fn balls_penetrate(c1: Vect, r1: int, c2: Vect, r2: int) -> bool {
    let d2 = c2.sub_sp(c1).norm_sq_sp();
    0 < d2 < (r1 + r2) * (r1 + r2)
}

/// A ball penetrates a plane when the center's signed distance, scaled by
/// the normal's length, falls below the radius scaled the same way (the
/// normal's length rounds down to `sqrt_floor`).
pub open spec fn ball_plane_penetrates(c: Vect, r: int, p: Vect, n: Vect) -> bool {
    n.dot_sp(c.sub_sp(p)) < r * sqrt_floor(n.norm_sq_sp())
}

/// The contact of two penetrating balls: the normal joins the centers, the
/// witness points sit on each surface along it, and the depth is the radius
/// sum less the center distance.
pub open spec fn ball_ball_contact_sp(c1: Vect, r1: i64, c2: Vect, r2: i64) -> Contact
    recommends
        balls_penetrate(c1, r1 as int, c2, r2 as int),
{
    let d = c2.sub_sp(c1);
    let len = sqrt_floor(d.norm_sq_sp());
    Contact {
        world1: Vect {
            x: (c1.x + div_tz(d.x * r1, len)) as i64,
            y: (c1.y + div_tz(d.y * r1, len)) as i64,
            z: (c1.z + div_tz(d.z * r1, len)) as i64,
        },
        world2: Vect {
            x: (c2.x - div_tz(d.x * r2, len)) as i64,
            y: (c2.y - div_tz(d.y * r2, len)) as i64,
            z: (c2.z - div_tz(d.z * r2, len)) as i64,
        },
        normal: d,
        depth: (r1 + r2 - len) as i64,
    }
}

/// The contact of a ball penetrating a plane, the ball first: the normal is
/// the plane normal reversed, both witness points sit at the ball's deepest
/// point, and the depth is the penetration in fixed-point units.
pub open spec fn ball_plane_contact_sp(c: Vect, r: i64, p: Vect, n: Vect) -> Contact
    recommends
        ball_plane_penetrates(c, r as int, p, n),
{
    let nlen = sqrt_floor(n.norm_sq_sp());
    let dist = n.dot_sp(c.sub_sp(p));
    let deepest = Vect {
        x: (c.x - div_tz(n.x * r, nlen)) as i64,
        y: (c.y - div_tz(n.y * r, nlen)) as i64,
        z: (c.z - div_tz(n.z * r, nlen)) as i64,
    };
    Contact {
        world1: deepest,
        world2: deepest,
        normal: Vect { x: (-n.x) as i64, y: (-n.y) as i64, z: (-n.z) as i64 },
        depth: div_tz(r * nlen - dist, nlen) as i64,
    }
}

/// Any single squared component is bounded by the squared norm, so a
/// component's magnitude never exceeds the norm's floor square root.
proof fn lemma_comp_le_len(comp: int, d2: int, len: int)
    requires
        comp * comp <= d2,
        is_sqrt_floor(len, d2),
    ensures
        -len <= comp <= len,
{
    assert(-len <= comp <= len) by (nonlinear_arith)
        requires comp * comp <= d2, 0 <= len, d2 < (len + 1) * (len + 1);
}

/// The exact contact between two balls, present exactly when they
/// penetrate.
pub fn ball_ball_contact(c1: Vect, r1: i64, c2: Vect, r2: i64) -> (r: Option<Contact>)
    requires
        c1.bounded(POS_LIMIT as int),
        c2.bounded(POS_LIMIT as int),
        0 < r1 <= POS_LIMIT,
        0 < r2 <= POS_LIMIT,
    ensures
        r is Some <==> balls_penetrate(c1, r1 as int, c2, r2 as int),
        r is Some ==> r->Some_0 == ball_ball_contact_sp(c1, r1, c2, r2) && r->Some_0.bounded(),
{
    let d = c2.sub(c1);
    let dist2: i64 = d.norm_sq();
    proof {
        lemma_mul_bound(r1 + r2, r1 + r2, 2 * POS_LIMIT as int, 2 * POS_LIMIT as int);
    }
    let sum: i64 = r1 + r2;
    let sum2: i64 = sum * sum;
    if dist2 <= 0 || dist2 >= sum2 {
        return None;
    }
    let len: i64 = isqrt(dist2 as u64) as i64;
    proof {
        assert(is_sqrt_floor(len as int, dist2 as int));
        assert(len >= 1) by (nonlinear_arith)
            requires is_sqrt_floor(len as int, dist2 as int), dist2 >= 1;
        assert(len < sum) by (nonlinear_arith)
            requires
                is_sqrt_floor(len as int, dist2 as int),
                dist2 < sum * sum,
                sum > 0;
        assert(d.x * d.x <= dist2 && d.y * d.y <= dist2 && d.z * d.z <= dist2)
            by (nonlinear_arith)
            requires dist2 == d.x * d.x + d.y * d.y + d.z * d.z;
        lemma_comp_le_len(d.x as int, dist2 as int, len as int);
        lemma_comp_le_len(d.y as int, dist2 as int, len as int);
        lemma_comp_le_len(d.z as int, dist2 as int, len as int);
        lemma_mul_bound(d.x as int, r1 as int, 0x4000_0000, POS_LIMIT as int);
        lemma_mul_bound(d.y as int, r1 as int, 0x4000_0000, POS_LIMIT as int);
        lemma_mul_bound(d.z as int, r1 as int, 0x4000_0000, POS_LIMIT as int);
        lemma_mul_bound(d.x as int, r2 as int, 0x4000_0000, POS_LIMIT as int);
        lemma_mul_bound(d.y as int, r2 as int, 0x4000_0000, POS_LIMIT as int);
        lemma_mul_bound(d.z as int, r2 as int, 0x4000_0000, POS_LIMIT as int);
        lemma_scaled_offsets(d.x as int, r1 as int, len as int);
        lemma_scaled_offsets(d.y as int, r1 as int, len as int);
        lemma_scaled_offsets(d.z as int, r1 as int, len as int);
        lemma_scaled_offsets(d.x as int, r2 as int, len as int);
        lemma_scaled_offsets(d.y as int, r2 as int, len as int);
        lemma_scaled_offsets(d.z as int, r2 as int, len as int);
    }
    let w1 = Vect::new(
        c1.x + div_trunc(d.x * r1, len),
        c1.y + div_trunc(d.y * r1, len),
        c1.z + div_trunc(d.z * r1, len),
    );
    let w2 = Vect::new(
        c2.x - div_trunc(d.x * r2, len),
        c2.y - div_trunc(d.y * r2, len),
        c2.z - div_trunc(d.z * r2, len),
    );
    Some(Contact { world1: w1, world2: w2, normal: d, depth: sum - len })
}

/// With `|comp| <= len`, the scaled offset `comp * r / len` keeps magnitude
/// at most `r`.
proof fn lemma_scaled_offsets(comp: int, r: int, len: int)
    requires
        1 <= len,
        0 <= r,
        -len <= comp <= len,
    ensures
        -r <= div_tz(comp * r, len) <= r,
{
    lemma_mul_inequality(comp, len, r);
    lemma_mul_inequality(-len, comp, r);
    assert(comp * r <= len * r && -(len * r) <= comp * r) by (nonlinear_arith)
        requires -len <= comp <= len, 0 <= r;
    lemma_div_tz_bound(comp * r, len, r);
}

/// The exact contact of a ball against a plane, the ball first, present
/// exactly when they penetrate.
pub fn ball_plane_contact(c: Vect, r: i64, p: Vect, n: Vect) -> (res: Option<Contact>)
    requires
        c.bounded(POS_LIMIT as int),
        p.bounded(POS_LIMIT as int),
        0 < r <= POS_LIMIT,
        n.bounded(NORM_LIMIT as int),
        !n.is_zero(),
    ensures
        res is Some <==> ball_plane_penetrates(c, r as int, p, n),
        res is Some ==> res->Some_0 == ball_plane_contact_sp(c, r, p, n) && res->Some_0.bounded(),
{
    let nn: i64 = n.norm_sq();
    proof {
        lemma_mul_bound(n.x as int, n.x as int, NORM_LIMIT as int, NORM_LIMIT as int);
        lemma_mul_bound(n.y as int, n.y as int, NORM_LIMIT as int, NORM_LIMIT as int);
        lemma_mul_bound(n.z as int, n.z as int, NORM_LIMIT as int, NORM_LIMIT as int);
        assert(nn >= 1) by (nonlinear_arith)
            requires
                nn == n.x * n.x + n.y * n.y + n.z * n.z,
                !(n.x == 0 && n.y == 0 && n.z == 0);
    }
    let nlen: i64 = isqrt(nn as u64) as i64;
    let d = c.sub(p);
    let dist: i64 = n.dot(d);
    proof {
        assert(is_sqrt_floor(nlen as int, nn as int));
        assert(nlen >= 1) by (nonlinear_arith)
            requires is_sqrt_floor(nlen as int, nn as int), nn >= 1;
        assert(nlen <= 0x40_0000) by (nonlinear_arith)
            requires is_sqrt_floor(nlen as int, nn as int), nn <= 0x1000_0000_0000;
        lemma_mul_bound(r as int, nlen as int, POS_LIMIT as int, 0x40_0000);
    }
    let rn: i64 = r * nlen;
    if dist >= rn {
        return None;
    }
    proof {
        assert(n.x * n.x <= nn && n.y * n.y <= nn && n.z * n.z <= nn) by (nonlinear_arith)
            requires nn == n.x * n.x + n.y * n.y + n.z * n.z;
        lemma_comp_le_len(n.x as int, nn as int, nlen as int);
        lemma_comp_le_len(n.y as int, nn as int, nlen as int);
        lemma_comp_le_len(n.z as int, nn as int, nlen as int);
        lemma_scaled_offsets(n.x as int, r as int, nlen as int);
        lemma_scaled_offsets(n.y as int, r as int, nlen as int);
        lemma_scaled_offsets(n.z as int, r as int, nlen as int);
        lemma_mul_bound(n.x as int, r as int, NORM_LIMIT as int, POS_LIMIT as int);
        lemma_mul_bound(n.y as int, r as int, NORM_LIMIT as int, POS_LIMIT as int);
        lemma_mul_bound(n.z as int, r as int, NORM_LIMIT as int, POS_LIMIT as int);
        lemma_mul_bound(n.x as int, d.x as int, NORM_LIMIT as int, 0x4000_0000);
        lemma_mul_bound(n.y as int, d.y as int, NORM_LIMIT as int, 0x4000_0000);
        lemma_mul_bound(n.z as int, d.z as int, NORM_LIMIT as int, 0x4000_0000);
        assert(rn as int - dist as int <= DEPTH_LIMIT as int * nlen as int) by (nonlinear_arith)
            requires
                0 < rn as int - dist as int <= DEPTH_LIMIT,
                nlen >= 1;
        lemma_div_tz_bound(rn as int - dist as int, nlen as int, DEPTH_LIMIT as int);
    }
    let deepest = Vect::new(
        c.x - div_trunc(n.x * r, nlen),
        c.y - div_trunc(n.y * r, nlen),
        c.z - div_trunc(n.z * r, nlen),
    );
    let depth: i64 = div_trunc(rn - dist, nlen);
    proof {
        vstd::arithmetic::div_mod::lemma_div_pos_is_pos(rn as int - dist as int, nlen as int);
    }
    Some(Contact {
        world1: deepest,
        world2: deepest,
        normal: Vect::new(-n.x, -n.y, -n.z),
        depth,
    })
}

/// Whether two posed geometries penetrate.
pub open spec fn penetrating(g1: Geom, p1: Vect, g2: Geom, p2: Vect) -> bool {
    match (g1, g2) {
        (Geom::Ball { radius: r1 }, Geom::Ball { radius: r2 }) => balls_penetrate(
            p1,
            r1 as int,
            p2,
            r2 as int,
        ),
        (Geom::Ball { radius }, Geom::Plane { normal }) => ball_plane_penetrates(
            p1,
            radius as int,
            p2,
            normal,
        ),
        (Geom::Plane { normal }, Geom::Ball { radius }) => ball_plane_penetrates(
            p2,
            radius as int,
            p1,
            normal,
        ),
        (Geom::Plane { .. }, Geom::Plane { .. }) => false,
    }
}

/// The contact of two posed geometries, oriented from the first toward the
/// second. Two planes never produce a contact: a plane pair is left to rest.
pub open spec fn collide_sp(g1: Geom, p1: Vect, g2: Geom, p2: Vect) -> Option<Contact> {
    if !penetrating(g1, p1, g2, p2) {
        None
    } else {
        match (g1, g2) {
            (Geom::Ball { radius: r1 }, Geom::Ball { radius: r2 }) => Some(
                ball_ball_contact_sp(p1, r1, p2, r2),
            ),
            (Geom::Ball { radius }, Geom::Plane { normal }) => Some(
                ball_plane_contact_sp(p1, radius, p2, normal),
            ),
            (Geom::Plane { normal }, Geom::Ball { radius }) => Some(
                ball_plane_contact_sp(p2, radius, p1, normal).flipped_sp(),
            ),
            (Geom::Plane { .. }, Geom::Plane { .. }) => None,
        }
    }
}

/// The exact contact between two posed geometries: present exactly when
/// they penetrate.
pub fn collide(g1: &Geom, p1: Vect, g2: &Geom, p2: Vect) -> (r: Option<Contact>)
    requires
        g1.wf(),
        g2.wf(),
        p1.bounded(POS_LIMIT as int),
        p2.bounded(POS_LIMIT as int),
    ensures
        r is Some <==> penetrating(*g1, p1, *g2, p2),
        r == collide_sp(*g1, p1, *g2, p2),
        r is Some ==> r->Some_0.bounded(),
{
    match (g1, g2) {
        (Geom::Ball { radius: r1 }, Geom::Ball { radius: r2 }) => ball_ball_contact(
            p1,
            *r1,
            p2,
            *r2,
        ),
        (Geom::Ball { radius }, Geom::Plane { normal }) => ball_plane_contact(
            p1,
            *radius,
            p2,
            *normal,
        ),
        (Geom::Plane { normal }, Geom::Ball { radius }) => {
            match ball_plane_contact(p2, *radius, p1, *normal) {
                Some(c) => Some(c.flipped()),
                None => None,
            }
        },
        (Geom::Plane { .. }, Geom::Plane { .. }) => None,
    }
}


/// Largest time of impact a ray query reports; hits farther along the ray
/// than this horizon are omitted.
pub const TOI_LIMIT: i64 = 0x4000_0000_0000;

/// The time of impact, in fixed-point ray-parameter units, of the ray
/// `origin + dir * t / SCALE` against the plane through `p` with normal
/// `n`: present exactly when the ray is not parallel to the plane and meets
/// it at a nonnegative parameter inside the horizon.
pub open spec fn ray_plane_toi_sp(o: Vect, d: Vect, p: Vect, n: Vect) -> Option<i64> {
    let d0 = n.dot_sp(o.sub_sp(p));
    let dm = n.dot_sp(d);
    if dm == 0 {
        None
    } else {
        let t = if dm > 0 {
            div_tz(-d0 * SCALE, dm)
        } else {
            div_tz(d0 * SCALE, -dm)
        };
        if 0 <= t <= TOI_LIMIT {
            Some(t as i64)
        } else {
            None
        }
    }
}

/// The time of impact of the same ray against the ball at `c` with radius
/// `r`: zero when the origin already lies in the ball, otherwise the
/// smaller root of the quadratic, rounded through the floor square root;
/// present exactly when the ball lies ahead and the ray reaches it inside
/// the horizon.
pub open spec fn ray_ball_toi_sp(o: Vect, d: Vect, c: Vect, r: i64) -> Option<i64> {
    let co = c.sub_sp(o);
    let a = d.norm_sq_sp();
    let b = d.dot_sp(co);
    let c2 = co.norm_sq_sp() - r * r;
    if c2 <= 0 {
        Some(0)
    } else if b <= 0 {
        None
    } else {
        let disc = b * b - a * c2;
        if disc < 0 {
            None
        } else {
            let t = div_tz((b - sqrt_floor(disc)) * SCALE, a);
            if 0 <= t <= TOI_LIMIT {
                Some(t as i64)
            } else {
                None
            }
        }
    }
}

/// The time of impact of a ray against a posed geometry.
pub open spec fn ray_toi_sp(o: Vect, d: Vect, g: Geom, pos: Vect) -> Option<i64> {
    match g {
        Geom::Ball { radius } => ray_ball_toi_sp(o, d, pos, radius),
        Geom::Plane { normal } => ray_plane_toi_sp(o, d, pos, normal),
    }
}

/// The exact time of impact of a ray against one plane.
pub fn ray_plane_toi(o: Vect, d: Vect, p: Vect, n: Vect) -> (res: Option<i64>)
    requires
        o.bounded(POS_LIMIT as int),
        d.bounded(crate::fx::VEL_LIMIT as int),
        p.bounded(POS_LIMIT as int),
        n.bounded(NORM_LIMIT as int),
        !n.is_zero(),
    ensures
        res == ray_plane_toi_sp(o, d, p, n),
{
    let diff = o.sub(p);
    let d0: i64 = n.dot(diff);
    let dm: i64 = n.dot(d);
    if dm == 0 {
        return None;
    }
    proof {
        lemma_mul_bound(n.x as int, diff.x as int, NORM_LIMIT as int, 0x4000_0000);
        lemma_mul_bound(n.y as int, diff.y as int, NORM_LIMIT as int, 0x4000_0000);
        lemma_mul_bound(n.z as int, diff.z as int, NORM_LIMIT as int, 0x4000_0000);
        lemma_mul_bound(n.x as int, d.x as int, NORM_LIMIT as int, crate::fx::VEL_LIMIT as int);
        lemma_mul_bound(n.y as int, d.y as int, NORM_LIMIT as int, crate::fx::VEL_LIMIT as int);
        lemma_mul_bound(n.z as int, d.z as int, NORM_LIMIT as int, crate::fx::VEL_LIMIT as int);
        lemma_mul_bound(d0 as int, crate::fx::SCALE as int, 0x10_0000_0000_0000, 1024);
    }
    let num: i64 = d0 * SCALE;
    let t: i64 = if dm > 0 {
        div_trunc(-num, dm)
    } else {
        div_trunc(num, -dm)
    };
    if 0 <= t && t <= TOI_LIMIT {
        Some(t)
    } else {
        None
    }
}

/// The exact time of impact of a ray against one ball.
pub fn ray_ball_toi(o: Vect, d: Vect, c: Vect, r: i64) -> (res: Option<i64>)
    requires
        o.bounded(POS_LIMIT as int),
        d.bounded(crate::fx::VEL_LIMIT as int),
        c.bounded(POS_LIMIT as int),
        0 < r <= POS_LIMIT,
        !d.is_zero(),
    ensures
        res == ray_ball_toi_sp(o, d, c, r),
{
    let co = c.sub(o);
    let a: i64 = d.norm_sq();
    let b: i64 = d.dot(co);
    proof {
        assert(a >= 1) by (nonlinear_arith)
            requires
                a == d.x * d.x + d.y * d.y + d.z * d.z,
                !(d.x == 0 && d.y == 0 && d.z == 0);
        lemma_mul_bound(r as int, r as int, POS_LIMIT as int, POS_LIMIT as int);
        lemma_mul_bound(d.x as int, co.x as int, crate::fx::VEL_LIMIT as int, 0x4000_0000);
        lemma_mul_bound(d.y as int, co.y as int, crate::fx::VEL_LIMIT as int, 0x4000_0000);
        lemma_mul_bound(d.z as int, co.z as int, crate::fx::VEL_LIMIT as int, 0x4000_0000);
    }
    let cc: i64 = co.norm_sq();
    let c2: i64 = cc - r * r;
    if c2 <= 0 {
        return Some(0);
    }
    if b <= 0 {
        return None;
    }
    proof {
        lemma_mul_bound(d.x as int, d.x as int, crate::fx::VEL_LIMIT as int, crate::fx::VEL_LIMIT as int);
        lemma_mul_bound(d.y as int, d.y as int, crate::fx::VEL_LIMIT as int, crate::fx::VEL_LIMIT as int);
        lemma_mul_bound(d.z as int, d.z as int, crate::fx::VEL_LIMIT as int, crate::fx::VEL_LIMIT as int);
        lemma_mul_bound(co.x as int, co.x as int, 0x4000_0000, 0x4000_0000);
        lemma_mul_bound(co.y as int, co.y as int, 0x4000_0000, 0x4000_0000);
        lemma_mul_bound(co.z as int, co.z as int, 0x4000_0000, 0x4000_0000);
        lemma_mul_bound(b as int, b as int, 0xC0_0000_0000_0000, 0xC0_0000_0000_0000);
        lemma_mul_bound(a as int, c2 as int, 0x3_0000_0000_0000, 0x7000_0000_0000_0000);
    }
    let disc: i128 = (b as i128) * (b as i128) - (a as i128) * (c2 as i128);
    if disc < 0 {
        return None;
    }
    let root: u64 = crate::fx::isqrt128(disc as u128);
    proof {
        assert(is_sqrt_floor(root as int, disc as int));
        assert((root as int) <= 0x200_0000_0000_0000) by (nonlinear_arith)
            requires
                is_sqrt_floor(root as int, disc as int),
                disc <= 0x4_0000_0000_0000_0000_0000_0000_0000;
        lemma_mul_bound(
            b as int - root as int,
            crate::fx::SCALE as int,
            0x400_0000_0000_0000,
            1024,
        );
    }
    let num: i128 = ((b as i128) - (root as i128)) * (crate::fx::SCALE as i128);
    let t: i128 = crate::fx::div_trunc_i128(num, a as i128);
    if 0 <= t && t <= TOI_LIMIT as i128 {
        Some(t as i64)
    } else {
        None
    }
}

} // verus!
