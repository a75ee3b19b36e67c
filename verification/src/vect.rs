//! Fixed-point vectors with three components.
//!
//! Two-dimensional worlds keep the third component at zero; the angular
//! velocity of a planar body lives in the third component alone.

use vstd::prelude::*;
use crate::fx::{clamp, clamp_sp, fx_mul, fx_mul_sp};

verus! {

#[derive(Clone, Copy, PartialEq, Eq, Structural, Debug)]
pub struct Vect {
    pub x: i64,
    pub y: i64,
    pub z: i64,
}

impl Vect {
    /// Every component lies in `[-lim, lim]`.
    pub open spec fn bounded(self, lim: int) -> bool {
        &&& -lim <= self.x as int <= lim
        &&& -lim <= self.y as int <= lim
        &&& -lim <= self.z as int <= lim
    }

    pub open spec fn is_zero(self) -> bool {
        self.x == 0 && self.y == 0 && self.z == 0
    }

    /// The exact dot product, as an unbounded integer.
    pub open spec fn dot_sp(self, o: Vect) -> int {
        (self.x as int) * (o.x as int) + (self.y as int) * (o.y as int)
            + (self.z as int) * (o.z as int)
    }

    /// The exact squared Euclidean norm.
    pub open spec fn norm_sq_sp(self) -> int {
        self.dot_sp(self)
    }

    /// The exact componentwise difference; its recommends keep the casts
    /// below the representable range.
    pub open spec fn sub_sp(self, o: Vect) -> Vect
        recommends
            self.bounded(0x2000_0000_0000_0000),
            o.bounded(0x2000_0000_0000_0000),
    {
        Vect {
            x: (self.x - o.x) as i64,
            y: (self.y - o.y) as i64,
            z: (self.z - o.z) as i64,
        }
    }

    pub fn zero() -> (r: Vect)
        ensures
            r.is_zero(),
    {
        Vect { x: 0, y: 0, z: 0 }
    }

    pub fn new(x: i64, y: i64, z: i64) -> (r: Vect)
        ensures
            r == (Vect { x, y, z }),
    {
        Vect { x, y, z }
    }

    pub fn add(self, o: Vect) -> (r: Vect)
        requires
            self.bounded(0x2000_0000_0000_0000),
            o.bounded(0x2000_0000_0000_0000),
        ensures
            r.x == self.x + o.x,
            r.y == self.y + o.y,
            r.z == self.z + o.z,
    {
        Vect { x: self.x + o.x, y: self.y + o.y, z: self.z + o.z }
    }

    pub fn sub(self, o: Vect) -> (r: Vect)
        requires
            self.bounded(0x2000_0000_0000_0000),
            o.bounded(0x2000_0000_0000_0000),
        ensures
            r.x == self.x - o.x,
            r.y == self.y - o.y,
            r.z == self.z - o.z,
            r == self.sub_sp(o),
    {
        Vect { x: self.x - o.x, y: self.y - o.y, z: self.z - o.z }
    }

    pub fn neg(self) -> (r: Vect)
        requires
            self.bounded(0x2000_0000_0000_0000),
        ensures
            r.x == -self.x,
            r.y == -self.y,
            r.z == -self.z,
    {
        Vect { x: -self.x, y: -self.y, z: -self.z }
    }

    /// The componentwise scaled product, as `scale` computes it.
    pub open spec fn scale_sp(self, f: int) -> Vect {
        Vect {
            x: fx_mul_sp(self.x as int, f) as i64,
            y: fx_mul_sp(self.y as int, f) as i64,
            z: fx_mul_sp(self.z as int, f) as i64,
        }
    }

    /// Componentwise scaling by a small fixed-point factor such as a time
    /// step or a damping coefficient.
    pub fn scale(self, f: i64) -> (r: Vect)
        requires
            self.bounded(0x1_0000_0000_0000),
            -0x10_0000i64 <= f <= 0x10_0000i64,
        ensures
            r.x == fx_mul_sp(self.x as int, f as int),
            r.y == fx_mul_sp(self.y as int, f as int),
            r.z == fx_mul_sp(self.z as int, f as int),
            r == self.scale_sp(f as int),
    {
        Vect { x: fx_mul(self.x, f), y: fx_mul(self.y, f), z: fx_mul(self.z, f) }
    }

    /// The componentwise sum clamped into `[-lim, lim]`, as `add_clamped`
    /// computes it.
    pub open spec fn add_clamped_sp(self, o: Vect, lim: int) -> Vect {
        Vect {
            x: clamp_sp(self.x + o.x, lim) as i64,
            y: clamp_sp(self.y + o.y, lim) as i64,
            z: clamp_sp(self.z + o.z, lim) as i64,
        }
    }

    /// Componentwise addition saturating at the symmetric bound `lim`.
    pub fn add_clamped(self, o: Vect, lim: i64) -> (r: Vect)
        requires
            self.bounded(0x2000_0000_0000_0000),
            o.bounded(0x2000_0000_0000_0000),
            lim >= 0,
        ensures
            r == self.add_clamped_sp(o, lim as int),
            r.bounded(lim as int),
    {
        self.add(o).clamp_comps(lim)
    }

    /// Componentwise clamping into `[-lim, lim]`.
    pub fn clamp_comps(self, lim: i64) -> (r: Vect)
        requires
            lim >= 0,
        ensures
            r.x == clamp_sp(self.x as int, lim as int),
            r.y == clamp_sp(self.y as int, lim as int),
            r.z == clamp_sp(self.z as int, lim as int),
            r.bounded(lim as int),
    {
        Vect { x: clamp(self.x, lim), y: clamp(self.y, lim), z: clamp(self.z, lim) }
    }

    /// The exact dot product. The bound keeps the three partial products and
    /// their sum inside `i64`.
    pub fn dot(self, o: Vect) -> (r: i64)
        requires
            self.bounded(0x4000_0000),
            o.bounded(0x4000_0000),
        ensures
            r == self.dot_sp(o),
    {
        proof {
            lemma_prod_bound(self.x as int, o.x as int);
            lemma_prod_bound(self.y as int, o.y as int);
            lemma_prod_bound(self.z as int, o.z as int);
        }
        let px: i64 = self.x * o.x;
        let py: i64 = self.y * o.y;
        let pz: i64 = self.z * o.z;
        px + py + pz
    }

    /// The exact squared norm.
    pub fn norm_sq(self) -> (r: i64)
        requires
            self.bounded(0x4000_0000),
        ensures
            r == self.norm_sq_sp(),
            r >= 0,
    {
        proof {
            lemma_norm_sq_nonneg(self);
        }
        self.dot(self)
    }
}

/// A scaled vector's components stay within the product of the bounds.
pub proof fn lemma_scale_sp_bounded(v: Vect, f: int, lim: int, flim: int)
    requires
        0 <= lim,
        0 <= flim,
        v.bounded(lim),
        -flim <= f <= flim,
    ensures
        v.scale_sp(f).bounded(lim * flim),
{
    crate::fx::lemma_fx_mul_sp_bound(v.x as int, f, lim, flim);
    crate::fx::lemma_fx_mul_sp_bound(v.y as int, f, lim, flim);
    crate::fx::lemma_fx_mul_sp_bound(v.z as int, f, lim, flim);
}

/// The product of two component-bounded values stays well inside `i64`.
proof fn lemma_prod_bound(a: int, b: int)
    requires
        -0x4000_0000 <= a <= 0x4000_0000,
        -0x4000_0000 <= b <= 0x4000_0000,
    ensures
        -0x1000_0000_0000_0000 <= a * b <= 0x1000_0000_0000_0000,
{
    assert(-0x1000_0000_0000_0000 <= a * b <= 0x1000_0000_0000_0000) by (nonlinear_arith)
        requires -0x4000_0000 <= a <= 0x4000_0000, -0x4000_0000 <= b <= 0x4000_0000;
}

/// A squared norm is never negative.
pub proof fn lemma_norm_sq_nonneg(v: Vect)
    ensures
        v.norm_sq_sp() >= 0,
{
    assert(v.norm_sq_sp() >= 0) by (nonlinear_arith);
}

} // verus!
