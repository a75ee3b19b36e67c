//! Fixed-point scalar arithmetic.
//!
//! A scalar is an `i64` counting `SCALE` fractional units per world unit.
//! Every operation is exact: each function states the integer value of its
//! result, so the simulation pipeline built on top of these operations is a
//! mathematical function of its inputs.

use vstd::prelude::*;
use vstd::arithmetic::div_mod::{
    lemma_div_is_ordered, lemma_div_multiples_vanish, lemma_div_pos_is_pos,
};
use vstd::arithmetic::mul::lemma_mul_inequality;

verus! {

/// Fractional units per world unit.
pub const SCALE: i64 = 1024;

/// Absolute bound on positions, radii and other lengths held by a world.
pub const POS_LIMIT: i64 = 0x2000_0000;

/// Absolute bound on velocities and accelerations held by a world.
pub const VEL_LIMIT: i64 = 0x100_0000;

/// Absolute bound on the components of a plane normal.
pub const NORM_LIMIT: i64 = 0x10_0000;

/// Largest admissible time step, in fixed-point seconds.
pub const DT_LIMIT: i64 = 0x1_0000;

/// Division truncated toward zero, for a positive divisor.
pub open spec fn div_tz(a: int, b: int) -> int
    recommends
        b > 0,
{
    if a >= 0 {
        a / b
    } else {
        -((-a) / b)
    }
}

/// Clamping of `x` into the symmetric interval `[-lim, lim]`.
pub open spec fn clamp_sp(x: int, lim: int) -> int
    recommends
        lim >= 0,
{
    if x > lim {
        lim
    } else if x < -lim {
        -lim
    } else {
        x
    }
}

/// The scaled product `a * b / SCALE`, truncated toward zero: the product of
/// two fixed-point scalars.
pub open spec fn fx_mul_sp(a: int, b: int) -> int {
    div_tz(a * b, SCALE as int)
}

pub fn clamp(x: i64, lim: i64) -> (r: i64)
    requires
        lim >= 0,
    ensures
        r == clamp_sp(x as int, lim as int),
        -lim <= r <= lim,
{
    if x > lim {
        lim
    } else if x < -lim {
        -lim
    } else {
        x
    }
}

/// Truncating division of a signed value by a positive divisor.
pub fn div_trunc(a: i64, b: i64) -> (r: i64)
    requires
        b > 0,
        a > i64::MIN,
    ensures
        r == div_tz(a as int, b as int),
{
    if a >= 0 {
        let q: u64 = (a as u64) / (b as u64);
        proof {
            lemma_div_is_ordered(a as int, a as int, b as int);
            lemma_div_pos_is_pos(a as int, b as int);
            assert(a as int / b as int <= a as int) by {
                lemma_mul_inequality(1, b as int, a as int);
                lemma_div_is_ordered(a as int, a as int * b as int, b as int);
                lemma_div_multiples_vanish(a as int, b as int);
            }
        }
        q as i64
    } else {
        let n: i64 = -a;
        let q: u64 = (n as u64) / (b as u64);
        proof {
            lemma_div_pos_is_pos(n as int, b as int);
            assert(n as int / b as int <= n as int) by {
                lemma_mul_inequality(1, b as int, n as int);
                lemma_div_is_ordered(n as int, n as int * b as int, b as int);
                lemma_div_multiples_vanish(n as int, b as int);
            }
        }
        -(q as i64)
    }
}

/// The product of two fixed-point scalars, truncated toward zero. The
/// second factor is a small scalar such as a time step or a damping
/// coefficient, which keeps the result inside the representable range.
pub fn fx_mul(a: i64, b: i64) -> (r: i64)
    requires
        -0x1_0000_0000_0000i64 <= a <= 0x1_0000_0000_0000i64,
        -0x10_0000i64 <= b <= 0x10_0000i64,
    ensures
        r == fx_mul_sp(a as int, b as int),
{
    proof {
        lemma_mul_bound(a as int, b as int, 0x1_0000_0000_0000, 0x10_0000);
        lemma_div_tz_bound((a as int) * (b as int), SCALE as int, 0x400_0000_0000_0000);
    }
    let p: i128 = (a as i128) * (b as i128);
    if p >= 0 {
        let q: u128 = (p as u128) / (SCALE as u128);
        q as i64
    } else {
        let n: i128 = -p;
        let q: u128 = (n as u128) / (SCALE as u128);
        -(q as i64)
    }
}

/// `r` is the floor of the square root of `x`.
pub open spec fn is_sqrt_floor(r: int, x: int) -> bool {
    0 <= r && r * r <= x && x < (r + 1) * (r + 1)
}

/// The floor of the square root: `r * r <= x < (r + 1) * (r + 1)`.
pub open spec fn sqrt_floor(x: int) -> int
    recommends
        x >= 0,
{
    choose|r: int| is_sqrt_floor(r, x)
}

/// The floor square root is unique, so any witness of its defining bounds
/// equals `sqrt_floor`.
pub proof fn lemma_sqrt_floor_unique(x: int, r: int)
    requires
        0 <= r,
        r * r <= x,
        x < (r + 1) * (r + 1),
    ensures
        sqrt_floor(x) == r,
{
    assert(is_sqrt_floor(r, x));
    let q = sqrt_floor(x);
    assert(is_sqrt_floor(q, x)) by {
        assert(exists|s: int| is_sqrt_floor(s, x));
    }
    if q < r {
        assert((q + 1) * (q + 1) <= r * r) by (nonlinear_arith)
            requires 0 <= q, q < r;
    }
    if q > r {
        assert((r + 1) * (r + 1) <= q * q) by (nonlinear_arith)
            requires 0 <= r, r < q;
    }
}

/// Integer square root by bisection.
pub fn isqrt(x: u64) -> (r: u64)
    ensures
        is_sqrt_floor(r as int, x as int),
        r as int == sqrt_floor(x as int),
        r <= 0x1_0000_0000,
{
    let mut lo: u64 = 0;
    let mut hi: u64 = 0x1_0000_0000;
    while lo + 1 < hi
        invariant
            0 <= lo < hi <= 0x1_0000_0000,
            (lo as int) * (lo as int) <= x as int,
            (x as int) < (hi as int) * (hi as int),
        decreases hi - lo,
    {
        let mid: u64 = lo + (hi - lo) / 2;
        proof {
            lemma_mul_bound(mid as int, mid as int, 0xffff_ffff, 0xffff_ffff);
        }
        if mid * mid <= x {
            lo = mid;
        } else {
            hi = mid;
        }
    }
    proof {
        lemma_sqrt_floor_unique(x as int, lo as int);
    }
    lo
}

/// Scaling by a factor in `[0, SCALE]` cannot grow a value's magnitude.
pub proof fn lemma_fx_mul_shrinks(a: int, d: int)
    requires
        0 <= d <= SCALE as int,
    ensures
        a >= 0 ==> 0 <= fx_mul_sp(a, d) <= a,
        a < 0 ==> a <= fx_mul_sp(a, d) <= 0,
{
    let s = SCALE as int;
    if a >= 0 {
        lemma_mul_inequality(d, s, a);
        assert(a * d == d * a) by (nonlinear_arith);
        assert(a * s == s * a) by (nonlinear_arith);
        lemma_div_is_ordered(a * d, a * s, s);
        lemma_div_multiples_vanish(a, s);
        assert(a * d >= 0) by (nonlinear_arith)
            requires a >= 0, d >= 0;
        lemma_div_pos_is_pos(a * d, s);
    } else {
        let n = -a;
        lemma_mul_inequality(d, s, n);
        assert(n * d == d * n) by (nonlinear_arith);
        assert(n * s == s * n) by (nonlinear_arith);
        lemma_div_is_ordered(n * d, n * s, s);
        lemma_div_multiples_vanish(n, s);
        assert(n * d >= 0) by (nonlinear_arith)
            requires n >= 0, d >= 0;
        lemma_div_pos_is_pos(n * d, s);
        assert(a * d == -(n * d)) by (nonlinear_arith)
            requires n == -a;
        if a * d == 0 {
            assert(div_tz(a * d, s) == 0);
        } else {
            assert(div_tz(a * d, s) == -((n * d) / s));
        }
    }
}

/// Bound on a product of bounded factors.
pub proof fn lemma_mul_bound(a: int, b: int, aa: int, bb: int)
    requires
        0 <= aa,
        0 <= bb,
        -aa <= a <= aa,
        -bb <= b <= bb,
    ensures
        -(aa * bb) <= a * b <= aa * bb,
{
    assert(-(aa * bb) <= a * b <= aa * bb) by (nonlinear_arith)
        requires 0 <= aa, 0 <= bb, -aa <= a <= aa, -bb <= b <= bb;
}

/// Truncating division keeps a quotient whose dividend is bounded by
/// `m * b` inside `[-m, m]`.
pub proof fn lemma_div_tz_bound(a: int, b: int, m: int)
    requires
        b >= 1,
        0 <= m,
        -(m * b) <= a <= m * b,
    ensures
        -m <= div_tz(a, b) <= m,
{
    lemma_div_multiples_vanish(m, b);
    assert((b * m) / b == m);
    if a >= 0 {
        lemma_div_is_ordered(a, m * b, b);
        lemma_div_pos_is_pos(a, b);
        assert(div_tz(a, b) == a / b);
        assert(a / b <= (m * b) / b);
    } else {
        lemma_div_is_ordered(-a, m * b, b);
        lemma_div_pos_is_pos(-a, b);
        assert(div_tz(a, b) == -((-a) / b));
        assert((-a) / b <= (m * b) / b);
    }
}

/// A coarse bound on a scaled product: it never exceeds the product of the
/// factors' bounds.
pub proof fn lemma_fx_mul_sp_bound(a: int, b: int, aa: int, bb: int)
    requires
        0 <= aa,
        0 <= bb,
        -aa <= a <= aa,
        -bb <= b <= bb,
    ensures
        -(aa * bb) <= fx_mul_sp(a, b) <= aa * bb,
{
    lemma_mul_bound(a, b, aa, bb);
    assert(aa * bb <= (aa * bb) * SCALE) by (nonlinear_arith)
        requires 0 <= aa, 0 <= bb;
    lemma_div_tz_bound(a * b, SCALE as int, aa * bb);
}

/// The magnitude of `a` is at most the magnitude of `b`.
pub open spec fn mag_le(a: int, b: int) -> bool {
    if b >= 0 {
        -b <= a <= b
    } else {
        b <= a <= -b
    }
}

/// A value whose magnitude does not grow cannot gain square either.
pub proof fn lemma_square_monotone(r: int, a: int)
    requires
        -a <= r <= a || a <= r <= -a,
    ensures
        r * r <= a * a,
{
    assert(r * r <= a * a) by (nonlinear_arith)
        requires -a <= r <= a || a <= r <= -a;
}


/// Integer square root by bisection, for wide operands.
pub fn isqrt128(x: u128) -> (r: u64)
    ensures
        is_sqrt_floor(r as int, x as int),
        r as int == sqrt_floor(x as int),
{
    let mut lo: u128 = 0;
    let mut hi: u128 = 0x1_0000_0000_0000_0000;
    while lo + 1 < hi
        invariant
            0 <= lo < hi <= 0x1_0000_0000_0000_0000,
            (lo as int) * (lo as int) <= x as int,
            (x as int) < (hi as int) * (hi as int),
        decreases hi - lo,
    {
        let mid: u128 = lo + (hi - lo) / 2;
        proof {
            lemma_mul_bound(mid as int, mid as int, 0xffff_ffff_ffff_ffff, 0xffff_ffff_ffff_ffff);
        }
        if mid * mid <= x {
            lo = mid;
        } else {
            hi = mid;
        }
    }
    proof {
        lemma_sqrt_floor_unique(x as int, lo as int);
    }
    lo as u64
}

/// Truncating division of a wide signed value by a positive divisor.
pub fn div_trunc_i128(a: i128, b: i128) -> (r: i128)
    requires
        b > 0,
        a > i128::MIN,
    ensures
        r == div_tz(a as int, b as int),
{
    if a >= 0 {
        let q: u128 = (a as u128) / (b as u128);
        proof {
            lemma_div_pos_is_pos(a as int, b as int);
            assert(a as int / b as int <= a as int) by {
                lemma_mul_inequality(1, b as int, a as int);
                lemma_div_is_ordered(a as int, a as int * b as int, b as int);
                lemma_div_multiples_vanish(a as int, b as int);
            }
        }
        q as i128
    } else {
        let n: i128 = -a;
        let q: u128 = (n as u128) / (b as u128);
        proof {
            lemma_div_pos_is_pos(n as int, b as int);
            assert(n as int / b as int <= n as int) by {
                lemma_mul_inequality(1, b as int, n as int);
                lemma_div_is_ordered(n as int, n as int * b as int, b as int);
                lemma_div_multiples_vanish(n as int, b as int);
            }
        }
        -(q as i128)
    }
}

} // verus!
