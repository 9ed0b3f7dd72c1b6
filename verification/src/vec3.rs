//! Three-component fixed-point vectors.
//!
//! `Vec3` serves as point, direction and color alike. Its mathematical
//! model is `V3`, a triple of unbounded integers; every executable
//! operation states exactly which `V3` it returns.

use vstd::prelude::*;
use vstd::arithmetic::div_mod::{lemma_fundamental_div_mod, lemma_mod_division_less_than_divisor};
use crate::fixed::{
    FP_ONE, mag, tdiv, fmul, fdiv, is_sqrt, spec_isqrt, mul_fp, div_fp, isqrt,
    lemma_tdiv_mag, lemma_tdiv_ordered, lemma_tdiv_exact, lemma_mul_mag,
};

verus! {

/// The mathematical model of a vector: unbounded integer components,
/// still in 16.16 fixed-point scale.
pub struct V3 {
    pub x: int,
    pub y: int,
    pub z: int,
}

/// All three components within `[-m, m]`.
pub open spec fn v_bounded(v: V3, m: int) -> bool {
    mag(v.x) <= m && mag(v.y) <= m && mag(v.z) <= m
}

pub open spec fn v_add(a: V3, b: V3) -> V3 {
    V3 { x: a.x + b.x, y: a.y + b.y, z: a.z + b.z }
}

pub open spec fn v_sub(a: V3, b: V3) -> V3 {
    V3 { x: a.x - b.x, y: a.y - b.y, z: a.z - b.z }
}

pub open spec fn v_neg(a: V3) -> V3 {
    V3 { x: -a.x, y: -a.y, z: -a.z }
}

/// Scale by a fixed-point factor `k`.
pub open spec fn v_scale(k: int, a: V3) -> V3 {
    V3 { x: fmul(k, a.x), y: fmul(k, a.y), z: fmul(k, a.z) }
}

/// Componentwise fixed-point product (colors filter colors this way).
pub open spec fn v_cmul(a: V3, b: V3) -> V3 {
    V3 { x: fmul(a.x, b.x), y: fmul(a.y, b.y), z: fmul(a.z, b.z) }
}

/// Fixed-point dot product: one truncation after the exact sum.
pub open spec fn v_dot(a: V3, b: V3) -> int {
    tdiv(a.x * b.x + a.y * b.y + a.z * b.z, FP_ONE as int)
}

/// Fixed-point cross product: one truncation per component.
pub open spec fn v_cross(a: V3, b: V3) -> V3 {
    V3 {
        x: tdiv(a.y * b.z - a.z * b.y, FP_ONE as int),
        y: tdiv(a.z * b.x - a.x * b.z, FP_ONE as int),
        z: tdiv(a.x * b.y - a.y * b.x, FP_ONE as int),
    }
}

/// Raw squared norm: exact sum of squared components, in S^2 scale.
pub open spec fn v_norm2(a: V3) -> int {
    a.x * a.x + a.y * a.y + a.z * a.z
}

/// Fixed-point length: integer square root of the raw squared norm.
pub open spec fn v_len(a: V3) -> int {
    spec_isqrt(v_norm2(a))
}

/// Normalization; the zero vector stays put.
pub open spec fn v_unit(a: V3) -> V3 {
    if a.x == 0 && a.y == 0 && a.z == 0 {
        a
    } else {
        V3 {
            x: tdiv(a.x * FP_ONE, v_len(a)),
            y: tdiv(a.y * FP_ONE, v_len(a)),
            z: tdiv(a.z * FP_ONE, v_len(a)),
        }
    }
}

/// Every component within one representation step of zero: the
/// degeneracy test of diffuse scattering.
pub open spec fn v_near_zero(v: V3) -> bool {
    mag(v.x) <= 1 && mag(v.y) <= 1 && mag(v.z) <= 1
}

/// What normalization can hand back: the zero vector, or a vector whose
/// squared norm lies within a few representation steps of the unit.
pub open spec fn unit_sample(u: V3) -> bool {
    &&& v_bounded(u, FP_ONE as int)
    &&& (u == (V3 { x: 0, y: 0, z: 0 }) || ((FP_ONE as int) * (FP_ONE as int) - 7
        * (FP_ONE as int) < v_norm2(u) && v_norm2(u) <= 3 * (FP_ONE as int) * (
    FP_ONE as int)))
}

/// A point of the closed fixed-point unit ball.
pub open spec fn in_unit_ball(p: V3) -> bool {
    v_bounded(p, FP_ONE as int) && v_norm2(p) <= (FP_ONE as int) * (FP_ONE as int)
}

/// Mirror `v` about the normal `n`: `v - 2 (v . n) n` in fixed point.
pub open spec fn v_reflect(v: V3, n: V3) -> V3 {
    v_sub(v, v_scale(2 * v_dot(v, n), n))
}

/// A square root bound dominates the magnitude of each component whose
/// square it covers.
pub proof fn lemma_sqrt_dominates(n: int, r: int, x: int)
    requires
        is_sqrt(n, r),
        x * x <= n,
    ensures
        mag(x) <= r,
{
    assert(mag(x) <= r) by (nonlinear_arith)
        requires
            0 <= r,
            r * r <= n,
            n < ((r + 1) * (r + 1)),
            x * x <= n,
    ;
}

/// Bound a dot product from bounds on its operands, and bound each
/// componentwise product on the way.
pub proof fn lemma_dot_mag(a: V3, b: V3, ma: int, mb: int, q: int)
    requires
        v_bounded(a, ma),
        v_bounded(b, mb),
        0 <= q,
        3 * (ma * mb) <= q * FP_ONE as int,
    ensures
        mag(a.x * b.x) <= ma * mb,
        mag(a.y * b.y) <= ma * mb,
        mag(a.z * b.z) <= ma * mb,
        mag(v_dot(a, b)) <= q,
{
    lemma_mul_mag(a.x, b.x, ma, mb);
    lemma_mul_mag(a.y, b.y, ma, mb);
    lemma_mul_mag(a.z, b.z, ma, mb);
    let s = a.x * b.x + a.y * b.y + a.z * b.z;
    lemma_tdiv_mag(s, FP_ONE as int);
    lemma_tdiv_ordered(mag(s), q * FP_ONE as int, FP_ONE as int);
    lemma_tdiv_exact(q, FP_ONE as int);
}

/// Bound a cross product from bounds on its operands.
pub proof fn lemma_cross_bound(a: V3, b: V3, ma: int, mb: int, q: int)
    requires
        v_bounded(a, ma),
        v_bounded(b, mb),
        0 <= q,
        2 * (ma * mb) <= q * FP_ONE as int,
    ensures
        v_bounded(v_cross(a, b), q),
{
    lemma_mul_mag(a.y, b.z, ma, mb);
    lemma_mul_mag(a.z, b.y, ma, mb);
    lemma_mul_mag(a.z, b.x, ma, mb);
    lemma_mul_mag(a.x, b.z, ma, mb);
    lemma_mul_mag(a.x, b.y, ma, mb);
    lemma_mul_mag(a.y, b.x, ma, mb);
    lemma_tdiv_mag(a.y * b.z - a.z * b.y, FP_ONE as int);
    lemma_tdiv_mag(a.z * b.x - a.x * b.z, FP_ONE as int);
    lemma_tdiv_mag(a.x * b.y - a.y * b.x, FP_ONE as int);
    lemma_tdiv_ordered(mag(a.y * b.z - a.z * b.y), q * FP_ONE as int, FP_ONE as int);
    lemma_tdiv_ordered(mag(a.z * b.x - a.x * b.z), q * FP_ONE as int, FP_ONE as int);
    lemma_tdiv_ordered(mag(a.x * b.y - a.y * b.x), q * FP_ONE as int, FP_ONE as int);
    lemma_tdiv_exact(q, FP_ONE as int);
}

/// Negating one operand negates the fixed-point dot product.
pub proof fn lemma_dot_neg(a: V3, b: V3)
    ensures
        v_dot(a, v_neg(b)) == -v_dot(a, b),
        v_dot(v_neg(a), b) == -v_dot(a, b),
{
    assert(a.x * (-b.x) + a.y * (-b.y) + a.z * (-b.z)
        == -(a.x * b.x + a.y * b.y + a.z * b.z)) by (nonlinear_arith);
    assert((-a.x) * b.x + (-a.y) * b.y + (-a.z) * b.z
        == -(a.x * b.x + a.y * b.y + a.z * b.z)) by (nonlinear_arith);
    lemma_tdiv_mag(a.x * b.x + a.y * b.y + a.z * b.z, FP_ONE as int);
}

/// One normalized component, squeezed between its rational value and
/// one truncation step below it.
proof fn lemma_unit_component_squeeze(x: int, l: int)
    requires
        1 <= l,
        0 <= x <= l,
    ensures
        tdiv(x * FP_ONE, l) * l <= x * FP_ONE as int,
        (x * FP_ONE as int) < ((tdiv(x * FP_ONE, l) + 1) * l),
        0 <= tdiv(x * FP_ONE, l) <= FP_ONE as int,
{
    let m = x * FP_ONE as int;
    assert(m >= 0) by (nonlinear_arith)
        requires
            x >= 0,
            m == x * FP_ONE as int,
            FP_ONE as int == 65536,
    ;
    lemma_fundamental_div_mod(m, l);
    lemma_mod_division_less_than_divisor(m, l);
    assert(tdiv(m, l) == m / l);
    assert((m / l) * l <= m && m < ((m / l + 1) * l)) by (nonlinear_arith)
        requires
            m == l * (m / l) + m % l,
            0 <= m % l < l,
    ;
    lemma_tdiv_mag(m, l);
    lemma_mul_mag(x, FP_ONE as int, l, FP_ONE as int);
    lemma_tdiv_ordered(m, l * FP_ONE as int, l);
    lemma_tdiv_exact(FP_ONE as int, l);
    assert(l * FP_ONE as int == FP_ONE as int * l) by (nonlinear_arith);
    assert(m <= l * FP_ONE as int) by (nonlinear_arith)
        requires
            x <= l,
            m == x * FP_ONE as int,
            FP_ONE as int == 65536,
    ;
    lemma_div_pos_is_pos_local(m, l);
}

/// Non-negative numerators give non-negative quotients.
proof fn lemma_div_pos_is_pos_local(m: int, l: int)
    requires
        0 <= m,
        1 <= l,
    ensures
        0 <= m / l,
{
    vstd::arithmetic::div_mod::lemma_div_pos_is_pos(m, l);
}

/// A normalized non-zero vector has squared norm within a few
/// representation steps of the exact unit: together with the opposition
/// sign in the intersection contracts, this is the unit-length half of
/// the surface-normal property.
pub proof fn lemma_unit_norm_bounds(a: V3)
    requires
        !(a.x == 0 && a.y == 0 && a.z == 0),
        v_bounded(a, 0x7fff_ffff_ffff),
    ensures
        v_norm2(v_unit(a)) <= 3 * (FP_ONE as int) * (FP_ONE as int),
        v_norm2(v_unit(a)) > (FP_ONE as int) * (FP_ONE as int) - 7 * (FP_ONE as int),
{
    let n = v_norm2(a);
    lemma_norm2_bounds(a);
    assert(n >= 1) by (nonlinear_arith)
        requires
            n >= 0,
            n == a.x * a.x + a.y * a.y + a.z * a.z,
            !(a.x == 0 && a.y == 0 && a.z == 0),
            0 <= a.x * a.x,
            0 <= a.y * a.y,
            0 <= a.z * a.z,
    ;
    let l = v_len(a);
    assert(exists|r: int| is_sqrt(n, r)) by {
        lemma_isqrt_exists(n);
    };
    assert(is_sqrt(n, l));
    assert(l >= 1) by (nonlinear_arith)
        requires
            0 <= l,
            n < ((l + 1) * (l + 1)),
            n >= 1,
    ;
    lemma_sqrt_dominates(n, l, a.x);
    lemma_sqrt_dominates(n, l, a.y);
    lemma_sqrt_dominates(n, l, a.z);
    let cx = unit_comp_mag(a.x, l);
    let cy = unit_comp_mag(a.y, l);
    let cz = unit_comp_mag(a.z, l);
    lemma_unit_component_squeeze(mag(a.x), l);
    lemma_unit_component_squeeze(mag(a.y), l);
    lemma_unit_component_squeeze(mag(a.z), l);
    lemma_tdiv_mag(a.x * FP_ONE, l);
    lemma_tdiv_mag(a.y * FP_ONE, l);
    lemma_tdiv_mag(a.z * FP_ONE, l);
    assert(v_unit(a).x == tdiv(a.x * FP_ONE, l));
    lemma_comp_sq(a.x, l, cx);
    lemma_comp_sq(a.y, l, cy);
    lemma_comp_sq(a.z, l, cz);
    assert(((cx + 1) * l) * ((cx + 1) * l) > (mag(a.x) * FP_ONE as int) * (mag(a.x)
        * FP_ONE as int)) by (nonlinear_arith)
        requires
            (mag(a.x) * FP_ONE as int) < ((cx + 1) * l),
            0 <= mag(a.x) * FP_ONE as int,
    ;
    assert(((cy + 1) * l) * ((cy + 1) * l) > (mag(a.y) * FP_ONE as int) * (mag(a.y)
        * FP_ONE as int)) by (nonlinear_arith)
        requires
            (mag(a.y) * FP_ONE as int) < ((cy + 1) * l),
            0 <= mag(a.y) * FP_ONE as int,
    ;
    assert(((cz + 1) * l) * ((cz + 1) * l) > (mag(a.z) * FP_ONE as int) * (mag(a.z)
        * FP_ONE as int)) by (nonlinear_arith)
        requires
            (mag(a.z) * FP_ONE as int) < ((cz + 1) * l),
            0 <= mag(a.z) * FP_ONE as int,
    ;
    assert((mag(a.x) * FP_ONE as int) * (mag(a.x) * FP_ONE as int) + (mag(a.y)
        * FP_ONE as int) * (mag(a.y) * FP_ONE as int) + (mag(a.z) * FP_ONE as int) * (mag(
        a.z) * FP_ONE as int) == (n * FP_ONE as int) * FP_ONE as int) by (nonlinear_arith)
        requires
            n == a.x * a.x + a.y * a.y + a.z * a.z,
    ;
    assert(((cx + 1) * l) * ((cx + 1) * l) == ((cx + 1) * (cx + 1)) * (l * l))
        by (nonlinear_arith);
    assert(((cy + 1) * l) * ((cy + 1) * l) == ((cy + 1) * (cy + 1)) * (l * l))
        by (nonlinear_arith);
    assert(((cz + 1) * l) * ((cz + 1) * l) == ((cz + 1) * (cz + 1)) * (l * l))
        by (nonlinear_arith);
    assert((n * FP_ONE as int) * FP_ONE as int >= ((l * l) * FP_ONE as int) * FP_ONE as int)
        by (nonlinear_arith)
        requires
            n >= l * l,
    ;
    let ssum = (cx + 1) * (cx + 1) + (cy + 1) * (cy + 1) + (cz + 1) * (cz + 1);
    assert(ssum * (l * l) == ((cx + 1) * (cx + 1)) * (l * l) + ((cy + 1) * (cy + 1)) * (l
        * l) + ((cz + 1) * (cz + 1)) * (l * l)) by (nonlinear_arith)
        requires
            ssum == (cx + 1) * (cx + 1) + (cy + 1) * (cy + 1) + (cz + 1) * (cz + 1),
    ;
    assert(((cx + 1) * l) * ((cx + 1) * l) + ((cy + 1) * l) * ((cy + 1) * l) + ((cz + 1)
        * l) * ((cz + 1) * l) > (n * FP_ONE as int) * FP_ONE as int);
    assert(ssum * (l * l) > (n * FP_ONE as int) * FP_ONE as int);
    assert(ssum * (l * l) >= ((l * l) * FP_ONE as int) * FP_ONE as int);
    assert(l * l >= 1) by (nonlinear_arith)
        requires
            l >= 1,
    ;
    assert(ssum >= FP_ONE as int * FP_ONE as int) by (nonlinear_arith)
        requires
            ssum * (l * l) >= ((l * l) * FP_ONE as int) * FP_ONE as int,
            l * l >= 1,
    ;
    assert(cx * cx + cy * cy + cz * cz >= FP_ONE as int * FP_ONE as int - 2 * (cx + cy + cz)
        - 3) by (nonlinear_arith)
        requires
            (cx + 1) * (cx + 1) + (cy + 1) * (cy + 1) + (cz + 1) * (cz + 1)
                >= FP_ONE as int * FP_ONE as int,
    ;
    assert(cx * cx <= FP_ONE as int * FP_ONE as int) by (nonlinear_arith)
        requires
            0 <= cx <= FP_ONE as int,
    ;
    assert(cy * cy <= FP_ONE as int * FP_ONE as int) by (nonlinear_arith)
        requires
            0 <= cy <= FP_ONE as int,
    ;
    assert(cz * cz <= FP_ONE as int * FP_ONE as int) by (nonlinear_arith)
        requires
            0 <= cz <= FP_ONE as int,
    ;
}

/// Negation preserves the squared norm, so the bound above covers the
/// flipped normal as well.
pub proof fn lemma_norm2_neg(a: V3)
    ensures
        v_norm2(v_neg(a)) == v_norm2(a),
{
    assert((-a.x) * (-a.x) == a.x * a.x) by (nonlinear_arith);
    assert((-a.y) * (-a.y) == a.y * a.y) by (nonlinear_arith);
    assert((-a.z) * (-a.z) == a.z * a.z) by (nonlinear_arith);
}

/// Magnitude of one normalized component.
spec fn unit_comp_mag(x: int, l: int) -> int {
    tdiv(mag(x) * FP_ONE, l)
}

/// Squares of a normalized component and of its magnitude agree.
proof fn lemma_comp_sq(x: int, l: int, c: int)
    requires
        1 <= l,
        c == unit_comp_mag(x, l),
    ensures
        tdiv(x * FP_ONE, l) * tdiv(x * FP_ONE, l) == c * c,
{
    lemma_tdiv_mag(x * FP_ONE, l);
    if x >= 0 {
        assert(mag(x) * FP_ONE as int == x * FP_ONE as int);
    } else {
        let mx = mag(x);
        assert(mx == -x);
        assert(mx * FP_ONE as int == -(x * FP_ONE as int)) by (nonlinear_arith)
            requires
                mx == -x,
        ;
        assert(tdiv(-(x * FP_ONE as int), l) == -tdiv(x * FP_ONE as int, l));
        assert((-tdiv(x * FP_ONE as int, l)) * (-tdiv(x * FP_ONE as int, l)) == tdiv(x
            * FP_ONE as int, l) * tdiv(x * FP_ONE as int, l)) by (nonlinear_arith);
    }
}

/// Every non-negative integer has an integer square root.
proof fn lemma_isqrt_exists(n: int)
    requires
        0 <= n,
    ensures
        exists|r: int| #[trigger] is_sqrt(n, r),
    decreases n,
{
    if n == 0 {
        assert(is_sqrt(0, 0)) by (nonlinear_arith);
    } else {
        lemma_isqrt_exists(n - 1);
        let r = choose|r: int| #[trigger] is_sqrt(n - 1, r);
        if n < ((r + 1) * (r + 1)) {
            assert(is_sqrt(n, r));
        } else {
            assert(is_sqrt(n, r + 1)) by (nonlinear_arith)
                requires
                    0 <= r,
                    r * r <= n - 1,
                    n - 1 < ((r + 1) * (r + 1)),
                    n >= ((r + 1) * (r + 1)),
            ;
        }
    }
}

/// An executable vector of 16.16 fixed-point components.
#[derive(Clone, Copy, Debug, PartialEq, Eq, Structural)]
pub struct Vec3 {
    pub x: i64,
    pub y: i64,
    pub z: i64,
}

impl Vec3 {
    /// The mathematical model of this vector.
    pub open spec fn m(self) -> V3 {
        V3 { x: self.x as int, y: self.y as int, z: self.z as int }
    }

    pub fn new(x: i64, y: i64, z: i64) -> (r: Vec3)
        ensures
            r.m() == (V3 { x: x as int, y: y as int, z: z as int }),
    {
        Vec3 { x, y, z }
    }

    pub fn zero() -> (r: Vec3)
        ensures
            r.m() == (V3 { x: 0, y: 0, z: 0 }),
    {
        Vec3 { x: 0, y: 0, z: 0 }
    }

    pub fn add(self, o: Vec3) -> (r: Vec3)
        requires
            v_bounded(self.m(), 0x2000_0000_0000_0000),
            v_bounded(o.m(), 0x2000_0000_0000_0000),
        ensures
            r.m() == v_add(self.m(), o.m()),
    {
        Vec3 { x: self.x + o.x, y: self.y + o.y, z: self.z + o.z }
    }

    pub fn sub(self, o: Vec3) -> (r: Vec3)
        requires
            v_bounded(self.m(), 0x2000_0000_0000_0000),
            v_bounded(o.m(), 0x2000_0000_0000_0000),
        ensures
            r.m() == v_sub(self.m(), o.m()),
    {
        Vec3 { x: self.x - o.x, y: self.y - o.y, z: self.z - o.z }
    }

    pub fn neg(self) -> (r: Vec3)
        requires
            v_bounded(self.m(), 0x2000_0000_0000_0000),
        ensures
            r.m() == v_neg(self.m()),
    {
        Vec3 { x: -self.x, y: -self.y, z: -self.z }
    }

    /// Scale by the fixed-point factor `k`.
    pub fn scale(self, k: i64) -> (r: Vec3)
        requires
            mag(k as int * self.m().x) <= 0x7fff_ffff_ffff_0000_0000,
            mag(k as int * self.m().y) <= 0x7fff_ffff_ffff_0000_0000,
            mag(k as int * self.m().z) <= 0x7fff_ffff_ffff_0000_0000,
        ensures
            r.m() == v_scale(k as int, self.m()),
    {
        Vec3 { x: mul_fp(k, self.x), y: mul_fp(k, self.y), z: mul_fp(k, self.z) }
    }

    /// Componentwise product; attenuating a color by another.
    pub fn cmul(self, o: Vec3) -> (r: Vec3)
        requires
            mag(self.m().x * o.m().x) <= 0x7fff_ffff_ffff_0000_0000,
            mag(self.m().y * o.m().y) <= 0x7fff_ffff_ffff_0000_0000,
            mag(self.m().z * o.m().z) <= 0x7fff_ffff_ffff_0000_0000,
        ensures
            r.m() == v_cmul(self.m(), o.m()),
    {
        Vec3 { x: mul_fp(self.x, o.x), y: mul_fp(self.y, o.y), z: mul_fp(self.z, o.z) }
    }

    /// Fixed-point dot product.
    pub fn dot(self, o: Vec3) -> (r: i64)
        requires
            mag(self.m().x * o.m().x) <= 0x1000_0000_0000_0000_0000,
            mag(self.m().y * o.m().y) <= 0x1000_0000_0000_0000_0000,
            mag(self.m().z * o.m().z) <= 0x1000_0000_0000_0000_0000,
        ensures
            r as int == v_dot(self.m(), o.m()),
    {
        proof {
            let s = self.m().x * o.m().x + self.m().y * o.m().y + self.m().z * o.m().z;
            lemma_tdiv_mag(s, FP_ONE as int);
        }
        let s: i128 = (self.x as i128) * (o.x as i128) + (self.y as i128) * (o.y as i128)
            + (self.z as i128) * (o.z as i128);
        let q: i128 = if s >= 0 {
            s / 65536
        } else {
            -((-s) / 65536)
        };
        q as i64
    }

    /// Fixed-point cross product.
    pub fn cross(self, o: Vec3) -> (r: Vec3)
        requires
            v_bounded(self.m(), 0x4000_0000),
            v_bounded(o.m(), 0x4000_0000),
        ensures
            r.m() == v_cross(self.m(), o.m()),
    {
        proof {
            lemma_cross_term_bounds(self.m(), o.m());
        }
        let x: i128 = (self.y as i128) * (o.z as i128) - (self.z as i128) * (o.y as i128);
        let y: i128 = (self.z as i128) * (o.x as i128) - (self.x as i128) * (o.z as i128);
        let z: i128 = (self.x as i128) * (o.y as i128) - (self.y as i128) * (o.x as i128);
        Vec3 { x: tdiv_i128(x), y: tdiv_i128(y), z: tdiv_i128(z) }
    }

    /// The fixed-point length of this vector.
    pub fn length(self) -> (r: i64)
        requires
            v_bounded(self.m(), 0x1_0000_0000_0000),
        ensures
            r as int == v_len(self.m()),
            is_sqrt(v_norm2(self.m()), r as int),
            mag(self.m().x) <= r as int,
            mag(self.m().y) <= r as int,
            mag(self.m().z) <= r as int,
    {
        proof {
            lemma_norm2_bounds(self.m());
        }
        let s: i128 = (self.x as i128) * (self.x as i128)
            + (self.y as i128) * (self.y as i128) + (self.z as i128) * (self.z as i128);
        proof {
            assert(s as int == v_norm2(self.m()));
        }
        let r = isqrt(s as u128);
        proof {
            assert((s as u128) as int == v_norm2(self.m()));
            assert(r as int <= 0x4_0000_0000_0000) by (nonlinear_arith)
                requires
                    0 <= r as int,
                    (r as int) * (r as int) <= v_norm2(self.m()),
                    v_norm2(self.m()) < 0x10_0000_0000_0000_0000_0000_0000,
            ;
            lemma_sqrt_dominates(v_norm2(self.m()), r as int, self.m().x);
            lemma_sqrt_dominates(v_norm2(self.m()), r as int, self.m().y);
            lemma_sqrt_dominates(v_norm2(self.m()), r as int, self.m().z);
        }
        r as i64
    }

    /// Normalize to (approximately) unit length; the zero vector is
    /// returned unchanged.
    pub fn unit_or_zero(self) -> (r: Vec3)
        requires
            v_bounded(self.m(), 0x7fff_ffff_ffff),
        ensures
            r.m() == v_unit(self.m()),
            v_bounded(r.m(), FP_ONE as int),
            self.m() == (V3 { x: 0, y: 0, z: 0 }) ==> r == self,
    {
        if self.x == 0 && self.y == 0 && self.z == 0 {
            self
        } else {
            let l = self.length();
            proof {
                lemma_unit_component(self.m().x, l as int);
                lemma_unit_component(self.m().y, l as int);
                lemma_unit_component(self.m().z, l as int);
            }
            Vec3 { x: div_fp(self.x, l), y: div_fp(self.y, l), z: div_fp(self.z, l) }
        }
    }

    /// Every component at most one representation step from zero.
    pub fn near_zero(self) -> (r: bool)
        ensures
            r == v_near_zero(self.m()),
    {
        -1 <= self.x && self.x <= 1 && -1 <= self.y && self.y <= 1 && -1 <= self.z
            && self.z <= 1
    }
}

/// Truncating division of an i128 by the fixed-point unit, landing in i64.
fn tdiv_i128(a: i128) -> (r: i64)
    requires
        -0x7fff_ffff_ffff_0000 <= a as int <= 0x7fff_ffff_ffff_0000,
    ensures
        r as int == tdiv(a as int, FP_ONE as int),
{
    proof {
        lemma_tdiv_mag(a as int, FP_ONE as int);
    }
    if a >= 0 {
        (a / 65536) as i64
    } else {
        (-((-a) / 65536)) as i64
    }
}

/// The cross-product terms of vectors bounded by 2^30 stay inside the
/// range that `tdiv_i128` accepts.
proof fn lemma_cross_term_bounds(a: V3, b: V3)
    requires
        v_bounded(a, 0x4000_0000),
        v_bounded(b, 0x4000_0000),
    ensures
        mag(a.y * b.z - a.z * b.y) <= 0x7fff_ffff_ffff_0000,
        mag(a.z * b.x - a.x * b.z) <= 0x7fff_ffff_ffff_0000,
        mag(a.x * b.y - a.y * b.x) <= 0x7fff_ffff_ffff_0000,
        mag(a.y * b.z) <= 0x1000_0000_0000_0000,
        mag(a.z * b.y) <= 0x1000_0000_0000_0000,
        mag(a.z * b.x) <= 0x1000_0000_0000_0000,
        mag(a.x * b.z) <= 0x1000_0000_0000_0000,
        mag(a.x * b.y) <= 0x1000_0000_0000_0000,
        mag(a.y * b.x) <= 0x1000_0000_0000_0000,
{
    lemma_mul_mag(a.y, b.z, 0x4000_0000, 0x4000_0000);
    lemma_mul_mag(a.z, b.y, 0x4000_0000, 0x4000_0000);
    lemma_mul_mag(a.z, b.x, 0x4000_0000, 0x4000_0000);
    lemma_mul_mag(a.x, b.z, 0x4000_0000, 0x4000_0000);
    lemma_mul_mag(a.x, b.y, 0x4000_0000, 0x4000_0000);
    lemma_mul_mag(a.y, b.x, 0x4000_0000, 0x4000_0000);
}

/// The squared norm of a vector bounded by 2^48 is within isqrt's domain.
proof fn lemma_norm2_bounds(a: V3)
    requires
        v_bounded(a, 0x1_0000_0000_0000),
    ensures
        0 <= v_norm2(a),
        v_norm2(a) < 0x10_0000_0000_0000_0000_0000_0000,
        0 <= a.x * a.x <= v_norm2(a),
        0 <= a.y * a.y <= v_norm2(a),
        0 <= a.z * a.z <= v_norm2(a),
{
    assert(0 <= a.x * a.x && 0 <= a.y * a.y && 0 <= a.z * a.z
        && a.x * a.x <= 0x1_0000_0000_0000 * 0x1_0000_0000_0000
        && a.y * a.y <= 0x1_0000_0000_0000 * 0x1_0000_0000_0000
        && a.z * a.z <= 0x1_0000_0000_0000 * 0x1_0000_0000_0000) by (nonlinear_arith)
        requires
            v_bounded(a, 0x1_0000_0000_0000),
    ;
}

/// A component divided by a length that dominates it lands within the
/// fixed-point unit.
proof fn lemma_unit_component(x: int, l: int)
    requires
        1 <= l,
        mag(x) <= l,
    ensures
        mag(tdiv(x * FP_ONE, l)) <= FP_ONE as int,
        fdiv(x, l) == tdiv(x * FP_ONE, l),
{
    lemma_mul_mag(x, FP_ONE as int, mag(x), FP_ONE as int);
    lemma_tdiv_mag(x * FP_ONE, l);
    assert(mag(x * FP_ONE) <= l * FP_ONE) by (nonlinear_arith)
        requires
            mag(x) <= l,
            mag(x * FP_ONE) <= mag(x) * FP_ONE as int,
            FP_ONE as int == 65536,
    ;
    lemma_tdiv_ordered(mag(x * FP_ONE), l * FP_ONE as int, l);
    lemma_tdiv_exact(FP_ONE as int, l);
    assert(l * FP_ONE as int == FP_ONE as int * l) by (nonlinear_arith);
}

} // verus!
