//! Algebraic laws of the renderer's geometry, stated over the exact
//! (division-free) integer model and proved once for all inputs.

use vstd::prelude::*;
use crate::fixed::{FP_ONE, fmul, lemma_tdiv_exact, lemma_fmul_zero, lemma_fmul_one};
use crate::vec3::{V3, v_sub};
use crate::tracer::{spec_background, sky_color, white_color};

verus! {

/// Exact (unscaled) dot product of two integer vectors.
pub open spec fn dot_exact(a: V3, b: V3) -> int {
    a.x * b.x + a.y * b.y + a.z * b.z
}

/// Exact scaling of an integer vector.
pub open spec fn scale_exact(k: int, a: V3) -> V3 {
    V3 { x: k * a.x, y: k * a.y, z: k * a.z }
}

/// Reflection about `n` in homogeneous (division-free) form: the usual
/// `v - 2 (v.n / |n|^2) n`, multiplied through by `|n|^2`.
pub open spec fn reflect_homogeneous(v: V3, n: V3) -> V3 {
    v_sub(scale_exact(dot_exact(n, n), v), scale_exact(2 * dot_exact(v, n), n))
}

/// One reflected-component term, distributed.
proof fn lemma_refl_term(n2: int, d: int, vi: int, ni: int)
    ensures
        (n2 * vi - 2 * d * ni) * ni == n2 * (vi * ni) - 2 * (d * (ni * ni)),
        n2 * (n2 * vi - 2 * d * ni) == (n2 * n2) * vi - 2 * ((n2 * d) * ni),
{
    assert((n2 * vi - 2 * d * ni) * ni == n2 * (vi * ni) - 2 * (d * (ni * ni)))
        by (nonlinear_arith);
    assert(n2 * (n2 * vi - 2 * d * ni) == (n2 * n2) * vi - 2 * ((n2 * d) * ni))
        by (nonlinear_arith);
}

/// Multiplication distributes over a three-term sum.
proof fn lemma_dist3(k: int, a: int, b: int, c: int)
    ensures
        k * (a + b + c) == k * a + k * b + k * c,
{
    assert(k * (a + b + c) == k * a + k * b + k * c) by (nonlinear_arith);
}

/// A negated factor negates the product; multiplication commutes.
proof fn lemma_neg_mul(x: int, y: int)
    ensures
        (-x) * y == -(x * y),
        x * y == y * x,
{
    assert((-x) * y == -(x * y) && x * y == y * x) by (nonlinear_arith);
}

/// Reflecting about the same normal twice returns the original
/// direction: in homogeneous form, reflect-of-reflect is the original
/// vector scaled by `|n|^4`, for every vector and every normal.
pub proof fn lemma_reflect_involution(v: V3, n: V3)
    ensures
        reflect_homogeneous(reflect_homogeneous(v, n), n) == scale_exact(
            dot_exact(n, n) * dot_exact(n, n),
            v,
        ),
{
    let n2 = dot_exact(n, n);
    let d = dot_exact(v, n);
    let r1 = reflect_homogeneous(v, n);
    lemma_refl_term(n2, d, v.x, n.x);
    lemma_refl_term(n2, d, v.y, n.y);
    lemma_refl_term(n2, d, v.z, n.z);
    lemma_dist3(n2, v.x * n.x, v.y * n.y, v.z * n.z);
    lemma_dist3(d, n.x * n.x, n.y * n.y, n.z * n.z);
    let d1 = dot_exact(r1, n);
    assert(d1 == n2 * d - 2 * (d * n2));
    lemma_neg_mul(n2, d);
    lemma_neg_mul(d, n2);
    assert(d1 == -(n2 * d));
    let r2 = reflect_homogeneous(r1, n);
    lemma_neg_mul(n2 * d, n.x);
    lemma_neg_mul(n2 * d, n.y);
    lemma_neg_mul(n2 * d, n.z);
    assert(2 * d1 * n.x == -(2 * ((n2 * d) * n.x))) by (nonlinear_arith)
        requires
            d1 == -(n2 * d),
            (-(n2 * d)) * n.x == -((n2 * d) * n.x),
    ;
    assert(2 * d1 * n.y == -(2 * ((n2 * d) * n.y))) by (nonlinear_arith)
        requires
            d1 == -(n2 * d),
            (-(n2 * d)) * n.y == -((n2 * d) * n.y),
    ;
    assert(2 * d1 * n.z == -(2 * ((n2 * d) * n.z))) by (nonlinear_arith)
        requires
            d1 == -(n2 * d),
            (-(n2 * d)) * n.z == -((n2 * d) * n.z),
    ;
    assert(r2.x == n2 * r1.x - 2 * d1 * n.x);
    assert(r2.x == (n2 * n2) * v.x);
    assert(r2.y == (n2 * n2) * v.y);
    assert(r2.z == (n2 * n2) * v.z);
}

/// A squared binomial of scaled components, expanded.
proof fn lemma_sq_expand(p: int, q: int, a: int, b: int)
    ensures
        (p * a + q * b) * (p * a + q * b) == (p * p) * (a * a) + 2 * ((p * q) * (a * b)) + (q
            * q) * (b * b),
{
    let u = p * a;
    let w = q * b;
    assert((u + w) * (u + w) == u * u + 2 * (u * w) + w * w) by (nonlinear_arith);
    assert((p * a) * (p * a) == (p * p) * (a * a)) by (nonlinear_arith);
    assert((p * a) * (q * b) == (p * q) * (a * b)) by (nonlinear_arith);
    assert((q * b) * (q * b) == (q * q) * (b * b)) by (nonlinear_arith);
}

/// Subtraction distributes out of a product.
proof fn lemma_dist_sub(a: int, b: int, k: int)
    ensures
        (a - b) * k == a * k - b * k,
        a * k == k * a,
        b * k == k * b,
{
    assert((a - b) * k == a * k - b * k && a * k == k * a && b * k == k * b)
        by (nonlinear_arith);
}

/// An exact root of the sphere quadratic lies exactly on the sphere.
///
/// For a ray `O + t D` and a sphere `(C, r)`, write the root as the
/// rational `tn / td`. If it solves `a t^2 + 2 half_b t + c = 0` with
/// `a = |D|^2`, `half_b = (O-C).D`, `c = |O-C|^2 - r^2`, then the hit
/// point satisfies `|P - C|^2 == r^2` after clearing denominators —
/// so the outward normal `(P - C) / r` has exactly unit length.
pub proof fn lemma_root_on_sphere(o: V3, d: V3, c: V3, r: int, tn: int, td: int)
    requires
        dot_exact(d, d) * (tn * tn) + 2 * (dot_exact(v_sub(o, c), d) * (tn * td)) + (dot_exact(
            v_sub(o, c),
            v_sub(o, c),
        ) - r * r) * (td * td) == 0,
    ensures
        dot_exact(
            crate::vec3::v_add(scale_exact(td, v_sub(o, c)), scale_exact(tn, d)),
            crate::vec3::v_add(scale_exact(td, v_sub(o, c)), scale_exact(tn, d)),
        ) == (r * r) * (td * td),
{
    let oc = v_sub(o, c);
    let diff = crate::vec3::v_add(scale_exact(td, oc), scale_exact(tn, d));
    lemma_neg_mul(td, tn);
    lemma_sq_expand(td, tn, oc.x, d.x);
    lemma_sq_expand(td, tn, oc.y, d.y);
    lemma_sq_expand(td, tn, oc.z, d.z);
    lemma_dist3(td * td, oc.x * oc.x, oc.y * oc.y, oc.z * oc.z);
    lemma_dist3(tn * td, oc.x * d.x, oc.y * d.y, oc.z * d.z);
    lemma_dist3(tn * tn, d.x * d.x, d.y * d.y, d.z * d.z);
    lemma_dist_sub(dot_exact(oc, oc), r * r, td * td);
    lemma_dist_sub(dot_exact(oc, d), 0, tn * td);
    lemma_dist_sub(dot_exact(d, d), 0, tn * tn);
    assert(dot_exact(diff, diff) == (r * r) * (td * td));
}

/// The background gradient meets its endpoints exactly: straight up
/// yields the sky color, straight down yields white.
pub proof fn lemma_background_endpoints()
    ensures
        spec_background(V3 { x: 0, y: FP_ONE as int, z: 0 }) == sky_color(),
        spec_background(V3 { x: 0, y: -(FP_ONE as int), z: 0 }) == white_color(),
{
    assert(2 * FP_ONE as int == FP_ONE as int * 2) by (nonlinear_arith);
    lemma_tdiv_exact(FP_ONE as int, 2);
    lemma_tdiv_exact(0, 2);
    lemma_fmul_zero(FP_ONE as int);
    lemma_fmul_zero(32768);
    lemma_fmul_zero(45875);
    lemma_fmul_one(FP_ONE as int);
    lemma_fmul_one(32768);
    lemma_fmul_one(45875);
}

} // verus!
