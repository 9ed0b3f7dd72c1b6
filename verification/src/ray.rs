//! Rays and intersection records.

use vstd::prelude::*;
use crate::fixed::{FP_ONE, mag, lemma_mul_mag};
use crate::vec3::{Vec3, V3, v_bounded, v_add, v_scale, v_unit};
use crate::material::Material;

verus! {

/// Positions the renderer works with stay within this bound; a camera
/// within it and at most `MAX_DEPTH` bounces of at most `T_LIMIT` each
/// cannot leave it.
pub const POS_LIMIT: i64 = 0x10_0000_0000;

/// Upper bound on the parametric distance of any accepted hit; the
/// far plane of every intersection query.
pub const T_LIMIT: i64 = 0x4000_0000;

/// The result of a successful intersection: hit point, oriented surface
/// normal, parametric distance, texture coordinates and the material
/// struck.
pub struct HitRecord {
    pub point: Vec3,
    pub normal: Vec3,
    pub t: i64,
    pub u: i64,
    pub v: i64,
    pub front_face: bool,
    pub material: Material,
}

impl HitRecord {
    /// The bounds every record handed out by an intersection query obeys.
    pub open spec fn bounded(self) -> bool {
        &&& v_bounded(self.point.m(), POS_LIMIT as int + T_LIMIT as int)
        &&& v_bounded(self.normal.m(), FP_ONE as int)
        &&& 0 < self.t < T_LIMIT
    }
}

/// A ray: an origin and a direction normalized at construction.
pub struct Ray {
    pub origin: Vec3,
    pub direction: Vec3,
}

impl Ray {
    /// Origin within the scene bounds, direction within the fixed-point
    /// unit cube (as normalization leaves it).
    pub open spec fn wf(self) -> bool {
        &&& v_bounded(self.origin.m(), POS_LIMIT as int)
        &&& v_bounded(self.direction.m(), FP_ONE as int)
    }

    pub fn new(origin: Vec3, direction: Vec3) -> (r: Ray)
        requires
            v_bounded(origin.m(), POS_LIMIT as int),
            v_bounded(direction.m(), 0x7fff_ffff_ffff),
        ensures
            r.origin == origin,
            r.direction.m() == v_unit(direction.m()),
            r.wf(),
    {
        Ray { origin, direction: direction.unit_or_zero() }
    }

    /// The point the ray reaches at parameter `t`.
    pub fn at(&self, t: i64) -> (r: Vec3)
        requires
            self.wf(),
            0 <= t <= T_LIMIT,
        ensures
            r.m() == v_add(self.origin.m(), v_scale(t as int, self.direction.m())),
            v_bounded(r.m(), POS_LIMIT as int + T_LIMIT as int),
    {
        proof {
            lemma_at_term(t as int, self.direction.m().x);
            lemma_at_term(t as int, self.direction.m().y);
            lemma_at_term(t as int, self.direction.m().z);
        }
        self.origin.add(self.direction.scale(t))
    }
}

/// One scaled direction component stays within `T_LIMIT`.
proof fn lemma_at_term(t: int, d: int)
    requires
        0 <= t <= T_LIMIT as int,
        mag(d) <= FP_ONE as int,
    ensures
        mag(t * d) <= 0x7fff_ffff_ffff_0000,
        mag(crate::fixed::fmul(t, d)) <= T_LIMIT as int,
{
    lemma_mul_mag(t, d, T_LIMIT as int, FP_ONE as int);
    crate::fixed::lemma_tdiv_mag(t * d, FP_ONE as int);
    crate::fixed::lemma_tdiv_ordered(mag(t * d), T_LIMIT as int * FP_ONE as int, FP_ONE as int);
    crate::fixed::lemma_tdiv_exact(T_LIMIT as int, FP_ONE as int);
}

} // verus!
