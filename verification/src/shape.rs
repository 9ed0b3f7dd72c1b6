//! Intersectable shapes: the sphere, and the scene aggregate resolving
//! the nearest hit.

use vstd::prelude::*;
use crate::fixed::{
    FP_ONE, mag, tdiv, fmul, fdiv, spec_isqrt, mul_fp, div_fp, isqrt,
    lemma_fmul_mag, lemma_fmul_unit_interval, lemma_tdiv_mag, lemma_tdiv_ordered,
    lemma_tdiv_exact, lemma_tdiv_mono, lemma_mul_mag,
};
use crate::vec3::{
    Vec3, V3, v_bounded, v_add, v_sub, v_neg, v_scale, v_dot, v_norm2, v_unit,
    lemma_dot_mag, lemma_dot_neg,
};
use crate::ray::{Ray, HitRecord, POS_LIMIT, T_LIMIT};
use crate::material::Material;
use crate::material::Scatterable;

verus! {

/// Pi in 16.16 fixed point.
pub const PI_FP: i64 = 205887;

/// Pi/2 in 16.16 fixed point.
pub const HALF_PI_FP: i64 = 102944;

/// 2*Pi in 16.16 fixed point.
pub const TWO_PI_FP: i64 = 411774;

/// Pi/4 in 16.16 fixed point.
pub const QUARTER_PI_FP: i64 = 51472;

/// Tuning constant of the arctangent approximation (about 0.273).
pub const ATAN_TUNE_FP: i64 = 17901;

/// Polynomial arctangent approximation on [0, 1].
pub open spec fn spec_atan_unit(q: int) -> int {
    fmul(q, QUARTER_PI_FP as int + fmul(ATAN_TUNE_FP as int, FP_ONE as int - q))
}

/// Arctangent of a ratio in [0, 1]; lands in [0, slightly over pi/4].
fn atan_unit(q: i64) -> (r: i64)
    requires
        0 <= q <= FP_ONE,
    ensures
        r as int == spec_atan_unit(q as int),
        0 <= r <= QUARTER_PI_FP as int + ATAN_TUNE_FP as int,
{
    proof {
        lemma_fmul_unit_interval(ATAN_TUNE_FP as int, FP_ONE as int - q as int);
    }
    let inner = 51472 + mul_fp(17901, 65536 - q);
    proof {
        lemma_fmul_unit_interval(inner as int, q as int);
        assert(inner as int * q as int == q as int * inner as int) by (nonlinear_arith);
        assert(fmul(inner as int, q as int) == fmul(q as int, inner as int));
    }
    mul_fp(q, inner)
}

/// Truncating ratios stay within the unit when numerator is dominated.
proof fn lemma_fdiv_ratio(a: int, b: int)
    requires
        0 <= a <= b,
        1 <= b,
    ensures
        0 <= fdiv(a, b) <= FP_ONE as int,
{
    lemma_tdiv_mag(a * FP_ONE, b);
    lemma_mul_mag(a, FP_ONE as int, b, FP_ONE as int);
    lemma_tdiv_ordered(a * FP_ONE as int, b * FP_ONE as int, b);
    lemma_tdiv_exact(FP_ONE as int, b);
    assert(b * FP_ONE as int == FP_ONE as int * b) by (nonlinear_arith);
    assert(a * FP_ONE as int >= 0) by (nonlinear_arith)
        requires
            a >= 0,
    ;
    assert(a * FP_ONE as int <= b * FP_ONE as int) by (nonlinear_arith)
        requires
            a <= b,
    ;
}

/// Octant-folded arctangent of `y/x`, in fixed-point radians.
pub open spec fn spec_atan2(y: int, x: int) -> int {
    let ay = mag(y);
    let ax = mag(x);
    if ax == 0 && ay == 0 {
        0
    } else {
        let ang = if ay <= ax {
            let base = spec_atan_unit(fdiv(ay, ax));
            if x >= 0 {
                base
            } else {
                PI_FP as int - base
            }
        } else {
            let base = spec_atan_unit(fdiv(ax, ay));
            if x >= 0 {
                HALF_PI_FP as int - base
            } else {
                HALF_PI_FP as int + base
            }
        };
        if y >= 0 {
            ang
        } else {
            -ang
        }
    }
}

/// Approximate arctangent of `y/x` in fixed-point radians, within
/// [-pi, pi]; only texture coordinates consume it.
pub fn atan2_fp(y: i64, x: i64) -> (r: i64)
    requires
        mag(y as int) <= 0x7fff_ffff_ffff,
        mag(x as int) <= 0x7fff_ffff_ffff,
    ensures
        r as int == spec_atan2(y as int, x as int),
        mag(r as int) <= PI_FP as int,
{
    let ay: i64 = if y >= 0 {
        y
    } else {
        -y
    };
    let ax: i64 = if x >= 0 {
        x
    } else {
        -x
    };
    if ax == 0 && ay == 0 {
        return 0;
    }
    let ang: i64 = if ay <= ax {
        proof {
            lemma_fdiv_ratio(ay as int, ax as int);
        }
        let base = atan_unit(div_fp(ay, ax));
        if x >= 0 {
            base
        } else {
            205887 - base
        }
    } else {
        proof {
            lemma_fdiv_ratio(ax as int, ay as int);
        }
        let base = atan_unit(div_fp(ax, ay));
        if x >= 0 {
            102944 - base
        } else {
            102944 + base
        }
    };
    if y >= 0 {
        ang
    } else {
        -ang
    }
}

/// Texture longitude of a hit point, in [0, 1].
pub open spec fn spec_tex_u(p: V3) -> int {
    fdiv(spec_atan2(p.x, p.z), TWO_PI_FP as int) + 32768
}

/// Texture latitude of a hit point: `y/2 + 1/2`, unclamped.
pub open spec fn spec_tex_v(p: V3) -> int {
    tdiv(p.y, 2) + 32768
}

/// A sphere; a negative radius flips the surface inside out (a hollow
/// glass shell is its use).
#[derive(Clone, Copy, Debug, PartialEq, Eq, Structural)]
pub struct Sphere {
    pub center: Vec3,
    pub radius: i64,
    pub material: Material,
}

/// The quadratic coefficient `|D|^2` of a ray.
pub open spec fn sph_a(r: Ray) -> int {
    v_dot(r.direction.m(), r.direction.m())
}

/// Origin-to-center offset.
pub open spec fn sph_oc(s: Sphere, r: Ray) -> V3 {
    v_sub(r.origin.m(), s.center.m())
}

/// The half-b coefficient `(O-C).D`.
pub open spec fn sph_half_b(s: Sphere, r: Ray) -> int {
    v_dot(sph_oc(s, r), r.direction.m())
}

/// The constant coefficient `|O-C|^2 - r^2`.
pub open spec fn sph_c(s: Sphere, r: Ray) -> int {
    v_dot(sph_oc(s, r), sph_oc(s, r)) - fmul(s.radius as int, s.radius as int)
}

/// The (quarter) discriminant `half_b^2 - a c`.
pub open spec fn sph_disc(s: Sphere, r: Ray) -> int {
    fmul(sph_half_b(s, r), sph_half_b(s, r)) - fmul(sph_a(r), sph_c(s, r))
}

/// Fixed-point square root of the discriminant.
pub open spec fn sph_sqrtd(s: Sphere, r: Ray) -> int {
    spec_isqrt(sph_disc(s, r) * FP_ONE)
}

/// The nearer quadratic root.
pub open spec fn sph_root1(s: Sphere, r: Ray) -> int {
    fdiv(-sph_half_b(s, r) - sph_sqrtd(s, r), sph_a(r))
}

/// The farther quadratic root.
pub open spec fn sph_root2(s: Sphere, r: Ray) -> int {
    fdiv(-sph_half_b(s, r) + sph_sqrtd(s, r), sph_a(r))
}

/// What `Sphere::hit` returns for the window `(t_min, t_max)`: the first
/// root strictly inside it, if any; a degenerate ray hits nothing.
pub open spec fn sph_hit_t(s: Sphere, r: Ray, t_min: int, t_max: int) -> Option<int> {
    if sph_a(r) <= 0 || sph_disc(s, r) < 0 {
        None
    } else if t_min < sph_root1(s, r) && sph_root1(s, r) < t_max {
        Some(sph_root1(s, r))
    } else if t_min < sph_root2(s, r) && sph_root2(s, r) < t_max {
        Some(sph_root2(s, r))
    } else {
        None
    }
}

/// `t` is a root of the sphere's quadratic strictly inside the window.
pub open spec fn hit_candidate(s: Sphere, r: Ray, t_min: int, t_max: int, t: int) -> bool {
    &&& sph_a(r) > 0
    &&& sph_disc(s, r) >= 0
    &&& (t == sph_root1(s, r) || t == sph_root2(s, r))
    &&& t_min < t < t_max
}

/// The point a ray reaches at parameter `t`.
pub open spec fn sph_point(r: Ray, t: int) -> V3 {
    v_add(r.origin.m(), v_scale(t, r.direction.m()))
}

/// The outward unit normal at `p`: away from the center, flipped inward
/// by a negative radius.
pub open spec fn sph_outward(s: Sphere, p: V3) -> V3 {
    if s.radius >= 0 {
        v_unit(v_sub(p, s.center.m()))
    } else {
        v_neg(v_unit(v_sub(p, s.center.m())))
    }
}

/// Unless the truncated hit point falls exactly on the center (when
/// normalization hands back the zero vector), the record's normal has
/// squared norm within a few representation steps of the unit.
pub open spec fn normal_norm_ok(s: Sphere, r: Ray, t: int, h: HitRecord) -> bool {
    v_sub(sph_point(r, t), s.center.m()) != (V3 { x: 0, y: 0, z: 0 })
        ==> (FP_ONE as int) * (FP_ONE as int) - 7 * (FP_ONE as int) < v_norm2(h.normal.m())
        && v_norm2(h.normal.m()) <= 3 * (FP_ONE as int) * (FP_ONE as int)
}

/// The record `Sphere::hit` builds for an accepted root `t`.
pub open spec fn sph_record_matches(s: Sphere, r: Ray, t: int, h: HitRecord) -> bool {
    let p = sph_point(r, t);
    let out = sph_outward(s, p);
    let ff = v_dot(r.direction.m(), out) < 0;
    &&& h.t as int == t
    &&& h.point.m() == p
    &&& h.front_face == ff
    &&& h.normal.m() == (if ff {
        out
    } else {
        v_neg(out)
    })
    &&& h.u as int == spec_tex_u(p)
    &&& h.v as int == spec_tex_v(p)
    &&& h.material == s.material
}

impl Sphere {
    /// A validated sphere: bounded, non-degenerate, physical material.
    pub open spec fn wf(self) -> bool {
        &&& v_bounded(self.center.m(), POS_LIMIT as int)
        &&& self.radius != 0
        &&& mag(self.radius as int) <= POS_LIMIT as int
        &&& self.material.scatter_wf()
    }

    /// Nearest intersection of `ray` with this sphere strictly inside
    /// `(t_min, t_max)`, solving the half-b quadratic.
    pub fn hit(&self, ray: &Ray, t_min: i64, t_max: i64) -> (res: Option<HitRecord>)
        requires
            self.wf(),
            ray.wf(),
            0 <= t_min,
            t_max <= T_LIMIT,
        ensures
            match res {
                Some(h) => {
                    &&& sph_hit_t(*self, *ray, t_min as int, t_max as int)
                        == Some(h.t as int)
                    &&& t_min < h.t < t_max
                    &&& sph_record_matches(*self, *ray, h.t as int, h)
                    &&& h.bounded()
                    &&& v_dot(ray.direction.m(), h.normal.m()) <= 0
                    &&& normal_norm_ok(*self, *ray, h.t as int, h)
                },
                None => sph_hit_t(*self, *ray, t_min as int, t_max as int) is None,
            },
            sph_a(*ray) > 0 && sph_disc(*self, *ray) >= 0 ==> sph_root1(*self, *ray)
                <= sph_root2(*self, *ray),
    {
        proof {
            lemma_dot_mag(
                ray.direction.m(),
                ray.direction.m(),
                FP_ONE as int,
                FP_ONE as int,
                3 * FP_ONE as int,
            );
        }
        let a = ray.direction.dot(ray.direction);
        if a <= 0 {
            return None;
        }
        let oc = ray.origin.sub(self.center);
        proof {
            lemma_dot_mag(
                oc.m(),
                ray.direction.m(),
                0x20_0000_0000,
                FP_ONE as int,
                0x60_0000_0000,
            );
            lemma_dot_mag(
                oc.m(),
                oc.m(),
                0x20_0000_0000,
                0x20_0000_0000,
                0xC00_0000_0000_0000,
            );
            lemma_fmul_mag(
                self.radius as int,
                self.radius as int,
                POS_LIMIT as int,
                POS_LIMIT as int,
                0x100_0000_0000_0000,
            );
        }
        let half_b = oc.dot(ray.direction);
        let c = oc.dot(oc) - mul_fp(self.radius, self.radius);
        proof {
            lemma_fmul_mag(
                half_b as int,
                half_b as int,
                0x60_0000_0000,
                0x60_0000_0000,
                0x2400_0000_0000_0000,
            );
            lemma_fmul_mag(
                a as int,
                c as int,
                3 * FP_ONE as int,
                0xD00_0000_0000_0000,
                0x2700_0000_0000_0000,
            );
        }
        let disc = mul_fp(half_b, half_b) - mul_fp(a, c);
        if disc < 0 {
            return None;
        }
        proof {
            assert((disc as int) * (FP_ONE as int) < 0x10_0000_0000_0000_0000_0000_0000)
                by (nonlinear_arith)
                requires
                    0 <= disc as int && (disc as int) < 0x7000_0000_0000_0000,
            ;
        }
        let sqrtd_w = isqrt((disc as u128) * 65536);
        proof {
            crate::fixed::lemma_isqrt_unique(disc as int * FP_ONE as int, sqrtd_w as int);
            assert(sqrtd_w as int <= 0xC0_0000_0000) by (nonlinear_arith)
                requires
                    0 <= sqrtd_w as int,
                    (sqrtd_w as int) * (sqrtd_w as int) <= (disc as int) * (FP_ONE as int),
                    0 <= disc as int && (disc as int) < 0x7000_0000_0000_0000,
            ;
        }
        let sqrtd = sqrtd_w as i64;
        proof {
            lemma_tdiv_mono(
                (-(half_b as int) - sqrtd as int) * FP_ONE as int,
                (-(half_b as int) + sqrtd as int) * FP_ONE as int,
                a as int,
            );
            assert((-(half_b as int) - sqrtd as int) * FP_ONE as int
                <= (-(half_b as int) + sqrtd as int) * FP_ONE as int) by (nonlinear_arith)
                requires
                    sqrtd as int >= 0,
            ;
            assert(fdiv(-(half_b as int) - sqrtd as int, a as int)
                == tdiv((-(half_b as int) - sqrtd as int) * FP_ONE as int, a as int));
            assert(fdiv(-(half_b as int) + sqrtd as int, a as int)
                == tdiv((-(half_b as int) + sqrtd as int) * FP_ONE as int, a as int));
        }
        let t1 = div_fp(-half_b - sqrtd, a);
        if t_min < t1 && t1 < t_max {
            return Some(self.make_record(ray, t1));
        }
        let t2 = div_fp(-half_b + sqrtd, a);
        if t_min < t2 && t2 < t_max {
            return Some(self.make_record(ray, t2));
        }
        None
    }

    /// Build the hit record for an accepted root.
    fn make_record(&self, ray: &Ray, t: i64) -> (h: HitRecord)
        requires
            self.wf(),
            ray.wf(),
            0 < t < T_LIMIT,
        ensures
            sph_record_matches(*self, *ray, t as int, h),
            h.bounded(),
            v_dot(ray.direction.m(), h.normal.m()) <= 0,
            h.t == t,
            normal_norm_ok(*self, *ray, t as int, h),
    {
        let point = ray.at(t);
        let rel = point.sub(self.center);
        let un = rel.unit_or_zero();
        proof {
            if !(rel.m().x == 0 && rel.m().y == 0 && rel.m().z == 0) {
                crate::vec3::lemma_unit_norm_bounds(rel.m());
                crate::vec3::lemma_norm2_neg(v_unit(rel.m()));
                crate::vec3::lemma_norm2_neg(v_neg(v_unit(rel.m())));
            }
        }
        let outward = if self.radius >= 0 {
            un
        } else {
            un.neg()
        };
        proof {
            lemma_dot_mag(
                ray.direction.m(),
                outward.m(),
                FP_ONE as int,
                FP_ONE as int,
                3 * FP_ONE as int,
            );
            lemma_dot_neg(ray.direction.m(), outward.m());
        }
        let d = ray.direction.dot(outward);
        let front_face = d < 0;
        let normal = if front_face {
            outward
        } else {
            outward.neg()
        };
        let u = tex_u(&point);
        let v = tex_v(&point);
        HitRecord {
            point,
            normal,
            t,
            u,
            v,
            front_face,
            material: self.material,
        }
    }
}

/// Texture longitude of a point, executable.
fn tex_u(p: &Vec3) -> (r: i64)
    requires
        v_bounded(p.m(), 0x7fff_ffff_ffff),
    ensures
        r as int == spec_tex_u(p.m()),
{
    let ang = atan2_fp(p.x, p.z);
    proof {
        lemma_mul_mag(ang as int, FP_ONE as int, PI_FP as int, FP_ONE as int);
        lemma_tdiv_mag(ang as int * FP_ONE as int, TWO_PI_FP as int);
        lemma_tdiv_ordered(
            mag(ang as int * FP_ONE as int),
            PI_FP as int * FP_ONE as int,
            TWO_PI_FP as int,
        );
    }
    div_fp(ang, 411774) + 32768
}

/// Texture latitude of a point, executable.
fn tex_v(p: &Vec3) -> (r: i64)
    requires
        v_bounded(p.m(), 0x7fff_ffff_ffff),
    ensures
        r as int == spec_tex_v(p.m()),
{
    proof {
        lemma_tdiv_mag(p.m().y, 2);
    }
    let half: i64 = if p.y >= 0 {
        p.y / 2
    } else {
        -((-p.y) / 2)
    };
    half + 32768
}

/// An ordered collection of spheres; order never affects rendering,
/// only the nearest hit does.
pub struct World {
    pub components: Vec<Sphere>,
}

impl World {
    /// Every component is validated.
    pub open spec fn wf(self) -> bool {
        forall|i: int| 0 <= i < self.components@.len() ==> (#[trigger] self.components@[i]).wf()
    }

    pub fn new() -> (w: World)
        ensures
            w.components@.len() == 0,
            w.wf(),
    {
        World { components: Vec::new() }
    }

    /// Add a sphere to the scene.
    pub fn push(&mut self, s: Sphere)
        requires
            s.wf(),
            old(self).wf(),
        ensures
            final(self).components@ == old(self).components@.push(s),
            final(self).wf(),
    {
        self.components.push(s);
    }

    /// The globally nearest intersection strictly inside `(t_min, t_max)`:
    /// no sphere of the scene has a root closer than the one returned.
    pub fn hit(&self, ray: &Ray, t_min: i64, t_max: i64) -> (res: Option<HitRecord>)
        requires
            self.wf(),
            ray.wf(),
            0 <= t_min,
            t_max <= T_LIMIT,
        ensures
            match res {
                Some(h) => world_hit_some(*self, *ray, t_min as int, t_max as int, h),
                None => world_hit_none(*self, *ray, t_min as int, t_max as int),
            },
    {
        let mut closest = t_max;
        let mut result: Option<HitRecord> = None;
        let n = self.components.len();
        let mut i: usize = 0;
        while i < n
            invariant
                i <= n,
                n == self.components@.len(),
                self.wf(),
                ray.wf(),
                0 <= t_min,
                t_max <= T_LIMIT,
                closest <= t_max,
                match result {
                    Some(h) => {
                        &&& closest == h.t
                        &&& t_min < h.t < t_max
                        &&& h.bounded()
                        &&& v_dot(ray.direction.m(), h.normal.m()) <= 0
                        &&& exists|j: int|
                            0 <= j < i && #[trigger] hit_candidate(
                                self.components@[j],
                                *ray,
                                t_min as int,
                                t_max as int,
                                h.t as int,
                            ) && sph_record_matches(self.components@[j], *ray, h.t as int, h)
                    },
                    None => closest == t_max,
                },
                forall|k: int, t: int|
                    0 <= k < i && #[trigger] hit_candidate(
                        self.components@[k],
                        *ray,
                        t_min as int,
                        t_max as int,
                        t,
                    ) ==> closest <= t,
            decreases n - i,
        {
            let s = self.components[i];
            let attempt = s.hit(ray, t_min, closest);
            proof {
                assert(self.components@[i as int].wf());
            }
            match attempt {
                Some(h) => {
                    proof {
                        lemma_window_candidates(
                            s,
                            *ray,
                            t_min as int,
                            closest as int,
                            t_max as int,
                            h.t as int,
                        );
                    }
                    closest = h.t;
                    result = Some(h);
                },
                None => {
                    proof {
                        lemma_no_hit_no_near_candidate(
                            s,
                            *ray,
                            t_min as int,
                            closest as int,
                            t_max as int,
                        );
                    }
                },
            }
            i = i + 1;
        }
        result
    }
}

/// What a successful scene query returns: a record of some sphere's
/// root inside the window, no farther than any other root in it.
pub open spec fn world_hit_some(w: World, ray: Ray, t_min: int, t_max: int, h: HitRecord) -> bool {
    &&& t_min < h.t < t_max
    &&& h.bounded()
    &&& v_dot(ray.direction.m(), h.normal.m()) <= 0
    &&& exists|j: int|
        0 <= j < w.components@.len() && #[trigger] hit_candidate(
            w.components@[j],
            ray,
            t_min,
            t_max,
            h.t as int,
        ) && sph_record_matches(w.components@[j], ray, h.t as int, h)
    &&& forall|k: int, t: int|
        0 <= k < w.components@.len() && #[trigger] hit_candidate(
            w.components@[k],
            ray,
            t_min,
            t_max,
            t,
        ) ==> h.t <= t
}

/// What an empty scene query means: no sphere has a root inside the
/// window.
pub open spec fn world_hit_none(w: World, ray: Ray, t_min: int, t_max: int) -> bool {
    forall|k: int, t: int|
        0 <= k < w.components@.len() ==> !#[trigger] hit_candidate(
            w.components@[k],
            ray,
            t_min,
            t_max,
            t,
        )
}

/// When a sphere reports a hit at `t0` in the narrowed window, `t0` is a
/// candidate of the full window and no candidate of the same sphere lies
/// below it.
proof fn lemma_window_candidates(s: Sphere, r: Ray, t_min: int, w: int, t_max: int, t0: int)
    requires
        sph_hit_t(s, r, t_min, w) == Some(t0),
        sph_root1(s, r) <= sph_root2(s, r),
        w <= t_max,
    ensures
        hit_candidate(s, r, t_min, t_max, t0),
        forall|t: int| #[trigger] hit_candidate(s, r, t_min, t_max, t) ==> t0 <= t,
{
    assert forall|t: int| #[trigger] hit_candidate(s, r, t_min, t_max, t) implies t0 <= t by {
        if t0 == sph_root1(s, r) {
        } else {
            assert(!(t_min < sph_root1(s, r) < w));
        }
    }
}

/// When a sphere reports no hit in the narrowed window, none of its
/// roots lies strictly inside that window.
proof fn lemma_no_hit_no_near_candidate(s: Sphere, r: Ray, t_min: int, w: int, t_max: int)
    requires
        sph_hit_t(s, r, t_min, w) is None,
        w <= t_max,
    ensures
        forall|t: int| #[trigger] hit_candidate(s, r, t_min, t_max, t) ==> w <= t,
{
}

} // verus!
