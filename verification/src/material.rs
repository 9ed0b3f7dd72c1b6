//! Materials and their scattering behavior.
//!
//! Every variant scatters; energy is lost only through the attenuation
//! color, which is always exactly the material's albedo.

use vstd::prelude::*;
use crate::fixed::{
    FP_ONE, mag, fmul, fdiv, spec_isqrt, mul_fp, div_fp, isqrt,
    lemma_fmul_mag, lemma_fmul_unit_interval, lemma_tdiv_mag, lemma_tdiv_ordered,
    lemma_tdiv_exact, lemma_mul_mag,
};
use crate::vec3::{
    Vec3, V3, v_bounded, v_add, v_neg, v_scale, v_dot, v_norm2, v_unit, v_near_zero,
    unit_sample, in_unit_ball, v_reflect, lemma_dot_mag, lemma_dot_neg,
    lemma_unit_norm_bounds,
};
use crate::ray::{Ray, HitRecord, POS_LIMIT};
use crate::rng::rng_range;

verus! {

/// A color whose channels lie in [0, 1]: a physical albedo.
pub open spec fn color01(c: V3) -> bool {
    &&& 0 <= c.x <= FP_ONE as int
    &&& 0 <= c.y <= FP_ONE as int
    &&& 0 <= c.z <= FP_ONE as int
}

/// A point of the unit ball, drawn by rejection; after too many tries
/// the center is returned, which every caller treats as a degenerate
/// but harmless perturbation.
pub fn rand_in_unit_sphere(rng: &mut rand::rngs::StdRng) -> (r: Vec3)
    ensures
        v_bounded(r.m(), FP_ONE as int),
        v_norm2(r.m()) <= FP_ONE as int * FP_ONE as int,
        in_unit_ball(r.m()),
{
    let mut tries: u64 = 0;
    while tries < 64
        decreases 64 - tries,
    {
        let x = rng_range(rng, -65536, 65536);
        let y = rng_range(rng, -65536, 65536);
        let z = rng_range(rng, -65536, 65536);
        proof {
            lemma_mul_mag(x as int, x as int, FP_ONE as int, FP_ONE as int);
            lemma_mul_mag(y as int, y as int, FP_ONE as int, FP_ONE as int);
            lemma_mul_mag(z as int, z as int, FP_ONE as int, FP_ONE as int);
        }
        let n2: i128 = (x as i128) * (x as i128) + (y as i128) * (y as i128)
            + (z as i128) * (z as i128);
        if n2 <= 65536 * 65536 {
            return Vec3 { x, y, z };
        }
        tries = tries + 1;
    }
    Vec3 { x: 0, y: 0, z: 0 }
}

/// A direction of (approximately) unit length, uniform up to the
/// rejection sampling above.
pub fn rand_unit_vector(rng: &mut rand::rngs::StdRng) -> (r: Vec3)
    ensures
        v_bounded(r.m(), FP_ONE as int),
        unit_sample(r.m()),
{
    let v = rand_in_unit_sphere(rng);
    let u = v.unit_or_zero();
    proof {
        if !(v.m().x == 0 && v.m().y == 0 && v.m().z == 0) {
            lemma_unit_norm_bounds(v.m());
        }
    }
    u
}

/// Mirror `v` about `n`.
pub fn reflect(v: &Vec3, n: &Vec3) -> (r: Vec3)
    requires
        v_bounded(v.m(), 0x4000_0000),
        v_bounded(n.m(), FP_ONE as int),
    ensures
        r.m() == v_reflect(v.m(), n.m()),
        v_bounded(r.m(), 0x1_c000_0000),
{
    proof {
        lemma_dot_mag(v.m(), n.m(), 0x4000_0000, FP_ONE as int, 0xc000_0000);
        lemma_fmul_mag(
            2 * v_dot(v.m(), n.m()),
            n.m().x,
            0x1_8000_0000,
            FP_ONE as int,
            0x1_8000_0000,
        );
        lemma_fmul_mag(
            2 * v_dot(v.m(), n.m()),
            n.m().y,
            0x1_8000_0000,
            FP_ONE as int,
            0x1_8000_0000,
        );
        lemma_fmul_mag(
            2 * v_dot(v.m(), n.m()),
            n.m().z,
            0x1_8000_0000,
            FP_ONE as int,
            0x1_8000_0000,
        );
    }
    let d = v.dot(*n);
    v.sub(n.scale(2 * d))
}

/// The refracted direction by Snell's law, split into the components
/// perpendicular and parallel to the normal.
pub open spec fn spec_refract(uv: V3, n: V3, eta: int) -> V3 {
    let cos = v_dot(v_neg(uv), n);
    let perp = v_scale(eta, v_add(uv, v_scale(cos, n)));
    let k = FP_ONE as int - v_dot(perp, perp);
    let par_len = spec_isqrt(mag(k) * FP_ONE as int);
    v_add(perp, v_scale(-par_len, n))
}

/// Refract `uv` through a surface with normal `n` and relative index
/// ratio `eta`.
pub fn refract(uv: &Vec3, n: &Vec3, etai_over_etat: i64) -> (r: Vec3)
    requires
        v_bounded(uv.m(), FP_ONE as int),
        v_bounded(n.m(), FP_ONE as int),
        0 <= etai_over_etat <= 0x1_0000_0000,
    ensures
        r.m() == spec_refract(uv.m(), n.m(), etai_over_etat as int),
        v_bounded(r.m(), 0x10_0000_0000),
{
    let ghost eta = etai_over_etat as int;
    proof {
        lemma_dot_neg(uv.m(), n.m());
        lemma_dot_mag(uv.m(), n.m(), FP_ONE as int, FP_ONE as int, 3 * FP_ONE as int);
        lemma_dot_mag(v_neg(uv.m()), n.m(), FP_ONE as int, FP_ONE as int, 3 * FP_ONE as int);
    }
    let cos = uv.neg().dot(*n);
    proof {
        let c = cos as int;
        lemma_fmul_mag(c, n.m().x, 3 * FP_ONE as int, FP_ONE as int, 3 * FP_ONE as int);
        lemma_fmul_mag(c, n.m().y, 3 * FP_ONE as int, FP_ONE as int, 3 * FP_ONE as int);
        lemma_fmul_mag(c, n.m().z, 3 * FP_ONE as int, FP_ONE as int, 3 * FP_ONE as int);
    }
    let inner = uv.add(n.scale(cos));
    proof {
        let iv = inner.m();
        lemma_fmul_mag(eta, iv.x, 0x1_0000_0000, 4 * FP_ONE as int, 0x4_0000_0000);
        lemma_fmul_mag(eta, iv.y, 0x1_0000_0000, 4 * FP_ONE as int, 0x4_0000_0000);
        lemma_fmul_mag(eta, iv.z, 0x1_0000_0000, 4 * FP_ONE as int, 0x4_0000_0000);
    }
    let perp = inner.scale(etai_over_etat);
    proof {
        lemma_dot_mag(perp.m(), perp.m(), 0x4_0000_0000, 0x4_0000_0000, 0x30_0000_0000_0000);
    }
    let ls = perp.dot(perp);
    let k: i64 = if ls >= 65536 {
        ls - 65536
    } else {
        65536 - ls
    };
    proof {
        assert(k as int == mag(FP_ONE as int - v_dot(perp.m(), perp.m())));
        assert((k as int) * (FP_ONE as int) < 0x10_0000_0000_0000_0000_0000_0000)
            by (nonlinear_arith)
            requires
                0 <= k as int <= 0x30_0000_0001_0000,
        ;
    }
    let par_len = isqrt((k as u128) * 65536);
    proof {
        let pl = par_len as int;
        assert(pl * pl <= (k as int) * (FP_ONE as int));
        assert(pl <= 0xC_0000_0000) by (nonlinear_arith)
            requires
                0 <= pl,
                pl * pl <= (k as int) * (FP_ONE as int),
                0 <= k as int <= 0x30_0000_0001_0000,
        ;
        lemma_fmul_mag(-pl, n.m().x, 0xC_0000_0000, FP_ONE as int, 0xC_0000_0000);
        lemma_fmul_mag(-pl, n.m().y, 0xC_0000_0000, FP_ONE as int, 0xC_0000_0000);
        lemma_fmul_mag(-pl, n.m().z, 0xC_0000_0000, FP_ONE as int, 0xC_0000_0000);
    }
    let par = n.scale(-(par_len as i64));
    perp.add(par)
}

/// Schlick's reflectance approximation, with the angle term clamped at
/// grazing so that the result stays a probability.
pub open spec fn spec_reflectance(cos: int, ref_idx: int) -> int {
    let r0a = fdiv(FP_ONE as int - ref_idx, FP_ONE as int + ref_idx);
    let r0 = fmul(r0a, r0a);
    let oc = if cos >= FP_ONE as int {
        0
    } else {
        FP_ONE as int - cos
    };
    let p5 = fmul(oc, fmul(oc, fmul(oc, fmul(oc, oc))));
    r0 + fmul(FP_ONE as int - r0, p5)
}

/// Schlick's reflectance; always within [0, 1].
pub fn reflectance(cos: i64, ref_idx: i64) -> (r: i64)
    requires
        0 <= cos <= 4 * FP_ONE,
        1 <= ref_idx <= 0x1_0000_0000,
    ensures
        r as int == spec_reflectance(cos as int, ref_idx as int),
        0 <= r <= FP_ONE,
{
    let num: i64 = 65536 - ref_idx;
    let den: i64 = 65536 + ref_idx;
    proof {
        lemma_mul_mag(num as int, FP_ONE as int, den as int, FP_ONE as int);
        lemma_tdiv_mag(num as int * FP_ONE as int, den as int);
        lemma_tdiv_ordered(
            mag(num as int * FP_ONE as int),
            den as int * FP_ONE as int,
            den as int,
        );
        lemma_tdiv_exact(FP_ONE as int, den as int);
        assert(den as int * FP_ONE as int == FP_ONE as int * den as int)
            by (nonlinear_arith);
    }
    let r0a = div_fp(num, den);
    proof {
        assert(mag(r0a as int) <= FP_ONE as int);
        lemma_fmul_mag(r0a as int, r0a as int, FP_ONE as int, FP_ONE as int, FP_ONE as int);
        assert(r0a as int * r0a as int >= 0) by (nonlinear_arith);
        lemma_tdiv_mag(r0a as int * r0a as int, FP_ONE as int);
    }
    let r0 = mul_fp(r0a, r0a);
    let oc: i64 = if cos >= 65536 {
        0
    } else {
        65536 - cos
    };
    proof {
        lemma_fmul_unit_interval(oc as int, oc as int);
        lemma_fmul_unit_interval(oc as int, fmul(oc as int, oc as int));
        lemma_fmul_unit_interval(oc as int, fmul(oc as int, fmul(oc as int, oc as int)));
        lemma_fmul_unit_interval(
            oc as int,
            fmul(oc as int, fmul(oc as int, fmul(oc as int, oc as int))),
        );
    }
    let p2 = mul_fp(oc, oc);
    let p3 = mul_fp(oc, p2);
    let p4 = mul_fp(oc, p3);
    let p5 = mul_fp(oc, p4);
    proof {
        lemma_fmul_unit_interval(FP_ONE as int - r0 as int, p5 as int);
    }
    r0 + mul_fp(65536 - r0, p5)
}

/// The relative refraction ratio a dielectric uses at a hit: inverse
/// index entering the surface, plain index leaving it.
pub open spec fn diel_eta(ior: int, front_face: bool) -> int {
    if front_face {
        fdiv(FP_ONE as int, ior)
    } else {
        ior
    }
}

/// The sine term of Snell's criterion, exactly as the scatter code
/// computes it from the incidence cosine.
pub open spec fn diel_sin(d: V3, n: V3) -> int {
    let c2 = fmul(v_dot(v_neg(d), n), v_dot(v_neg(d), n));
    let s2 = if c2 >= FP_ONE as int {
        0
    } else {
        FP_ONE as int - c2
    };
    spec_isqrt(s2 * FP_ONE)
}

/// Scattering: produce the outgoing ray and the attenuation color for a
/// hit. Every material scatters; the attenuation is exactly the albedo.
pub trait Scatterable {
    /// The albedo this material attenuates by.
    spec fn albedo_spec(&self) -> V3;

    /// The validity conditions of this material's parameters.
    spec fn scatter_wf(&self) -> bool;

    /// The outgoing directions this material can produce for a hit:
    /// what holds of the scattered direction over every random draw.
    spec fn scatter_dir_ok(&self, ray: Ray, hitrec: HitRecord, dir: V3) -> bool;

    fn scatter(&self, ray: &Ray, hitrec: &HitRecord, rng: &mut rand::rngs::StdRng) -> (r: (
        Ray,
        Vec3,
    ))
        requires
            self.scatter_wf(),
            ray.wf(),
            v_bounded(hitrec.point.m(), POS_LIMIT as int),
            v_bounded(hitrec.normal.m(), FP_ONE as int),
            v_dot(ray.direction.m(), hitrec.normal.m()) <= 0,
        ensures
            r.1.m() == self.albedo_spec(),
            color01(r.1.m()),
            r.0.origin == hitrec.point,
            r.0.wf(),
            self.scatter_dir_ok(*ray, *hitrec, r.0.direction.m()),
    ;
}

/// A diffuse surface.
#[derive(Clone, Copy, Debug, PartialEq, Eq, Structural)]
pub struct Lambertian {
    pub albedo: Vec3,
}

impl Scatterable for Lambertian {
    open spec fn albedo_spec(&self) -> V3 {
        self.albedo.m()
    }

    open spec fn scatter_wf(&self) -> bool {
        color01(self.albedo.m())
    }

    /// The direction is the normalized sum of the normal and a unit
    /// sample, falling back to the bare normal when the sum degenerates.
    open spec fn scatter_dir_ok(&self, ray: Ray, hitrec: HitRecord, dir: V3) -> bool {
        exists|u: V3|
            #[trigger] unit_sample(u) && dir == v_unit(
                if v_near_zero(v_add(hitrec.normal.m(), u)) {
                    hitrec.normal.m()
                } else {
                    v_add(hitrec.normal.m(), u)
                },
            )
    }

    fn scatter(&self, ray: &Ray, hitrec: &HitRecord, rng: &mut rand::rngs::StdRng) -> (r: (
        Ray,
        Vec3,
    )) {
        let rv = rand_unit_vector(rng);
        let mut direction = hitrec.normal.add(rv);
        if direction.near_zero() {
            direction = hitrec.normal;
        }
        let scattered = Ray::new(hitrec.point, direction);
        proof {
            assert(scattered.direction.m() == v_unit(
                if v_near_zero(v_add(hitrec.normal.m(), rv.m())) {
                    hitrec.normal.m()
                } else {
                    v_add(hitrec.normal.m(), rv.m())
                },
            ));
        }
        (scattered, self.albedo)
    }
}

/// A reflective surface with a fuzz radius blurring the mirror image.
#[derive(Clone, Copy, Debug, PartialEq, Eq, Structural)]
pub struct Metal {
    pub albedo: Vec3,
    pub fuzz: i64,
}

impl Scatterable for Metal {
    open spec fn albedo_spec(&self) -> V3 {
        self.albedo.m()
    }

    // The fuzz cap is the fixed-point range the jitter arithmetic
    // admits, far beyond any physical roughness.
    open spec fn scatter_wf(&self) -> bool {
        color01(self.albedo.m()) && 0 <= self.fuzz <= 0x4000_0000
    }

    /// The direction is the normalized mirror reflection, perturbed by
    /// a fuzz-scaled point of the unit ball; with no fuzz it is exactly
    /// the normalized reflection, whatever the draw.
    open spec fn scatter_dir_ok(&self, ray: Ray, hitrec: HitRecord, dir: V3) -> bool {
        if self.fuzz == 0 {
            dir == v_unit(v_reflect(ray.direction.m(), hitrec.normal.m()))
        } else {
            exists|p: V3|
                #[trigger] in_unit_ball(p) && dir == v_unit(
                    v_add(
                        v_reflect(ray.direction.m(), hitrec.normal.m()),
                        v_scale(self.fuzz as int, p),
                    ),
                )
        }
    }

    fn scatter(&self, ray: &Ray, hitrec: &HitRecord, rng: &mut rand::rngs::StdRng) -> (r: (
        Ray,
        Vec3,
    )) {
        let reflected = reflect(&ray.direction, &hitrec.normal);
        let jitter = rand_in_unit_sphere(rng);
        proof {
            lemma_fmul_mag(self.fuzz as int, jitter.m().x, 0x4000_0000, FP_ONE as int, 0x4000_0000);
            lemma_fmul_mag(self.fuzz as int, jitter.m().y, 0x4000_0000, FP_ONE as int, 0x4000_0000);
            lemma_fmul_mag(self.fuzz as int, jitter.m().z, 0x4000_0000, FP_ONE as int, 0x4000_0000);
        }
        let scattered = Ray::new(hitrec.point, reflected.add(jitter.scale(self.fuzz)));
        proof {
            if self.fuzz == 0 {
                crate::fixed::lemma_fmul_zero(jitter.m().x);
                crate::fixed::lemma_fmul_zero(jitter.m().y);
                crate::fixed::lemma_fmul_zero(jitter.m().z);
                assert(v_add(reflected.m(), v_scale(0, jitter.m())) == reflected.m());
            } else {
                assert(in_unit_ball(jitter.m()) && scattered.direction.m() == v_unit(
                    v_add(
                        v_reflect(ray.direction.m(), hitrec.normal.m()),
                        v_scale(self.fuzz as int, jitter.m()),
                    ),
                ));
            }
        }
        (scattered, self.albedo)
    }
}

/// A transparent refractive surface.
#[derive(Clone, Copy, Debug, PartialEq, Eq, Structural)]
pub struct Dieletric {
    pub albedo: Vec3,
    pub index_of_refraction: i64,
}

impl Scatterable for Dieletric {
    open spec fn albedo_spec(&self) -> V3 {
        self.albedo.m()
    }

    open spec fn scatter_wf(&self) -> bool {
        color01(self.albedo.m()) && 1 <= self.index_of_refraction <= 0x1000_0000
    }

    /// The direction is the normalized reflection or the normalized
    /// refraction; total internal reflection (decided by the inputs
    /// alone) forces the reflection, whatever the draw.
    open spec fn scatter_dir_ok(&self, ray: Ray, hitrec: HitRecord, dir: V3) -> bool {
        let d = ray.direction.m();
        let n = hitrec.normal.m();
        let eta = diel_eta(self.index_of_refraction as int, hitrec.front_face);
        &&& (dir == v_unit(v_reflect(d, n)) || dir == v_unit(spec_refract(d, n, eta)))
        &&& fmul(eta, diel_sin(d, n)) > FP_ONE as int ==> dir == v_unit(v_reflect(d, n))
    }

    fn scatter(&self, ray: &Ray, hitrec: &HitRecord, rng: &mut rand::rngs::StdRng) -> (r: (
        Ray,
        Vec3,
    )) {
        let ghost eta = diel_eta(self.index_of_refraction as int, hitrec.front_face);
        let refraction_ratio: i64 = if hitrec.front_face {
            proof {
                lemma_mul_mag(FP_ONE as int, FP_ONE as int, FP_ONE as int, FP_ONE as int);
                lemma_tdiv_mag(FP_ONE as int * FP_ONE as int, self.index_of_refraction as int);
            }
            div_fp(65536, self.index_of_refraction)
        } else {
            self.index_of_refraction
        };
        proof {
            lemma_dot_neg(ray.direction.m(), hitrec.normal.m());
            lemma_dot_mag(
                v_neg(ray.direction.m()),
                hitrec.normal.m(),
                FP_ONE as int,
                FP_ONE as int,
                3 * FP_ONE as int,
            );
            lemma_dot_mag(
                ray.direction.m(),
                hitrec.normal.m(),
                FP_ONE as int,
                FP_ONE as int,
                3 * FP_ONE as int,
            );
        }
        let cos = ray.direction.neg().dot(hitrec.normal);
        proof {
            lemma_fmul_mag(cos as int, cos as int, 3 * FP_ONE as int, 3 * FP_ONE as int, 9 * FP_ONE as int);
            assert(cos as int * cos as int >= 0) by (nonlinear_arith);
            lemma_tdiv_mag(cos as int * cos as int, FP_ONE as int);
        }
        let cos2 = mul_fp(cos, cos);
        let sin2: i64 = if cos2 >= 65536 {
            0
        } else {
            65536 - cos2
        };
        let sin = isqrt((sin2 as u128) * 65536);
        proof {
            assert(sin as int <= FP_ONE as int) by (nonlinear_arith)
                requires
                    0 <= sin as int,
                    (sin as int) * (sin as int) <= (sin2 as int) * (FP_ONE as int),
                    0 <= sin2 as int <= FP_ONE as int,
            ;
            lemma_fmul_mag(
                refraction_ratio as int,
                sin as int,
                0x1_0000_0000,
                FP_ONE as int,
                0x1_0000_0000,
            );
        }
        proof {
            if hitrec.front_face {
                vstd::arithmetic::div_mod::lemma_div_non_zero(
                    FP_ONE as int * FP_ONE as int,
                    self.index_of_refraction as int,
                );
            }
        }
        let mut cannot_refract = mul_fp(refraction_ratio, sin as i64) > 65536;
        let gate = rng_range(rng, 0, 65536);
        cannot_refract = cannot_refract || reflectance(cos, refraction_ratio) > gate;
        let direction = if cannot_refract {
            reflect(&ray.direction, &hitrec.normal)
        } else {
            refract(&ray.direction, &hitrec.normal, refraction_ratio)
        };
        let scattered = Ray::new(hitrec.point, direction);
        proof {
            assert(refraction_ratio as int == eta);
            assert(sin as int == diel_sin(ray.direction.m(), hitrec.normal.m()));
        }
        (scattered, self.albedo)
    }
}

/// The closed set of materials.
#[derive(Clone, Copy, Debug, PartialEq, Eq, Structural)]
pub enum Material {
    Lambertian(Lambertian),
    Metal(Metal),
    Dieletric(Dieletric),
}

impl Scatterable for Material {
    open spec fn albedo_spec(&self) -> V3 {
        match *self {
            Material::Lambertian(m) => m.albedo_spec(),
            Material::Metal(m) => m.albedo_spec(),
            Material::Dieletric(m) => m.albedo_spec(),
        }
    }

    open spec fn scatter_wf(&self) -> bool {
        match *self {
            Material::Lambertian(m) => m.scatter_wf(),
            Material::Metal(m) => m.scatter_wf(),
            Material::Dieletric(m) => m.scatter_wf(),
        }
    }

    open spec fn scatter_dir_ok(&self, ray: Ray, hitrec: HitRecord, dir: V3) -> bool {
        match *self {
            Material::Lambertian(m) => m.scatter_dir_ok(ray, hitrec, dir),
            Material::Metal(m) => m.scatter_dir_ok(ray, hitrec, dir),
            Material::Dieletric(m) => m.scatter_dir_ok(ray, hitrec, dir),
        }
    }

    fn scatter(&self, ray: &Ray, hitrec: &HitRecord, rng: &mut rand::rngs::StdRng) -> (r: (
        Ray,
        Vec3,
    )) {
        match self {
            Material::Lambertian(m) => m.scatter(ray, hitrec, rng),
            Material::Metal(m) => m.scatter(ray, hitrec, rng),
            Material::Dieletric(m) => m.scatter(ray, hitrec, rng),
        }
    }
}

} // verus!
