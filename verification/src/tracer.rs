//! The recursive radiance estimator.

use vstd::prelude::*;
use crate::fixed::{
    FP_ONE, tdiv, lemma_fmul_unit_interval, lemma_tdiv_mag, lemma_tdiv_ordered,
    lemma_tdiv_exact,
};
use crate::vec3::{Vec3, V3, v_bounded, v_add, v_scale, v_cmul};
use crate::ray::{Ray, HitRecord, POS_LIMIT, T_LIMIT};
use crate::shape::{World, world_hit_some, world_hit_none, hit_candidate};
use crate::material::{Material, Scatterable, color01};

verus! {

/// The lower end of every intersection window: hits closer than this
/// are shadow acne and are ignored.
pub const T_MIN_HIT: i64 = 66;

/// The sky color of the background gradient.
pub open spec fn sky_color() -> V3 {
    V3 { x: 32768, y: 45875, z: 65536 }
}

/// The ground (white) end of the background gradient.
pub open spec fn white_color() -> V3 {
    V3 { x: FP_ONE as int, y: FP_ONE as int, z: FP_ONE as int }
}

/// The background gradient: a linear blend from white to sky blue by
/// the vertical component of the ray direction.
pub open spec fn spec_background(d: V3) -> V3 {
    let t = tdiv(d.y + FP_ONE, 2);
    v_add(v_scale(FP_ONE - t, white_color()), v_scale(t, sky_color()))
}

/// What one scatter call can return for a hit: the attenuation is the
/// material's albedo, the outgoing ray starts at the hit point, and its
/// direction is one the material can produce.
pub open spec fn scatter_outcome(m: Material, ray: Ray, h: HitRecord, sr: Ray, att: V3) -> bool {
    &&& att == m.albedo_spec()
    &&& color01(att)
    &&& sr.origin == h.point
    &&& sr.wf()
    &&& m.scatter_dir_ok(ray, h, sr.direction.m())
}

/// The radiance values `ray_color` can return, over every random draw:
/// black once the bounce budget is exhausted; the background where the
/// scene has no root in the query window; otherwise the albedo-filtered
/// radiance of a scatter outcome at the nearest hit — or black for the
/// degenerate hit whose point leaves the scene bounds.
pub open spec fn radiance_outcome(ray: Ray, world: World, depth: nat, c: V3) -> bool
    decreases depth,
{
    if depth == 0 {
        c == (V3 { x: 0, y: 0, z: 0 })
    } else if world_hit_none(world, ray, T_MIN_HIT as int, T_LIMIT as int) {
        c == spec_background(ray.direction.m())
    } else {
        exists|h: HitRecord|
            #[trigger] world_hit_some(world, ray, T_MIN_HIT as int, T_LIMIT as int, h) && (
            if !v_bounded(h.point.m(), POS_LIMIT as int) {
                c == (V3 { x: 0, y: 0, z: 0 })
            } else {
                exists|sr: Ray, att: V3, rec: V3|
                    #![trigger scatter_outcome(h.material, ray, h, sr, att), v_cmul(att, rec)]
                    scatter_outcome(h.material, ray, h, sr, att) && radiance_outcome(
                        sr,
                        world,
                        (depth - 1) as nat,
                        rec,
                    ) && c == v_cmul(att, rec)
            })
    }
}

/// The background color of a ray direction, executable.
pub fn background(d: &Vec3) -> (c: Vec3)
    requires
        v_bounded(d.m(), FP_ONE as int),
    ensures
        c.m() == spec_background(d.m()),
        color01(c.m()),
{
    proof {
        lemma_tdiv_mag(d.m().y + FP_ONE as int, 2);
    }
    let t: i64 = (d.y + 65536) / 2;
    proof {
        lemma_tdiv_ordered(d.m().y + FP_ONE as int, 2 * FP_ONE as int, 2);
        lemma_tdiv_exact(FP_ONE as int, 2);
        assert(2 * FP_ONE as int == FP_ONE as int * 2) by (nonlinear_arith);
        lemma_fmul_unit_interval(FP_ONE as int - t as int, FP_ONE as int);
        lemma_fmul_unit_interval(t as int, 32768);
        lemma_fmul_unit_interval(t as int, 45875);
        lemma_fmul_unit_interval(t as int, FP_ONE as int);
        lemma_fmul_unit_interval(FP_ONE as int - t as int, FP_ONE as int);
    }
    let white = Vec3 { x: 65536, y: 65536, z: 65536 };
    let sky = Vec3 { x: 32768, y: 45875, z: 65536 };
    white.scale(65536 - t).add(sky.scale(t))
}

/// The radiance arriving along `ray`: black once the bounce budget is
/// exhausted, the background where nothing is hit, and otherwise the
/// scattered radiance filtered by the material's albedo.
pub fn ray_color(ray: &Ray, world: &World, depth: u16, rng: &mut rand::rngs::StdRng) -> (c:
    Vec3)
    requires
        ray.wf(),
        world.wf(),
    ensures
        color01(c.m()),
        radiance_outcome(*ray, *world, depth as nat, c.m()),
        depth == 0 ==> c.m() == (V3 { x: 0, y: 0, z: 0 }),
        depth > 0 && world_hit_none(*world, *ray, T_MIN_HIT as int, T_LIMIT as int)
            ==> c.m() == spec_background(ray.direction.m()),
    decreases depth,
{
    if depth == 0 {
        return Vec3 { x: 0, y: 0, z: 0 };
    }
    match world.hit(ray, T_MIN_HIT, T_LIMIT) {
        Some(hitrec) => {
            proof {
                let j = choose|j: int|
                    0 <= j < world.components@.len() && #[trigger] hit_candidate(
                        world.components@[j],
                        *ray,
                        T_MIN_HIT as int,
                        T_LIMIT as int,
                        hitrec.t as int,
                    ) && crate::shape::sph_record_matches(
                        world.components@[j],
                        *ray,
                        hitrec.t as int,
                        hitrec,
                    );
                assert(world.components@[j].wf());
                assert(!world_hit_none(*world, *ray, T_MIN_HIT as int, T_LIMIT as int));
            }
            if hitrec.point.x > POS_LIMIT || hitrec.point.x < -POS_LIMIT
                || hitrec.point.y > POS_LIMIT || hitrec.point.y < -POS_LIMIT
                || hitrec.point.z > POS_LIMIT || hitrec.point.z < -POS_LIMIT {
                // A scatter origin outside the scene bounds cannot seed
                // another well-formed ray; treat the path as absorbed.
                proof {
                    assert(world_hit_some(
                        *world,
                        *ray,
                        T_MIN_HIT as int,
                        T_LIMIT as int,
                        hitrec,
                    ));
                }
                return Vec3 { x: 0, y: 0, z: 0 };
            }
            let (scattered, attenuation) = hitrec.material.scatter(ray, &hitrec, rng);
            let rec = ray_color(&scattered, world, depth - 1, rng);
            proof {
                lemma_fmul_unit_interval(attenuation.m().x, rec.m().x);
                lemma_fmul_unit_interval(attenuation.m().y, rec.m().y);
                lemma_fmul_unit_interval(attenuation.m().z, rec.m().z);
            }
            let out = attenuation.cmul(rec);
            proof {
                assert(scatter_outcome(
                    hitrec.material,
                    *ray,
                    hitrec,
                    scattered,
                    attenuation.m(),
                ));
                assert(out.m() == v_cmul(attenuation.m(), rec.m()));
                assert(world_hit_some(*world, *ray, T_MIN_HIT as int, T_LIMIT as int, hitrec));
            }
            out
        },
        None => background(&ray.direction),
    }
}

} // verus!
