//! The camera: maps normalized image-plane coordinates and lens jitter
//! to world-space rays.

use vstd::prelude::*;
use crate::fixed::{
    FP_ONE, mag, fmul, mul_fp, lemma_fmul_mag, lemma_fmul_unit_interval,
};
use crate::vec3::{
    Vec3, V3, v_bounded, v_add, v_sub, v_scale, v_cross, v_unit, in_unit_ball,
    lemma_cross_bound,
};
use crate::ray::Ray;
use crate::rng::rng_range;

verus! {

/// A point of the unit disk in the lens plane.
pub open spec fn disk_sample(p: V3) -> bool {
    in_unit_ball(p) && p.z == 0
}

/// A point of the unit disk in the lens plane (z = 0), by rejection;
/// after too many tries the center is returned.
pub fn random_in_unit_disk(rng: &mut rand::rngs::StdRng) -> (r: Vec3)
    ensures
        v_bounded(r.m(), FP_ONE as int),
        r.m().z == 0,
        disk_sample(r.m()),
{
    let mut tries: u64 = 0;
    while tries < 64
        decreases 64 - tries,
    {
        let x = rng_range(rng, -65536, 65536);
        let y = rng_range(rng, -65536, 65536);
        proof {
            crate::fixed::lemma_mul_mag(x as int, x as int, FP_ONE as int, FP_ONE as int);
            crate::fixed::lemma_mul_mag(y as int, y as int, FP_ONE as int, FP_ONE as int);
        }
        let n2: i128 = (x as i128) * (x as i128) + (y as i128) * (y as i128);
        if n2 <= 65536 * 65536 {
            let r = Vec3 { x, y, z: 0 };
            proof {
                assert(r.m().z * r.m().z == 0) by (nonlinear_arith)
                    requires
                        r.m().z == 0,
                ;
            }
            return r;
        }
        tries = tries + 1;
    }
    Vec3 { x: 0, y: 0, z: 0 }
}

/// The lens-plane offset a disk sample `p` produces: the sample scaled
/// by the lens radius, laid out along the camera's `u`, `v` basis.
pub open spec fn cam_offset(c: Camera, p: V3) -> V3 {
    v_add(
        v_scale(fmul(c.lens_radius as int, p.x), c.u.m()),
        v_scale(fmul(c.lens_radius as int, p.y), c.v.m()),
    )
}

/// The rays `get_ray` can produce for image-plane coordinates `(s, t)`,
/// over every lens draw: origin shifted by a disk sample's offset, the
/// direction re-aimed from it at the same viewport point.
pub open spec fn cam_ray_outcome(c: Camera, s: int, t: int, r: Ray) -> bool {
    exists|p: V3|
        #[trigger] disk_sample(p) && r.origin.m() == v_add(c.origin.m(), cam_offset(c, p))
            && r.direction.m() == v_unit(v_sub(cam_dir0(c, s, t), cam_offset(c, p)))
}

/// The direction of the ray through image-plane position `(s, t)` for a
/// camera with no lens offset.
pub open spec fn cam_dir0(c: Camera, s: int, t: int) -> V3 {
    v_sub(
        v_add(
            v_add(c.lower_left_corner.m(), v_scale(s, c.horizontal.m())),
            v_scale(t, c.vertical.m()),
        ),
        c.origin.m(),
    )
}

/// Immutable camera configuration, derived once from the viewing
/// parameters.
pub struct Camera {
    pub origin: Vec3,
    pub lower_left_corner: Vec3,
    pub horizontal: Vec3,
    pub vertical: Vec3,
    pub u: Vec3,
    pub v: Vec3,
    pub lens_radius: i64,
}

impl Camera {
    /// Bounds that `new` establishes and `get_ray` relies on.
    pub open spec fn wf(self) -> bool {
        &&& v_bounded(self.origin.m(), 0x4000_0000)
        &&& v_bounded(self.lower_left_corner.m(), 0x40_0000_0000)
        &&& v_bounded(self.horizontal.m(), 0x40_0000_0000)
        &&& v_bounded(self.vertical.m(), 0x40_0000_0000)
        &&& v_bounded(self.u.m(), FP_ONE as int)
        &&& v_bounded(self.v.m(), FP_ONE as int)
        &&& 0 <= self.lens_radius <= 0x4000_0000
    }

    /// Derive the camera from eye, target, up vector, the tangent of
    /// half the vertical field of view, aspect ratio, aperture and
    /// focus distance. Construction fails fast on a degenerate basis
    /// (eye at target, or up parallel to the view axis).
    #[verifier::rlimit(60)]
    pub fn new(
        lookfrom: Vec3,
        lookat: Vec3,
        vup: Vec3,
        tan_half_fov: i64,
        aspect_ratio: i64,
        aperture: i64,
        focus_dist: i64,
    ) -> (res: Option<Camera>)
        requires
            v_bounded(lookfrom.m(), 0x4000_0000),
            v_bounded(lookat.m(), 0x4000_0000),
            v_bounded(vup.m(), 0x4000_0000),
            0 < tan_half_fov <= 0x10_0000,
            0 < aspect_ratio <= 0x10_0000,
            0 <= aperture <= 0x4000_0000,
            1 <= focus_dist <= 0x100_0000,
        ensures
            match res {
                Some(c) => {
                    let w = v_unit(v_sub(lookfrom.m(), lookat.m()));
                    let u = v_unit(v_cross(vup.m(), w));
                    let v = v_unit(v_cross(w, u));
                    let vh = 2 * tan_half_fov as int;
                    let vw = fmul(aspect_ratio as int, vh);
                    &&& c.wf()
                    &&& c.origin == lookfrom
                    &&& c.u.m() == u
                    &&& c.v.m() == v
                    &&& c.horizontal.m() == v_scale(fmul(focus_dist as int, vw), u)
                    &&& c.vertical.m() == v_scale(fmul(focus_dist as int, vh), v)
                    &&& c.lower_left_corner.m() == v_sub(
                        v_sub(
                            v_sub(lookfrom.m(), v_scale(32768, c.horizontal.m())),
                            v_scale(32768, c.vertical.m()),
                        ),
                        v_scale(focus_dist as int, w),
                    )
                    &&& c.lens_radius as int == fmul(aperture as int, 32768)
                },
                None => v_sub(lookfrom.m(), lookat.m()) == (V3 { x: 0, y: 0, z: 0 })
                    || v_cross(vup.m(), v_unit(v_sub(lookfrom.m(), lookat.m())))
                        == (V3 { x: 0, y: 0, z: 0 })
                    || v_cross(
                        v_unit(v_sub(lookfrom.m(), lookat.m())),
                        v_unit(v_cross(vup.m(), v_unit(v_sub(lookfrom.m(), lookat.m())))),
                    ) == (V3 { x: 0, y: 0, z: 0 }),
            },
    {
        let d = lookfrom.sub(lookat);
        if d.x == 0 && d.y == 0 && d.z == 0 {
            return None;
        }
        let w = d.unit_or_zero();
        proof {
            lemma_cross_bound(vup.m(), w.m(), 0x4000_0000, FP_ONE as int, 0x8000_0000);
        }
        let cu = vup.cross(w);
        if cu.x == 0 && cu.y == 0 && cu.z == 0 {
            return None;
        }
        let u = cu.unit_or_zero();
        proof {
            lemma_cross_bound(w.m(), u.m(), FP_ONE as int, FP_ONE as int, 0x2_0000);
        }
        let cv = w.cross(u);
        if cv.x == 0 && cv.y == 0 && cv.z == 0 {
            return None;
        }
        let v = cv.unit_or_zero();
        let viewport_height: i64 = 2 * tan_half_fov;
        proof {
            lemma_fmul_mag(
                aspect_ratio as int,
                viewport_height as int,
                0x10_0000,
                0x20_0000,
                0x200_0000,
            );
        }
        let viewport_width = mul_fp(aspect_ratio, viewport_height);
        proof {
            lemma_fmul_mag(
                focus_dist as int,
                viewport_width as int,
                0x100_0000,
                0x200_0000,
                0x2_0000_0000,
            );
            lemma_fmul_mag(
                focus_dist as int,
                viewport_height as int,
                0x100_0000,
                0x20_0000,
                0x2000_0000,
            );
        }
        let kh = mul_fp(focus_dist, viewport_width);
        let kv = mul_fp(focus_dist, viewport_height);
        proof {
            lemma_scale_unit(kh as int, u.m(), 0x2_0000_0000);
            lemma_scale_unit(kv as int, v.m(), 0x2000_0000);
        }
        let horizontal = u.scale(kh);
        let vertical = v.scale(kv);
        proof {
            lemma_scale_unit(32768, horizontal.m(), 0x40_0000_0000);
            lemma_scale_unit(32768, vertical.m(), 0x40_0000_0000);
            lemma_scale_unit(focus_dist as int, w.m(), 0x100_0000);
            lemma_fmul_unit_interval(aperture as int, 32768);
        }
        let lower_left_corner = lookfrom
            .sub(horizontal.scale(32768))
            .sub(vertical.scale(32768))
            .sub(w.scale(focus_dist));
        Some(
            Camera {
                origin: lookfrom,
                lower_left_corner,
                horizontal,
                vertical,
                u,
                v,
                lens_radius: mul_fp(aperture, 32768),
            },
        )
    }

    /// The ray through image-plane coordinates `(s, t)`, with its origin
    /// jittered inside the lens aperture for depth of field. With a zero
    /// aperture the ray is an exact function of `(s, t)`.
    /// Draw a lens-plane offset: a disk sample scaled by the aperture,
    /// laid out along the camera's basis.
    fn lens_offset(&self, rng: &mut rand::rngs::StdRng) -> (off: Vec3)
        requires
            self.wf(),
        ensures
            v_bounded(off.m(), 0x1_0000_0000),
            exists|p: V3| #[trigger] disk_sample(p) && off.m() == cam_offset(*self, p),
            self.lens_radius == 0 ==> off.m() == (V3 { x: 0, y: 0, z: 0 }),
    {
        let rd0 = random_in_unit_disk(rng);
        proof {
            lemma_scale_unit(self.lens_radius as int, rd0.m(), 0x4000_0000);
        }
        let rd = rd0.scale(self.lens_radius);
        proof {
            lemma_scale_unit(rd.m().x, self.u.m(), 0x4000_0000);
            lemma_scale_unit(rd.m().y, self.v.m(), 0x4000_0000);
            if self.lens_radius == 0 {
                lemma_scale_zero(rd0.m());
                lemma_scale_zero_vec(rd.m(), self.u.m(), self.v.m());
            }
        }
        let off = self.u.scale(rd.x).add(self.v.scale(rd.y));
        proof {
            assert(disk_sample(rd0.m()) && off.m() == cam_offset(*self, rd0.m()));
        }
        off
    }

    #[verifier::rlimit(100)]
    pub fn get_ray(&self, s: i64, t: i64, rng: &mut rand::rngs::StdRng) -> (r: Ray)
        requires
            self.wf(),
            0 <= s <= 2 * FP_ONE,
            0 <= t <= 2 * FP_ONE,
        ensures
            r.wf(),
            cam_ray_outcome(*self, s as int, t as int, r),
            self.lens_radius == 0 ==> r.origin == self.origin && r.direction.m() == v_unit(
                cam_dir0(*self, s as int, t as int),
            ),
    {
        let offset = self.lens_offset(rng);
        proof {
            lemma_scale_unit(s as int, self.horizontal.m(), 0x100_0000_0000);
            lemma_scale_unit(t as int, self.vertical.m(), 0x100_0000_0000);
        }
        let dir = self
            .lower_left_corner
            .add(self.horizontal.scale(s))
            .add(self.vertical.scale(t))
            .sub(self.origin)
            .sub(offset);
        let out = Ray::new(self.origin.add(offset), dir);
        proof {
            let p0 = choose|p: V3| #[trigger] disk_sample(p) && offset.m() == cam_offset(
                *self,
                p,
            );
            assert(dir.m() == v_sub(cam_dir0(*self, s as int, t as int), cam_offset(*self, p0)));
            assert(disk_sample(p0) && out.origin.m() == v_add(
                self.origin.m(),
                cam_offset(*self, p0),
            ) && out.direction.m() == v_unit(
                v_sub(cam_dir0(*self, s as int, t as int), cam_offset(*self, p0)),
            ));
        }
        out
    }
}

/// Scaling a bounded vector by a bounded factor keeps every component
/// within the product bound (divided by the unit).
proof fn lemma_scale_unit(k: int, a: V3, q: int)
    requires
        mag(k) <= 0x8000_0000_0000,
        v_bounded(a, 0x80_0000_0000),
        0 <= q <= 0x7fff_ffff_ffff,
        mag(k) * 0x80_0000_0000 <= q * FP_ONE as int || {
            &&& v_bounded(a, FP_ONE as int)
            &&& mag(k) * FP_ONE as int <= q * FP_ONE as int
        },
    ensures
        mag(k * a.x) <= q * FP_ONE as int,
        mag(k * a.y) <= q * FP_ONE as int,
        mag(k * a.z) <= q * FP_ONE as int,
        v_bounded(v_scale(k, a), q),
{
    if v_bounded(a, FP_ONE as int) && mag(k) * FP_ONE as int <= q * FP_ONE as int {
        lemma_fmul_mag(k, a.x, mag(k), FP_ONE as int, q);
        lemma_fmul_mag(k, a.y, mag(k), FP_ONE as int, q);
        lemma_fmul_mag(k, a.z, mag(k), FP_ONE as int, q);
    } else {
        lemma_fmul_mag(k, a.x, mag(k), 0x80_0000_0000, q);
        lemma_fmul_mag(k, a.y, mag(k), 0x80_0000_0000, q);
        lemma_fmul_mag(k, a.z, mag(k), 0x80_0000_0000, q);
    }
}

/// Scaling by zero gives the zero vector.
proof fn lemma_scale_zero(a: V3)
    ensures
        v_scale(0, a) == (V3 { x: 0, y: 0, z: 0 }),
{
    assert(0 * a.x == 0) by (nonlinear_arith);
    assert(0 * a.y == 0) by (nonlinear_arith);
    assert(0 * a.z == 0) by (nonlinear_arith);
}

/// An all-zero lens offset contributes nothing.
proof fn lemma_scale_zero_vec(rd: V3, u: V3, v: V3)
    requires
        rd == (V3 { x: 0, y: 0, z: 0 }),
    ensures
        v_add(v_scale(rd.x, u), v_scale(rd.y, v)) == (V3 { x: 0, y: 0, z: 0 }),
{
    lemma_scale_zero(u);
    lemma_scale_zero(v);
}

} // verus!
