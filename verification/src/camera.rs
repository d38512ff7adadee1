//! The camera: a frame and a viewport on the focus plane, built once, and
//! the rays that leave its lens.
//!
//! Callers hand in Q16.16 numbers, where 65536 stands for 1.0. The axes have
//! 30 fraction bits. Points of the viewport, and the origin and direction of
//! a ray, have 40 fraction bits: 1099511627776 stands for 1.0. The lens
//! radius has 17 fraction bits, so that half an aperture is exact.

use crate::disk::{in_unit_disk, lemma_disk_coordinates, random_in_unit_disk, DiskPoint};
use crate::fixed::lemma_trunc_div_multiple;
use crate::frame::{
    axis_u, axis_v, axis_w, lemma_cross_perpendicular, lemma_factor_of_sum,
    lemma_frame_orthonormal, lemma_over_dot, lemma_over_square, perpendicular_to_within,
    unit_to_within, valid_placement,
};
use crate::vector::{
    lemma_cross_bound, lemma_over_bound, lemma_product_bound, lemma_times_bound, Vec3, Wide3,
    AXIS_ONE, V3,
};
use rand::rngs::StdRng;
use vstd::prelude::*;

verus! {

/// What a camera holds, over mathematical integers.
pub struct CameraModel {
    /// The centre of the lens, in Q16.16.
    pub origin: Vec3,
    /// Where image coordinate (0, 0) lies on the focus plane, with 40
    /// fraction bits.
    pub lower_left_corner: Vec3,
    /// The full span of the viewport along the image's horizontal axis, with
    /// 40 fraction bits.
    pub horizontal: Vec3,
    /// The full span of the viewport along the image's vertical axis, with
    /// 40 fraction bits.
    pub vertical: Vec3,
    /// The camera's right axis, with 30 fraction bits.
    pub u: Vec3,
    /// The camera's up axis, with 30 fraction bits.
    pub v: Vec3,
    /// Half the aperture, with 17 fraction bits: the number is that of the
    /// aperture in Q16.16.
    pub lens_radius: int,
}

/// A ray over mathematical integers, with 40 fraction bits.
pub struct RayModel {
    pub origin: Vec3,
    pub direction: Vec3,
}

/// Half the viewport's height on the focus plane, with 32 fraction bits.
pub open spec fn half_height(tan_half_fov: int, focus_dist: int) -> int {
    tan_half_fov * focus_dist
}

/// Half the viewport's width on the focus plane, with 48 fraction bits.
pub open spec fn half_width(tan_half_fov: int, aspect: int, focus_dist: int) -> int {
    aspect * half_height(tan_half_fov, focus_dist)
}

/// The inputs from which a camera can be built: two distinct points, an up
/// hint that is not parallel to the line between them, and positive extents.
pub open spec fn valid_setup(
    look_from: Vec3,
    look_at: Vec3,
    vup: Vec3,
    tan_half_fov: int,
    aspect: int,
    aperture: int,
    focus_dist: int,
) -> bool {
    &&& valid_placement(look_from, look_at, vup)
    &&& tan_half_fov > 0
    &&& aspect > 0
    &&& aperture >= 0
    &&& focus_dist > 0
}

/// The camera that the inputs describe.
pub open spec fn build(
    look_from: Vec3,
    look_at: Vec3,
    vup: Vec3,
    tan_half_fov: int,
    aspect: int,
    aperture: int,
    focus_dist: int,
) -> CameraModel {
    let w = axis_w(look_from, look_at);
    let u = axis_u(look_from, look_at, vup);
    let v = axis_v(look_from, look_at, vup);
    let hh = half_height(tan_half_fov, focus_dist);
    let hw = half_width(tan_half_fov, aspect, focus_dist);
    CameraModel {
        origin: look_from,
        lower_left_corner: look_from.times(16777216).minus(u.times(hw).over(274877906944)).minus(
            v.times(hh).over(4194304),
        ).minus(w.times(focus_dist).over(64)),
        horizontal: u.times(2 * hw).over(274877906944),
        vertical: v.times(2 * hh).over(4194304),
        u,
        v,
        lens_radius: aperture,
    }
}

impl CameraModel {
    /// The bounds that every built camera keeps: the fields fit, and `u` and
    /// `v` are of unit length and perpendicular to within rounding.
    pub open spec fn wf(self) -> bool {
        &&& self.origin.within(0x8000_0000)
        &&& self.lower_left_corner.within(0x80_0000_0000_0000_0000_0000)
        &&& self.horizontal.within(0x80_0000_0000_0000_0000_0000)
        &&& self.vertical.within(0x80_0000_0000_0000_0000_0000)
        &&& self.u.within(1073741824)
        &&& self.v.within(1073741824)
        &&& unit_to_within(self.u, 6442450946)
        &&& unit_to_within(self.v, 20401094656)
        &&& perpendicular_to_within(self.u, self.v, 3221225472)
        &&& 0 <= self.lens_radius <= 0x8000_0000
    }

    /// The sample `p` moved onto the lens: `lens_radius * p.0` along `u` and
    /// `lens_radius * p.1` along `v`, summed exactly and rounded once.
    pub open spec fn lens_offset(self, p: (int, int)) -> Vec3 {
        self.u.times(self.lens_radius * p.0).plus(self.v.times(self.lens_radius * p.1)).over(
            1073741824,
        )
    }

    /// The point of the focus plane that image coordinate `(s, t)` stands for.
    pub open spec fn target(self, s: int, t: int) -> Vec3 {
        self.lower_left_corner.plus(self.horizontal.times(s).over(65536)).plus(
            self.vertical.times(t).over(65536),
        )
    }

    /// The ray from the lens sample `p` to the target of `(s, t)`.
    pub open spec fn ray_through(self, s: int, t: int, p: (int, int)) -> RayModel {
        RayModel {
            origin: self.origin.times(16777216).plus(self.lens_offset(p)),
            direction: self.target(s, t).minus(self.origin.times(16777216)).minus(
                self.lens_offset(p),
            ),
        }
    }
}

/// A ray: where it starts and where it heads, with 40 fraction bits. The
/// direction is not normalized.
#[derive(Clone, Copy, Debug, PartialEq, Eq, Structural)]
pub struct Ray {
    pub origin: Wide3,
    pub direction: Wide3,
}

impl View for Ray {
    type V = RayModel;

    open spec fn view(&self) -> RayModel {
        RayModel { origin: self.origin@, direction: self.direction@ }
    }
}

/// A thin-lens camera. It does not change once built.
#[derive(Clone, Copy, Debug)]
pub struct Camera {
    origin: V3,
    lower_left_corner: Wide3,
    horizontal: Wide3,
    vertical: Wide3,
    u: Wide3,
    v: Wide3,
    lens_radius: i32,
}

impl View for Camera {
    type V = CameraModel;

    closed spec fn view(&self) -> CameraModel {
        CameraModel {
            origin: self.origin@,
            lower_left_corner: self.lower_left_corner@,
            horizontal: self.horizontal@,
            vertical: self.vertical@,
            u: self.u@,
            v: self.v@,
            lens_radius: self.lens_radius as int,
        }
    }
}

/// The exact product of two 32-bit numbers.
fn product(a: i32, b: i32) -> (r: i128)
    ensures
        r == a * b,
        -0x4000_0000_0000_0000 <= r <= 0x4000_0000_0000_0000,
{
    proof {
        lemma_product_bound(a as int, b as int, 0x8000_0000, 0x8000_0000);
    }
    (a as i128) * (b as i128)
}

impl Camera {
    /// The type's invariant.
    pub open spec fn wf(&self) -> bool {
        self@.wf()
    }

    /// Whether a camera can be built from these inputs.
    pub fn can_build(
        look_from: &V3,
        look_at: &V3,
        vup: &V3,
        tan_half_fov: i32,
        aspect: i32,
        aperture: i32,
        focus_dist: i32,
    ) -> (ok: bool)
        ensures
            ok == valid_setup(
                look_from@,
                look_at@,
                vup@,
                tan_half_fov as int,
                aspect as int,
                aperture as int,
                focus_dist as int,
            ),
    {
        if tan_half_fov <= 0 || aspect <= 0 || aperture < 0 || focus_dist <= 0 {
            return false;
        }
        let d = look_from.widen().minus(&look_at.widen());
        if d.is_zero() {
            return false;
        }
        !vup.widen().cross(&d).is_zero()
    }

    /// Builds the camera that looks from `look_from` toward `look_at`, with
    /// `vup` as the hint for its up axis. `tan_half_fov` is the tangent of
    /// half the vertical field of view, `aspect` the viewport's width over
    /// its height, `aperture` the lens diameter and `focus_dist` the distance
    /// from the lens to the plane in perfect focus; all are Q16.16 values.
    pub fn new(
        look_from: &V3,
        look_at: &V3,
        vup: &V3,
        tan_half_fov: i32,
        aspect: i32,
        aperture: i32,
        focus_dist: i32,
    ) -> (cam: Camera)
        requires
            valid_setup(
                look_from@,
                look_at@,
                vup@,
                tan_half_fov as int,
                aspect as int,
                aperture as int,
                focus_dist as int,
            ),
        ensures
            cam@ == build(
                look_from@,
                look_at@,
                vup@,
                tan_half_fov as int,
                aspect as int,
                aperture as int,
                focus_dist as int,
            ),
            cam.wf(),
    {
        let from = look_from.widen();
        let d = from.minus(&look_at.widen());
        let w = d.normalized();
        proof {
            lemma_cross_bound(vup@, d@, 0x8000_0000, 0x1_0000_0000);
        }
        let u = vup.widen().cross(&d).normalized();
        proof {
            lemma_cross_bound(w@, u@, 1073741824, 1073741824);
            lemma_frame_orthonormal(look_from@, look_at@, vup@);
        }
        let v = w.cross(&u).over(AXIS_ONE);
        let hh = product(tan_half_fov, focus_dist);
        proof {
            lemma_product_bound(aspect as int, hh as int, 0x8000_0000, 0x4000_0000_0000_0000);
        }
        let hw = (aspect as i128) * hh;
        proof {
            lemma_times_bound(from@, 16777216, 0x8000_0000, 16777216);
            lemma_times_bound(u@, hw as int, 1073741824, 0x2000_0000_0000_0000_0000_0000);
            lemma_times_bound(v@, hh as int, 1073741824, 0x4000_0000_0000_0000);
            lemma_times_bound(w@, focus_dist as int, 1073741824, 0x8000_0000);
            lemma_times_bound(u@, 2 * hw, 1073741824, 0x4000_0000_0000_0000_0000_0000);
            lemma_times_bound(v@, 2 * hh, 1073741824, 0x8000_0000_0000_0000);
            lemma_over_bound(u@.times(hw as int), 274877906944, 1073741824int * 0x2000_0000_0000_0000_0000_0000);
            lemma_over_bound(v@.times(hh as int), 4194304, 1073741824int * 0x4000_0000_0000_0000);
            lemma_over_bound(w@.times(focus_dist as int), 64, 1073741824int * 0x8000_0000);
            lemma_over_bound(u@.times(2 * hw), 274877906944, 1073741824int * 0x4000_0000_0000_0000_0000_0000);
            lemma_over_bound(v@.times(2 * hh), 4194304, 1073741824int * 0x8000_0000_0000_0000);
        }
        let corner = from.times(16777216).minus(&u.times(hw).over(274877906944)).minus(
            &v.times(hh).over(4194304),
        ).minus(&w.times(focus_dist as i128).over(64));
        Camera {
            origin: *look_from,
            lower_left_corner: corner,
            horizontal: u.times(2 * hw).over(274877906944),
            vertical: v.times(2 * hh).over(4194304),
            u,
            v,
            lens_radius: aperture,
        }
    }

    /// The ray that leaves the lens at the sample `p` and passes through the
    /// target of image coordinate `(s, t)`, a pair of Q16.16 values that is
    /// not clamped to the viewport.
    pub fn get_ray_at(&self, s: i32, t: i32, p: &DiskPoint) -> (ray: Ray)
        requires
            self.wf(),
            p.wf(),
        ensures
            ray@ == self@.ray_through(s as int, t as int, p@),
    {
        proof {
            lemma_disk_coordinates(p@);
        }
        let a = product(self.lens_radius, p.x());
        let b = product(self.lens_radius, p.y());
        proof {
            lemma_times_bound(self.u@, a as int, 1073741824, 0x4000_0000_0000_0000);
            lemma_times_bound(self.v@, b as int, 1073741824, 0x4000_0000_0000_0000);
            lemma_times_bound(self.origin@, 16777216, 0x8000_0000, 16777216);
            lemma_times_bound(
                self.horizontal@,
                s as int,
                0x80_0000_0000_0000_0000_0000,
                0x8000_0000,
            );
            lemma_times_bound(
                self.vertical@,
                t as int,
                0x80_0000_0000_0000_0000_0000,
                0x8000_0000,
            );
            lemma_over_bound(
                self.u@.times(a as int).plus(self.v@.times(b as int)),
                1073741824,
                2 * (1073741824int * 0x4000_0000_0000_0000),
            );
            lemma_over_bound(
                self.horizontal@.times(s as int),
                65536,
                0x8000_0000int * 0x80_0000_0000_0000_0000_0000,
            );
            lemma_over_bound(
                self.vertical@.times(t as int),
                65536,
                0x8000_0000int * 0x80_0000_0000_0000_0000_0000,
            );
        }
        let offset = self.u.times(a).plus(&self.v.times(b)).over(AXIS_ONE);
        let origin = self.origin.widen().times(16777216);
        let target = self.lower_left_corner.plus(&self.horizontal.times(s as i128).over(65536)).plus(
            &self.vertical.times(t as i128).over(65536),
        );
        Ray { origin: origin.plus(&offset), direction: target.minus(&origin).minus(&offset) }
    }

    /// The ray for image coordinate `(s, t)` from a point of the lens drawn
    /// with `rng`. With a lens of radius 0 every point of the lens gives the
    /// same ray, and that ray is returned whatever the sampler does; with a
    /// wider lens the result is `None` when the sampler gave up. The camera
    /// is only read, so threads may share it; each needs a generator of its
    /// own.
    pub fn get_ray(&self, s: i32, t: i32, rng: &mut StdRng) -> (r: Option<Ray>)
        requires
            self.wf(),
        ensures
            r matches Some(ray) ==> exists|p: (int, int)|
                in_unit_disk(p) && ray@ == #[trigger] self@.ray_through(s as int, t as int, p),
            r matches Some(ray) ==> ray@.origin.plus(ray@.direction) == self@.target(
                s as int,
                t as int,
            ),
            self@.lens_radius == 0 ==> (r matches Some(ray) && ray@ == (RayModel {
                origin: self@.origin.times(16777216),
                direction: self@.target(s as int, t as int).minus(self@.origin.times(16777216)),
            })),
    {
        match random_in_unit_disk(rng) {
            Some(p) => {
                let ray = self.get_ray_at(s, t, &p);
                proof {
                    assert(in_unit_disk(p@) && ray@ == self@.ray_through(s as int, t as int, p@));
                    lemma_ray_reaches_target(self@, s as int, t as int, p@);
                    if self@.lens_radius == 0 {
                        lemma_pinhole_origin(self@, s as int, t as int, p@);
                    }
                }
                Some(ray)
            },
            None => {
                if self.lens_radius == 0 {
                    let p = DiskPoint::centre();
                    let ray = self.get_ray_at(s, t, &p);
                    proof {
                        assert(in_unit_disk(p@) && ray@ == self@.ray_through(
                            s as int,
                            t as int,
                            p@,
                        ));
                        lemma_ray_reaches_target(self@, s as int, t as int, p@);
                        lemma_pinhole_origin(self@, s as int, t as int, p@);
                    }
                    Some(ray)
                } else {
                    None
                }
            },
        }
    }

    pub fn origin(&self) -> (r: V3)
        ensures
            r@ == self@.origin,
    {
        self.origin
    }

    pub fn lower_left_corner(&self) -> (r: Wide3)
        ensures
            r@ == self@.lower_left_corner,
    {
        self.lower_left_corner
    }

    pub fn horizontal(&self) -> (r: Wide3)
        ensures
            r@ == self@.horizontal,
    {
        self.horizontal
    }

    pub fn vertical(&self) -> (r: Wide3)
        ensures
            r@ == self@.vertical,
    {
        self.vertical
    }

    pub fn u(&self) -> (r: Wide3)
        ensures
            r@ == self@.u,
    {
        self.u
    }

    pub fn v(&self) -> (r: Wide3)
        ensures
            r@ == self@.v,
    {
        self.v
    }

    pub fn lens_radius(&self) -> (r: i32)
        ensures
            r == self@.lens_radius,
    {
        self.lens_radius
    }
}

/// Every ray for one image coordinate passes through the same point of the
/// focus plane, whatever the lens sample: its origin plus its direction is
/// the target.
pub proof fn lemma_ray_reaches_target(cam: CameraModel, s: int, t: int, p: (int, int))
    ensures
        cam.ray_through(s, t, p).origin.plus(cam.ray_through(s, t, p).direction) == cam.target(
            s,
            t,
        ),
{
}

/// Image coordinate (0, 0) stands for the lower left corner of the viewport,
/// and (1.0, 1.0) for the corner opposite to it.
pub proof fn lemma_target_corners(cam: CameraModel)
    ensures
        cam.target(0, 0) == cam.lower_left_corner,
        cam.target(65536, 65536) == cam.lower_left_corner.plus(cam.horizontal).plus(cam.vertical),
{
    lemma_times_identities(cam.horizontal);
    lemma_times_identities(cam.vertical);
}

/// Multiplying by 0 gives the zero vector, and multiplying by 1.0 in Q16.16
/// and dividing by it changes nothing.
pub proof fn lemma_times_identities(a: Vec3)
    ensures
        a.times(0) == Vec3::zero(),
        a.times(0).over(65536) == Vec3::zero(),
        a.times(0).over(1073741824) == Vec3::zero(),
        a.times(65536).over(65536) == a,
{
    lemma_trunc_div_multiple(a.x, 65536);
    lemma_trunc_div_multiple(a.y, 65536);
    lemma_trunc_div_multiple(a.z, 65536);
}

/// With a lens of radius 0 every ray starts at the centre of the lens,
/// whatever the image coordinate and the lens sample.
pub proof fn lemma_pinhole_origin(cam: CameraModel, s: int, t: int, p: (int, int))
    requires
        cam.lens_radius == 0,
    ensures
        cam.ray_through(s, t, p).origin == cam.origin.times(16777216),
        cam.ray_through(s, t, p).direction == cam.target(s, t).minus(cam.origin.times(16777216)),
{
    assert(0 * p.0 == 0 && 0 * p.1 == 0) by (nonlinear_arith);
    lemma_times_identities(cam.u);
    lemma_times_identities(cam.v);
    assert(cam.u.times(0).plus(cam.v.times(0)) == Vec3::zero());
    assert(Vec3::zero().over(1073741824) == Vec3::zero());
}

/// A camera built with aperture 0 is a pinhole camera: every ray starts at
/// `look_from`.
pub proof fn lemma_zero_aperture_origin(
    look_from: Vec3,
    look_at: Vec3,
    vup: Vec3,
    tan_half_fov: int,
    aspect: int,
    focus_dist: int,
    s: int,
    t: int,
    p: (int, int),
)
    ensures
        build(look_from, look_at, vup, tan_half_fov, aspect, 0, focus_dist).ray_through(
            s,
            t,
            p,
        ).origin == look_from.times(16777216),
{
    lemma_pinhole_origin(
        build(look_from, look_at, vup, tan_half_fov, aspect, 0, focus_dist),
        s,
        t,
        p,
    );
}

/// A ray starts on the lens: its origin is the centre of the lens moved by
/// `a` along `u` and by `b` along `v`, summed exactly and rounded once, where
/// `(a, b)` lies within the disk of the lens radius, and strictly inside it
/// unless the radius is 0. Here `a`, `b` and the radius times 8388608 have 40
/// fraction bits.
pub proof fn lemma_ray_origin_on_lens(cam: CameraModel, s: int, t: int, p: (int, int))
    requires
        cam.lens_radius >= 0,
        in_unit_disk(p),
    ensures
        cam.ray_through(s, t, p).origin == cam.origin.times(16777216).plus(
            cam.u.times(cam.lens_radius * p.0).plus(cam.v.times(cam.lens_radius * p.1)).over(
                1073741824,
            ),
        ),
        (cam.lens_radius * p.0) * (cam.lens_radius * p.0) + (cam.lens_radius * p.1) * (
        cam.lens_radius * p.1) <= (cam.lens_radius * 8388608) * (cam.lens_radius * 8388608),
        cam.lens_radius > 0 ==> (cam.lens_radius * p.0) * (cam.lens_radius * p.0) + (
        cam.lens_radius * p.1) * (cam.lens_radius * p.1) < (cam.lens_radius * 8388608) * (
        cam.lens_radius * 8388608),
{
    let r = cam.lens_radius;
    let a = r * p.0;
    let b = r * p.1;
    let rr = r * r;
    let px = p.0 * p.0;
    let py = p.1 * p.1;
    assert(a * a == rr * px) by (nonlinear_arith)
        requires
            a == r * p.0,
            rr == r * r,
            px == p.0 * p.0,
    ;
    assert(b * b == rr * py) by (nonlinear_arith)
        requires
            b == r * p.1,
            rr == r * r,
            py == p.1 * p.1,
    ;
    assert((r * 8388608) * (r * 8388608) == rr * 70368744177664) by (nonlinear_arith)
        requires
            rr == r * r,
    ;
    assert(rr >= 0 && (r > 0 ==> rr > 0)) by (nonlinear_arith)
        requires
            rr == r * r,
            r >= 0,
    ;
    assert(rr * px + rr * py <= rr * 70368744177664 && (rr > 0 ==> rr * px + rr * py < rr
        * 70368744177664)) by (nonlinear_arith)
        requires
            rr >= 0,
            px + py < 70368744177664,
    ;
}

/// One term of the dot product of `a u + b v` with `n`.
proof fn lemma_combination_term(a: int, u: int, b: int, v: int, n: int)
    ensures
        (a * u + b * v) * n == a * (u * n) + b * (v * n),
        (a * u + b * v) * (a * u + b * v) == (a * a) * (u * u) + (2 * (a * b)) * (u * v) + (b * b)
            * (v * v),
{
    assert((a * u + b * v) * n == a * (u * n) + b * (v * n)) by (nonlinear_arith);
    let x = a * u;
    let y = b * v;
    assert((x + y) * (x + y) == x * x + 2 * (x * y) + y * y) by (nonlinear_arith);
    assert(x * x == (a * a) * (u * u)) by (nonlinear_arith)
        requires
            x == a * u,
    ;
    assert(y * y == (b * b) * (v * v)) by (nonlinear_arith)
        requires
            y == b * v,
    ;
    assert(2 * (x * y) == (2 * (a * b)) * (u * v)) by (nonlinear_arith)
        requires
            x == a * u,
            y == b * v,
    ;
}

/// The offset of a lens sample lies in the plane of `u` and `v`: its dot
/// product with their cross product is at most the taxicab length of that
/// cross product, hence at most `6 * 2^60` in units of `2^-100`, which is 6
/// units of `2^-40`. That is less than one part in 100000 of any lens
/// radius above 0.
pub proof fn lemma_lens_offset_in_plane(cam: CameraModel, p: (int, int))
    requires
        cam.wf(),
    ensures
        -cam.u.cross(cam.v).taxicab() <= cam.lens_offset(p).dot(cam.u.cross(cam.v))
            <= cam.u.cross(cam.v).taxicab(),
        cam.u.cross(cam.v).taxicab() <= 6917529027641081856,
        cam.lens_radius >= 1 ==> -(9671406556917033397649408 * cam.lens_radius) <= 100000
            * cam.lens_offset(p).dot(cam.u.cross(cam.v)) <= 9671406556917033397649408
            * cam.lens_radius,
{
    let u = cam.u;
    let v = cam.v;
    let n = u.cross(v);
    let a = cam.lens_radius * p.0;
    let b = cam.lens_radius * p.1;
    let s = u.times(a).plus(v.times(b));
    lemma_cross_perpendicular(u, v);
    lemma_combination_term(a, u.x, b, v.x, n.x);
    lemma_combination_term(a, u.y, b, v.y, n.y);
    lemma_combination_term(a, u.z, b, v.z, n.z);
    lemma_factor_of_sum(a, u.x * n.x, u.y * n.y, u.z * n.z);
    lemma_factor_of_sum(b, v.x * n.x, v.y * n.y, v.z * n.z);
    assert(a * 0 == 0 && b * 0 == 0);
    assert(s.dot(n) == 0);
    lemma_over_dot(s, n, 1073741824);
    lemma_cross_bound(u, v, 1073741824, 1073741824);
    assert(1073741824 * 1073741824 == 1152921504606846976int) by (nonlinear_arith);
}

/// The offset of a lens sample is no longer than the lens radius, to within
/// 3 parts in 2^30: with `L` the radius at 40 fraction bits, the squared
/// length of the offset is at most `L * L * (1 + 3 / 2^30)`.
pub proof fn lemma_lens_offset_length(cam: CameraModel, p: (int, int))
    requires
        cam.wf(),
        in_unit_disk(p),
    ensures
        1073741824 * cam.lens_offset(p).norm_sq() <= 1073741827 * ((cam.lens_radius * 8388608) * (
        cam.lens_radius * 8388608)),
{
    let u = cam.u;
    let v = cam.v;
    let a = cam.lens_radius * p.0;
    let b = cam.lens_radius * p.1;
    let s = u.times(a).plus(v.times(b));
    let o = cam.lens_offset(p);
    lemma_ray_origin_on_lens(cam, 0, 0, p);
    let aa = a * a;
    let bb = b * b;
    let ab2 = 2 * (a * b);
    let nu = u.norm_sq();
    let nv = v.norm_sq();
    let duv = u.dot(v);
    lemma_combination_term(a, u.x, b, v.x, 0);
    lemma_combination_term(a, u.y, b, v.y, 0);
    lemma_combination_term(a, u.z, b, v.z, 0);
    lemma_factor_of_sum(aa, u.x * u.x, u.y * u.y, u.z * u.z);
    lemma_factor_of_sum(bb, v.x * v.x, v.y * v.y, v.z * v.z);
    lemma_factor_of_sum(ab2, u.x * v.x, u.y * v.y, u.z * v.z);
    assert(s.norm_sq() == aa * nu + ab2 * duv + bb * nv);
    assert(aa >= 0 && bb >= 0 && -(aa + bb) <= ab2 <= aa + bb) by (nonlinear_arith)
        requires
            aa == a * a,
            bb == b * b,
            ab2 == 2 * (a * b),
    ;
    assert(aa * nu <= aa * 1152921504606846976) by (nonlinear_arith)
        requires
            aa >= 0,
            nu <= 1152921504606846976,
    ;
    assert(bb * nv <= bb * 1152921504606846976) by (nonlinear_arith)
        requires
            bb >= 0,
            nv <= 1152921504606846976,
    ;
    lemma_product_bound(ab2, duv, aa + bb, 3221225472);
    lemma_over_square(s.x);
    lemma_over_square(s.y);
    lemma_over_square(s.z);
    assert(1152921504606846976 * o.norm_sq() == 1152921504606846976 * (o.x * o.x) + 1152921504606846976 * (o.y * o.y) + 1152921504606846976 * (o.z * o.z));
    assert(1152921504606846976 * o.norm_sq() <= s.norm_sq());
    assert((aa + bb) * 3221225472 == 3221225472 * aa + 3221225472 * bb) by (nonlinear_arith);
}

} // verus!
