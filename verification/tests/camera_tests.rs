use lens_camera::camera::{Camera, Ray};
use lens_camera::disk::DiskPoint;
use lens_camera::vector::{Wide3, V3};
use rand::rngs::StdRng;
use rand::{Rng, SeedableRng};

const ONE: i32 = 65536;
const AXIS: i128 = 1 << 30;
const FINE: i128 = 1 << 40;

fn dot(a: &Wide3, b: &Wide3) -> i128 {
    a.x * b.x + a.y * b.y + a.z * b.z
}

fn taxicab(a: &Wide3) -> i128 {
    a.x.abs() + a.y.abs() + a.z.abs()
}

fn length(a: &Wide3, one: f64) -> f64 {
    (dot(a, a) as f64).sqrt() / one
}

/// Where the centre of the lens lies, with 40 fraction bits.
fn centre_of_lens(cam: &Camera) -> Wide3 {
    cam.origin().widen().times(1 << 24)
}

/// The camera at the origin that looks down the negative z axis, with a
/// right-angle field of view and a viewport twice as wide as high.
fn level_camera(aperture: i32) -> Camera {
    let look_from = V3::new(0, 0, 0);
    let look_at = V3::new(0, 0, -ONE);
    let vup = V3::new(0, ONE, 0);
    assert!(Camera::can_build(&look_from, &look_at, &vup, ONE, 2 * ONE, aperture, ONE));
    Camera::new(&look_from, &look_at, &vup, ONE, 2 * ONE, aperture, ONE)
}

/// A camera that looks at the origin from (2, 1, 3), with a lens of
/// diameter 0.25 focused at distance 3.5.
fn tilted_camera() -> Camera {
    let look_from = V3::new(2 * ONE, ONE, 3 * ONE);
    let look_at = V3::new(0, 0, 0);
    let vup = V3::new(0, ONE, 0);
    assert!(Camera::can_build(&look_from, &look_at, &vup, 32768, 98304, 16384, 229376));
    Camera::new(&look_from, &look_at, &vup, 32768, 98304, 16384, 229376)
}

#[test]
fn level_camera_has_the_expected_viewport() {
    let cam = level_camera(0);
    assert_eq!(cam.origin(), V3::new(0, 0, 0));
    assert_eq!(cam.lower_left_corner(), Wide3::new(-2 * FINE, -FINE, -FINE));
    assert_eq!(cam.horizontal(), Wide3::new(4 * FINE, 0, 0));
    assert_eq!(cam.vertical(), Wide3::new(0, 2 * FINE, 0));
    assert_eq!(cam.u(), Wide3::new(AXIS, 0, 0));
    assert_eq!(cam.v(), Wide3::new(0, AXIS, 0));
    assert_eq!(cam.lens_radius(), 0);
}

#[test]
fn level_camera_looks_down_the_axis_through_the_centre_of_the_image() {
    let cam = level_camera(0);
    let mut rng = StdRng::seed_from_u64(1);
    let ray = cam.get_ray(ONE / 2, ONE / 2, &mut rng).unwrap();
    assert_eq!(ray.origin, Wide3::new(0, 0, 0));
    assert_eq!(ray.direction, Wide3::new(0, 0, -FINE));
}

#[test]
fn tilted_camera_has_the_expected_fields() {
    let cam = tilted_camera();
    assert_eq!(cam.origin(), V3::new(131072, 65536, 196608));
    assert_eq!(cam.u(), Wide3::new(893407200, 0, -595604800));
    assert_eq!(cam.v(), Wide3::new(-159182078, 1034683509, -238773117));
    assert_eq!(cam.lower_left_corner(), Wide3::new(-1974198913536, -1783140169984, 2241905158912));
    assert_eq!(cam.horizontal(), Wide3::new(4802957107200, 0, -3201971404800));
    assert_eq!(cam.vertical(), Wide3::new(-570508567552, 3708305696256, -855762851328));
    assert_eq!(cam.lens_radius(), 16384);
}

#[test]
fn lens_radius_is_half_the_aperture_exactly() {
    // The radius has one fraction bit more than the aperture, so the number
    // stays and nothing is rounded away.
    assert_eq!(level_camera(0).lens_radius(), 0);
    assert_eq!(level_camera(1).lens_radius(), 1);
    assert_eq!(level_camera(3).lens_radius(), 3);
    assert_eq!(level_camera(2 * ONE).lens_radius(), 2 * ONE);
    assert_eq!(level_camera(i32::MAX).lens_radius(), i32::MAX);
    let cam = level_camera(1);
    let p = DiskPoint::new(8388607, 0).unwrap();
    let ray = cam.get_ray_at(0, 0, &p);
    assert_eq!(ray.origin, Wide3::new(8388607, 0, 0));
}

#[test]
fn ray_through_a_chosen_point_of_the_lens() {
    let cam = level_camera(2 * ONE);
    let p = DiskPoint::new(4194304, 0).unwrap();
    let ray = cam.get_ray_at(ONE / 2, ONE / 2, &p);
    assert_eq!(
        ray,
        Ray { origin: Wide3::new(FINE / 2, 0, 0), direction: Wide3::new(-FINE / 2, 0, -FINE) }
    );
}

#[test]
fn tilted_ray_through_a_chosen_point_of_the_lens() {
    let cam = tilted_camera();
    let p = DiskPoint::new(4194304, -2097152).unwrap();
    let ray = cam.get_ray_at(16384, 49152, &p);
    assert_eq!(ray.origin, Wide3::new(2261295142848, 1066401755488, 3268056915872));
    assert_eq!(ray.direction, Wide3::new(-3462636205248, -68312653280, -2468466746656));
}

#[test]
fn image_coordinates_outside_the_viewport_extrapolate() {
    let cam = tilted_camera();
    let p = DiskPoint::new(0, 0).unwrap();
    let ray = cam.get_ray_at(-ONE, 2 * ONE, &p);
    assert_eq!(ray.origin, Wide3::new(2199023255552, 1099511627776, 3298534883328));
    assert_eq!(ray.direction, Wide3::new(-10117196411392, 4533959594752, 433815977728));
}

fn placements() -> Vec<(V3, V3, V3)> {
    vec![
        (V3::new(2 * ONE, ONE, 3 * ONE), V3::new(0, 0, 0), V3::new(0, ONE, 0)),
        (V3::new(0, 0, 0), V3::new(0, 0, -ONE), V3::new(0, ONE, 0)),
        (V3::new(ONE, ONE, 0), V3::new(0, 0, 0), V3::new(0, 0, ONE)),
        (V3::new(2, 60000, 26363), V3::new(0, 0, 0), V3::new(0, ONE, 0)),
        (V3::new(-7 * ONE, 12345, 99), V3::new(5, -3 * ONE, 8 * ONE), V3::new(1, 2, 3)),
        (V3::new(i32::MAX, i32::MIN, 0), V3::new(i32::MIN, i32::MAX, 5), V3::new(0, 0, i32::MAX)),
        (V3::new(1, 0, 0), V3::new(0, 0, 0), V3::new(0, 0, -1)),
        (V3::new(1000, 2000, -3000), V3::new(1001, 2000, -3000), V3::new(i32::MIN, i32::MIN, 7)),
        (V3::new(1000 * ONE, 1, 0), V3::new(0, 0, 0), V3::new(ONE, 0, 0)),
        (V3::new(ONE, 2 * ONE, 0), V3::new(0, 0, 0), V3::new(ONE, 2 * ONE, 1)),
        (V3::new(i32::MAX, i32::MAX, i32::MAX), V3::new(i32::MIN, i32::MIN, i32::MIN), V3::new(i32::MAX, i32::MAX, i32::MIN)),
    ]
}

#[test]
fn frame_is_orthonormal_to_within_rounding() {
    for (look_from, look_at, vup) in placements().iter() {
        assert!(Camera::can_build(look_from, look_at, vup, ONE, ONE, 0, ONE));
        let cam = Camera::new(look_from, look_at, vup, ONE, ONE, 0, ONE);
        let u = cam.u();
        let v = cam.v();
        let d = look_from.widen().minus(&look_at.widen());
        let w = d.normalized();
        let unit: i128 = 1 << 60;
        assert!(dot(&u, &u) <= unit && dot(&u, &u) >= unit - (6 * AXIS + 2));
        assert!(dot(&w, &w) <= unit && dot(&w, &w) >= unit - (6 * AXIS + 2));
        assert!(dot(&v, &v) <= unit && dot(&v, &v) >= unit - 19 * AXIS);
        assert!(dot(&u, &v).abs() <= 3 * AXIS);
        assert!(dot(&u, &w).abs() <= 7 * AXIS);
        assert!(dot(&v, &w).abs() <= 3 * AXIS);
        let e = u.cross(&v).over(AXIS).minus(&w);
        assert!(e.x.abs() <= 16 && e.y.abs() <= 16 && e.z.abs() <= 16);
        assert!(dot(&w, &d) > 0);
    }
}

#[test]
fn frame_is_square_to_the_line_of_sight() {
    for (look_from, look_at, vup) in placements().iter() {
        let cam = Camera::new(look_from, look_at, vup, ONE, ONE, 0, ONE);
        let d = look_from.widen().minus(&look_at.widen());
        let up = vup.widen();
        assert!(dot(&cam.u(), &d).abs() <= 2 * taxicab(&d));
        assert!(dot(&cam.v(), &d).abs() <= 4 * taxicab(&d));
        assert!(dot(&cam.u(), &up).abs() <= 2 * taxicab(&up));
        assert!(dot(&cam.v(), &up) > 0);
    }
}

#[test]
fn frame_meets_a_tolerance_of_one_part_in_a_hundred_thousand() {
    for (look_from, look_at, vup) in placements().iter() {
        let cam = Camera::new(look_from, look_at, vup, ONE, ONE, 0, ONE);
        let u = cam.u();
        let v = cam.v();
        let d = look_from.widen().minus(&look_at.widen());
        let one = 1073741824.0f64;
        assert!((length(&u, one) - 1.0).abs() <= 1e-5);
        assert!((length(&v, one) - 1.0).abs() <= 1e-5);
        assert!((dot(&u, &v) as f64 / (one * one)).abs() <= 1e-5);
        let len_d = length(&d, 1.0);
        assert!((dot(&u, &d) as f64 / one).abs() <= 1e-5 * len_d);
        assert!((dot(&v, &d) as f64 / one).abs() <= 1e-5 * len_d);
        let n = u.cross(&v);
        let exact = [d.x as f64 / len_d, d.y as f64 / len_d, d.z as f64 / len_d];
        let got = [n.x as f64 / (one * one), n.y as f64 / (one * one), n.z as f64 / (one * one)];
        for i in 0..3 {
            assert!((got[i] - exact[i]).abs() <= 1e-5);
        }
    }
}

#[test]
fn pinhole_rays_start_at_the_centre_of_the_lens() {
    let look_from = V3::new(2 * ONE, ONE, 3 * ONE);
    let look_at = V3::new(0, 0, 0);
    let vup = V3::new(0, ONE, 0);
    let cam = Camera::new(&look_from, &look_at, &vup, 32768, 98304, 0, 229376);
    let mut rng = StdRng::seed_from_u64(3);
    for i in 0..2000 {
        let s = rng.gen::<i32>() >> (i % 16);
        let t = rng.gen::<i32>() >> (i % 16);
        let ray = cam.get_ray(s, t, &mut rng).unwrap();
        assert_eq!(ray.origin, centre_of_lens(&cam));
    }
}

#[test]
fn pinhole_rays_do_not_depend_on_the_generator() {
    let cam = level_camera(0);
    let centre = DiskPoint::centre();
    for seed in 0..50u64 {
        let mut rng = StdRng::seed_from_u64(seed);
        for &(s, t) in [(0, 0), (ONE, ONE), (ONE / 2, ONE / 3), (-ONE, 5 * ONE)].iter() {
            let ray = cam.get_ray(s, t, &mut rng);
            assert_eq!(ray, Some(cam.get_ray_at(s, t, &centre)));
            let target = cam
                .lower_left_corner()
                .plus(&cam.horizontal().times(s as i128).over(65536))
                .plus(&cam.vertical().times(t as i128).over(65536));
            assert_eq!(ray.unwrap().direction, target.minus(&centre_of_lens(&cam)));
        }
    }
}

#[test]
fn ray_origins_lie_on_the_lens() {
    let cam = level_camera(ONE);
    // Half of 1.0, with 40 fraction bits.
    let radius: i128 = (cam.lens_radius() as i128) << 23;
    assert_eq!(radius, FINE / 2);
    let mut rng = StdRng::seed_from_u64(4);
    let mut farthest: i128 = 0;
    for _ in 0..10000 {
        let ray = cam.get_ray(ONE / 3, ONE / 4, &mut rng).unwrap();
        let offset = ray.origin.minus(&centre_of_lens(&cam));
        assert_eq!(offset.z, 0);
        let d = offset.x * offset.x + offset.y * offset.y;
        assert!(d < radius * radius);
        farthest = farthest.max(d);
    }
    assert!(farthest > radius / 10 * radius * 9);
}

#[test]
fn tilted_ray_origins_stay_on_the_lens() {
    for (look_from, look_at, vup) in placements().iter() {
        for &aperture in [1, 7, ONE / 4, ONE, 100 * ONE, i32::MAX].iter() {
            let cam = Camera::new(look_from, look_at, vup, ONE, ONE, aperture, ONE);
            let radius: i128 = (cam.lens_radius() as i128) << 23;
            let normal = cam.u().cross(&cam.v());
            let mut rng = StdRng::seed_from_u64(8);
            for _ in 0..200 {
                let ray = cam.get_ray(ONE / 2, ONE / 2, &mut rng).unwrap();
                let offset = ray.origin.minus(&centre_of_lens(&cam));
                // in the plane of u and v
                let out = dot(&offset, &normal).abs();
                assert!(out <= taxicab(&normal));
                let out_real = out as f64 / (FINE as f64 * AXIS as f64 * AXIS as f64);
                assert!(out_real <= 1e-5 * (radius as f64 / FINE as f64));
                // within the radius
                let len = length(&offset, FINE as f64);
                assert!(len <= (radius as f64 / FINE as f64) * (1.0 + 1e-5));
            }
        }
    }
}

#[test]
fn rays_of_one_image_coordinate_meet_on_the_focus_plane() {
    let cam = tilted_camera();
    let mut rng = StdRng::seed_from_u64(5);
    let corner = cam.lower_left_corner();
    let opposite = corner.plus(&cam.horizontal()).plus(&cam.vertical());
    let centre = corner
        .plus(&cam.horizontal().times(32768).over(65536))
        .plus(&cam.vertical().times(32768).over(65536));
    for _ in 0..1000 {
        let a = cam.get_ray(0, 0, &mut rng).unwrap();
        assert_eq!(a.origin.plus(&a.direction), corner);
        let b = cam.get_ray(ONE, ONE, &mut rng).unwrap();
        assert_eq!(b.origin.plus(&b.direction), opposite);
        let c = cam.get_ray(ONE / 2, ONE / 2, &mut rng).unwrap();
        assert_eq!(c.origin.plus(&c.direction), centre);
    }
}

#[test]
fn rays_are_reproducible_from_a_seed() {
    let cam = tilted_camera();
    let mut a = StdRng::seed_from_u64(21);
    let mut b = StdRng::seed_from_u64(21);
    let mut previous = None;
    let mut moved = false;
    for _ in 0..50 {
        let ra = cam.get_ray(ONE / 2, ONE / 2, &mut a).unwrap();
        let rb = cam.get_ray(ONE / 2, ONE / 2, &mut b).unwrap();
        assert_eq!(ra, rb);
        if let Some(p) = previous {
            moved = moved || p != ra;
        }
        previous = Some(ra);
    }
    assert!(moved);
}

#[test]
fn get_ray_uses_the_sample_that_the_generator_gives() {
    let cam = tilted_camera();
    let mut rng = StdRng::seed_from_u64(33);
    let mut mirror = StdRng::seed_from_u64(33);
    for _ in 0..100 {
        let ray = cam.get_ray(12345, 54321, &mut rng).unwrap();
        let p = lens_camera::disk::random_in_unit_disk(&mut mirror).unwrap();
        assert_eq!(ray, cam.get_ray_at(12345, 54321, &p));
    }
}

#[test]
fn setups_that_cannot_be_built() {
    let from = V3::new(0, 0, 0);
    let at = V3::new(0, 0, -ONE);
    let up = V3::new(0, ONE, 0);
    assert!(Camera::can_build(&from, &at, &up, ONE, ONE, 0, ONE));
    assert!(Camera::can_build(&from, &at, &up, 1, 1, 0, 1));
    assert!(!Camera::can_build(&from, &from, &up, ONE, ONE, 0, ONE));
    assert!(!Camera::can_build(&from, &at, &V3::new(0, 0, ONE), ONE, ONE, 0, ONE));
    assert!(!Camera::can_build(&from, &at, &V3::new(0, 0, -5), ONE, ONE, 0, ONE));
    assert!(!Camera::can_build(&from, &at, &V3::new(0, 0, 0), ONE, ONE, 0, ONE));
    assert!(!Camera::can_build(&from, &at, &up, 0, ONE, 0, ONE));
    assert!(!Camera::can_build(&from, &at, &up, -1, ONE, 0, ONE));
    assert!(!Camera::can_build(&from, &at, &up, ONE, 0, 0, ONE));
    assert!(!Camera::can_build(&from, &at, &up, ONE, ONE, -1, ONE));
    assert!(!Camera::can_build(&from, &at, &up, ONE, ONE, 0, 0));
    assert!(!Camera::can_build(&from, &at, &up, ONE, ONE, 0, -ONE));
}

#[test]
fn only_an_up_hint_that_is_parallel_to_the_line_of_sight_is_refused() {
    let at = V3::new(0, 0, 0);
    let from = V3::new(ONE, 2 * ONE, 0);
    assert!(!Camera::can_build(&from, &at, &V3::new(ONE, 2 * ONE, 0), ONE, ONE, 0, ONE));
    assert!(!Camera::can_build(&from, &at, &V3::new(-3, -6, 0), ONE, ONE, 0, ONE));
    assert!(Camera::can_build(&from, &at, &V3::new(ONE, 2 * ONE, 1), ONE, ONE, 0, ONE));
    let far = V3::new(1000 * ONE, 1, 0);
    assert!(Camera::can_build(&far, &at, &V3::new(ONE, 0, 0), ONE, ONE, 0, ONE));
    assert!(!Camera::can_build(&far, &at, &V3::new(2000 * ONE, 2, 0), ONE, ONE, 0, ONE));
}

#[test]
fn the_largest_inputs_are_taken() {
    let from = V3::new(i32::MAX, i32::MIN, 0);
    let at = V3::new(i32::MIN, i32::MAX, 5);
    let up = V3::new(0, 0, i32::MAX);
    assert!(Camera::can_build(&from, &at, &up, i32::MAX, i32::MAX, i32::MAX, i32::MAX));
    let cam = Camera::new(&from, &at, &up, i32::MAX, i32::MAX, i32::MAX, i32::MAX);
    assert_eq!(cam.u(), Wide3::new(759250124, 759250124, 0));
    assert_eq!(cam.v(), Wide3::new(0, 0, 1073741821));
    assert_eq!(
        cam.lower_left_corner(),
        Wide3::new(-27354868555452322730902136, -27354868576557503462280288, -1180591616319364795647)
    );
    assert_eq!(
        cam.horizontal(),
        Wide3::new(54709737132009826176405209, 54709737132009826176405209, 0)
    );
    assert_eq!(cam.vertical(), Wide3::new(0, 0, 2361183232638729591295));
    let p = DiskPoint::new(8388607, 0).unwrap();
    let ray = cam.get_ray_at(i32::MIN, i32::MAX, &p);
    assert_eq!(ray.origin, Wide3::new(48766898806129647, -23290695215021073, 0));
    assert_eq!(
        ray.direction,
        Wide3::new(
            -1792756021210302203369982920295,
            -1792756021210251250956693147727,
            77370071539460774998012672
        )
    );
}

#[test]
fn a_camera_can_be_shared_and_copied() {
    let cam = level_camera(ONE);
    let copy = cam;
    let p = DiskPoint::new(1000, -2000).unwrap();
    assert_eq!(cam.get_ray_at(100, 200, &p), copy.get_ray_at(100, 200, &p));
}
