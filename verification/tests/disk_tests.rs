use lens_camera::disk::{random_in_unit_disk, DiskPoint, DISK_ONE, MAX_ATTEMPTS};
use rand::rngs::StdRng;
use rand::{Rng, SeedableRng};

fn squared_length(p: &DiskPoint) -> i64 {
    let x = p.x() as i64;
    let y = p.y() as i64;
    x * x + y * y
}

#[test]
fn disk_constants() {
    assert_eq!(DISK_ONE, 1 << 23);
    assert_eq!(MAX_ATTEMPTS, 1_000_000);
}

#[test]
fn the_centre_is_in_the_disk() {
    let p = DiskPoint::new(0, 0).unwrap();
    assert_eq!(p.x(), 0);
    assert_eq!(p.y(), 0);
}

#[test]
fn the_named_centre_is_the_origin() {
    let p = DiskPoint::centre();
    assert_eq!((p.x(), p.y()), (0, 0));
    assert_eq!(Some(p), DiskPoint::new(0, 0));
}

#[test]
fn the_rim_is_not_in_the_disk() {
    assert!(DiskPoint::new(8388608, 0).is_none());
    assert!(DiskPoint::new(-8388608, 0).is_none());
    assert!(DiskPoint::new(0, 8388608).is_none());
    assert!(DiskPoint::new(0, -8388608).is_none());
    assert!(DiskPoint::new(8388607, 0).is_some());
    assert!(DiskPoint::new(0, -8388607).is_some());
}

#[test]
fn the_diagonal_ends_at_the_circle() {
    let p = DiskPoint::new(5931641, 5931641).unwrap();
    assert_eq!((p.x(), p.y()), (5931641, 5931641));
    assert!(DiskPoint::new(5931642, 5931642).is_none());
    assert!(DiskPoint::new(-5931641, 5931641).is_some());
    assert!(DiskPoint::new(-5931642, -5931642).is_none());
}

#[test]
fn far_points_are_rejected_without_overflow() {
    assert!(DiskPoint::new(i32::MIN, i32::MIN).is_none());
    assert!(DiskPoint::new(i32::MAX, i32::MAX).is_none());
    assert!(DiskPoint::new(i32::MIN, 0).is_none());
}

#[test]
fn half_of_the_range_is_the_centre() {
    let p = DiskPoint::from_bits(0x8000_0000, 0x8000_0000).unwrap();
    assert_eq!((p.x(), p.y()), (0, 0));
}

#[test]
fn the_low_eight_bits_are_dropped() {
    let p = DiskPoint::from_bits(0x8000_00ff, 0x8000_0001).unwrap();
    assert_eq!((p.x(), p.y()), (0, 0));
    let q = DiskPoint::from_bits(0x8000_0100, 0x7fff_ffff).unwrap();
    assert_eq!((q.x(), q.y()), (1, -1));
}

#[test]
fn the_ends_of_the_range() {
    let p = DiskPoint::from_bits(0xffff_ffff, 0x8000_0000).unwrap();
    assert_eq!((p.x(), p.y()), (8388607, 0));
    assert!(DiskPoint::from_bits(0, 0x8000_0000).is_none());
    let q = DiskPoint::from_bits(0x0000_0100, 0x8000_0000).unwrap();
    assert_eq!((q.x(), q.y()), (-8388607, 0));
    assert!(DiskPoint::from_bits(0, 0).is_none());
    assert!(DiskPoint::from_bits(0xffff_ffff, 0xffff_ffff).is_none());
    assert!(DiskPoint::from_bits(0xffff_ffff, 0).is_none());
}

#[test]
fn candidates_are_twice_the_unit_fraction_less_one() {
    let draws: [u32; 8] =
        [0x8000_0000, 0x1234_5678, 0x9abc_def0, 0x4000_0000, 0xc000_0000, 0x6fff_ffff, 0xa000_0001, 0x5555_5555];
    for &xb in draws.iter() {
        for &yb in draws.iter() {
            let fx = 2.0f32 * ((xb >> 8) as f32 / 16777216.0) - 1.0;
            let fy = 2.0f32 * ((yb >> 8) as f32 / 16777216.0) - 1.0;
            let inside = (fx as f64) * (fx as f64) + (fy as f64) * (fy as f64) < 1.0;
            match DiskPoint::from_bits(xb, yb) {
                Some(p) => {
                    assert!(inside);
                    assert_eq!(p.x() as f32 / 8388608.0, fx);
                    assert_eq!(p.y() as f32 / 8388608.0, fy);
                }
                None => assert!(!inside),
            }
        }
    }
}

#[test]
fn sampled_points_lie_inside_the_unit_disk() {
    let mut rng = StdRng::seed_from_u64(7);
    for _ in 0..20000 {
        let p = random_in_unit_disk(&mut rng).unwrap();
        assert!(squared_length(&p) < 1 << 46);
        assert!(p.x() > -DISK_ONE && p.x() < DISK_ONE);
        assert!(p.y() > -DISK_ONE && p.y() < DISK_ONE);
    }
}

#[test]
fn the_sampler_returns_the_first_candidate_inside_the_disk() {
    for seed in 0..200u64 {
        let mut rng = StdRng::seed_from_u64(seed);
        let mut mirror = StdRng::seed_from_u64(seed);
        for _ in 0..20 {
            let got = random_in_unit_disk(&mut rng).unwrap();
            let expected = loop {
                let xb = mirror.gen::<u32>();
                let yb = mirror.gen::<u32>();
                if let Some(p) = DiskPoint::from_bits(xb, yb) {
                    break p;
                }
            };
            assert_eq!(got, expected);
        }
        assert_eq!(rng.gen::<u32>(), mirror.gen::<u32>());
    }
}

#[test]
fn the_sampler_follows_the_unit_interval_floats_of_the_generator() {
    let mut rng = StdRng::seed_from_u64(2024);
    let mut floats = StdRng::seed_from_u64(2024);
    for _ in 0..200 {
        let got = random_in_unit_disk(&mut rng).unwrap();
        let (fx, fy) = loop {
            let x = 2.0f32 * floats.gen::<f32>() - 1.0;
            let y = 2.0f32 * floats.gen::<f32>() - 1.0;
            if (x as f64) * (x as f64) + (y as f64) * (y as f64) < 1.0 {
                break (x, y);
            }
        };
        assert_eq!(got.x() as f32 / 8388608.0, fx);
        assert_eq!(got.y() as f32 / 8388608.0, fy);
    }
}

#[test]
fn the_sampler_is_reproducible_from_a_seed() {
    let mut a = StdRng::seed_from_u64(99);
    let mut b = StdRng::seed_from_u64(99);
    let mut c = StdRng::seed_from_u64(100);
    let mut differs = false;
    for _ in 0..100 {
        let pa = random_in_unit_disk(&mut a).unwrap();
        let pb = random_in_unit_disk(&mut b).unwrap();
        let pc = random_in_unit_disk(&mut c).unwrap();
        assert_eq!(pa, pb);
        differs = differs || pa != pc;
    }
    assert!(differs);
}

#[test]
fn the_sampler_accepts_about_pi_over_four_of_its_candidates() {
    let mut rng = StdRng::seed_from_u64(5);
    let mut accepted = 0u32;
    let total = 40000u32;
    for _ in 0..total {
        let xb = rng.gen::<u32>();
        let yb = rng.gen::<u32>();
        if DiskPoint::from_bits(xb, yb).is_some() {
            accepted += 1;
        }
    }
    let share = accepted as f64 / total as f64;
    assert!(share > 0.77 && share < 0.80);
}

#[test]
fn sampled_points_cover_all_four_quadrants() {
    let mut rng = StdRng::seed_from_u64(11);
    let mut seen = [false; 4];
    for _ in 0..200 {
        let p = random_in_unit_disk(&mut rng).unwrap();
        let q = (if p.x() >= 0 { 1 } else { 0 }) + (if p.y() >= 0 { 2 } else { 0 });
        seen[q] = true;
    }
    assert_eq!(seen, [true; 4]);
}
