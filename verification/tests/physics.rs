use black_sheep::collision::{brute_force_collison, prevent_out_of_bound, sweep_and_prune};
use black_sheep::fixed::{isqrt_u64, mul_div, SCALE};
use black_sheep::vec2::Vec2;

fn w(v: i64) -> i64 {
    v * SCALE
}

#[test]
fn isqrt_exact_values() {
    assert_eq!(isqrt_u64(0), 0);
    assert_eq!(isqrt_u64(1), 1);
    assert_eq!(isqrt_u64(3), 1);
    assert_eq!(isqrt_u64(4), 2);
    assert_eq!(isqrt_u64(99), 9);
    assert_eq!(isqrt_u64(100), 10);
    assert_eq!(isqrt_u64(u64::MAX), 4294967295);
}

#[test]
fn mul_div_rounds_toward_zero() {
    assert_eq!(mul_div(7, 1, 2), 3);
    assert_eq!(mul_div(-7, 1, 2), -3);
    assert_eq!(mul_div(-1, 65536, 65536), -1);
    assert_eq!(mul_div(5, -3, 4), -3);
}

#[test]
fn boundary_example_flips_x_only() {
    // position (5, 5), radius 2, direction (-10, 0), bound (100, 100):
    // the predicted x interval leaves the box on the left, so only
    // direction.x flips.
    let positions = vec![Vec2 { x: w(5), y: w(5) }];
    let mut dirs = vec![Vec2 { x: w(-10), y: 0 }];
    let rads = vec![w(2)];
    prevent_out_of_bound(&positions, &mut dirs, &rads, Vec2 { x: w(100), y: w(100) });
    assert_eq!(dirs[0].x, w(10));
    assert_eq!(dirs[0].y, 0);
}

#[test]
fn boundary_leaves_inner_circle_alone() {
    let positions = vec![Vec2 { x: w(50), y: w(50) }];
    let mut dirs = vec![Vec2 { x: w(1), y: w(-1) }];
    let rads = vec![w(2)];
    prevent_out_of_bound(&positions, &mut dirs, &rads, Vec2 { x: w(100), y: w(100) });
    assert_eq!(dirs[0].x, w(1));
    assert_eq!(dirs[0].y, w(-1));
}

#[test]
fn head_on_reflection_reverses_and_preserves_speed() {
    // Two circles moving head-on along X: the contact normal is the X axis,
    // so each displacement flips exactly and speed is preserved exactly.
    let positions = vec![Vec2 { x: 0, y: 0 }, Vec2 { x: w(3), y: 0 }];
    let mut dirs = vec![Vec2 { x: w(1), y: 0 }, Vec2 { x: w(-1), y: 0 }];
    let rads = vec![w(2), w(2)];
    brute_force_collison(&positions, &mut dirs, &rads);
    assert_eq!(dirs[0].x, w(-1));
    assert_eq!(dirs[0].y, 0);
    assert_eq!(dirs[1].x, w(1));
    assert_eq!(dirs[1].y, 0);
}

#[test]
fn oblique_reflection_preserves_speed_within_tolerance() {
    let positions = vec![Vec2 { x: 0, y: 0 }, Vec2 { x: w(2), y: w(1) }];
    let mut dirs = vec![Vec2 { x: w(1), y: w(1) }, Vec2 { x: w(-1), y: 0 }];
    let rads = vec![w(2), w(2)];
    let before: Vec<f64> = dirs
        .iter()
        .map(|d| ((d.x as f64).powi(2) + (d.y as f64).powi(2)).sqrt() / SCALE as f64)
        .collect();
    brute_force_collison(&positions, &mut dirs, &rads);
    let after: Vec<f64> = dirs
        .iter()
        .map(|d| ((d.x as f64).powi(2) + (d.y as f64).powi(2)).sqrt() / SCALE as f64)
        .collect();
    for (b, a) in before.iter().zip(after.iter()) {
        assert!((b - a).abs() < 1e-3, "speed changed: {} -> {}", b, a);
    }
}

#[test]
fn sweep_and_prune_matches_brute_force() {
    // Distinct pairwise distances; the overlapping pairs overlap their
    // sweep intervals partially (the bracket sweep drops an interval that
    // lies wholly inside another, a documented quirk it preserves).
    let positions = vec![
        Vec2 { x: 0, y: 0 },
        Vec2 { x: w(3), y: 0 },
        Vec2 { x: w(20), y: w(20) },
        Vec2 { x: w(22), y: w(21) },
        Vec2 { x: w(-40), y: w(7) },
    ];
    let dirs0 = vec![
        Vec2 { x: w(1), y: 0 },
        Vec2 { x: w(-1), y: w(1) },
        Vec2 { x: w(1), y: 0 },
        Vec2 { x: 0, y: w(-1) },
        Vec2 { x: 0, y: 0 },
    ];
    let rads = vec![w(2), w(2), w(3), w(3), w(1)];
    let mut a = dirs0.clone();
    let mut b = dirs0.clone();
    sweep_and_prune(&positions, &mut a, &rads);
    brute_force_collison(&positions, &mut b, &rads);
    assert_ne!(a, dirs0, "no collision happened at all");
    for i in 0..a.len() {
        assert_eq!(a[i], b[i], "direction {} differs", i);
    }
}

#[test]
fn collision_empty_and_singleton_produce_no_pairs() {
    let positions: Vec<Vec2> = vec![];
    let mut dirs: Vec<Vec2> = vec![];
    let rads: Vec<i64> = vec![];
    sweep_and_prune(&positions, &mut dirs, &rads);
    assert!(dirs.is_empty());

    let positions = vec![Vec2 { x: w(1), y: w(1) }];
    let mut dirs = vec![Vec2 { x: w(5), y: 0 }];
    let rads = vec![w(1)];
    sweep_and_prune(&positions, &mut dirs, &rads);
    assert_eq!(dirs[0], Vec2 { x: w(5), y: 0 });
}

#[test]
fn zero_radius_circles_never_collide_apart() {
    let positions = vec![Vec2 { x: 0, y: 0 }, Vec2 { x: w(1), y: 0 }];
    let mut dirs = vec![Vec2 { x: w(1), y: 0 }, Vec2 { x: w(-1), y: 0 }];
    let rads = vec![0, 0];
    brute_force_collison(&positions, &mut dirs, &rads);
    assert_eq!(dirs[0], Vec2 { x: w(1), y: 0 });
    assert_eq!(dirs[1], Vec2 { x: w(-1), y: 0 });
}

#[test]
fn coincident_pair_is_skipped() {
    // A coincident predicted pair has no contact normal; the policy skips it.
    let positions = vec![Vec2 { x: 0, y: 0 }, Vec2 { x: 0, y: 0 }];
    let mut dirs = vec![Vec2 { x: w(1), y: 0 }, Vec2 { x: w(1), y: 0 }];
    let rads = vec![w(1), w(1)];
    brute_force_collison(&positions, &mut dirs, &rads);
    assert_eq!(dirs[0], Vec2 { x: w(1), y: 0 });
    assert_eq!(dirs[1], Vec2 { x: w(1), y: 0 });
}
