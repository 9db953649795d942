use black_sheep::fixed::SCALE;
use black_sheep::pendulum::{run_pendulum, PEND_REST, PEND_TRACK};
use black_sheep::settings::DT;
use black_sheep::softbody::Softbody;
use black_sheep::tetra::{harddeck, tetra_dist, vol_c, Tetrahedral};
use black_sheep::vec2::Vec2;
use black_sheep::vec3::Vec3;

fn w(v: i64) -> i64 {
    v * SCALE
}

fn fx(v: i64) -> f64 {
    v as f64 / SCALE as f64
}

#[test]
fn canonical_winding_gives_positive_volume_and_swap_flips_sign() {
    // Unit tetrahedron with positively oriented winding.
    let t = Tetrahedral {
        verts: [
            Vec3 { x: 0, y: 0, z: 0 },
            Vec3 { x: w(1), y: 0, z: 0 },
            Vec3 { x: 0, y: w(1), z: 0 },
            Vec3 { x: 0, y: 0, z: w(1) },
        ],
        rest_volume: 0,
        rest_edge: w(1),
    };
    let v = t.get_volume();
    assert!(v > 0);
    assert_eq!(v, 65536 / 6);

    // Swapping two vertices flips the sign exactly.
    let s = Tetrahedral {
        verts: [t.verts[0], t.verts[2], t.verts[1], t.verts[3]],
        rest_volume: 0,
        rest_edge: w(1),
    };
    assert_eq!(s.get_volume(), -v);
}

#[test]
fn harddeck_is_idempotent() {
    let mut t = Tetrahedral {
        verts: [
            Vec3 { x: w(1), y: w(-2), z: 0 },
            Vec3 { x: 0, y: w(3), z: w(1) },
            Vec3 { x: w(-1), y: w(-1), z: w(2) },
            Vec3 { x: 0, y: 0, z: 0 },
        ],
        rest_volume: 0,
        rest_edge: w(1),
    };
    harddeck(&mut t);
    let once = t.verts;
    harddeck(&mut t);
    assert_eq!(t.verts, once);
    assert_eq!(once[0].y, 0);
    assert_eq!(once[1].y, w(3));
    assert_eq!(once[2].y, 0);
}

#[test]
fn tetra_new_shape_and_rest_values() {
    let t = Tetrahedral::new(w(3));
    // x = sqrt(3) * 3, h = sqrt(3) * x, edge = 2 x, all within one
    // fixed-point step of the real values.
    let x = fx(t.verts[1].x);
    assert!((x - 3.0f64 * 3.0f64.sqrt()).abs() < 1e-3);
    assert!((fx(t.verts[3].y) - 3.0 * 3.0f64.sqrt() * 3.0f64.sqrt()).abs() < 2e-3);
    assert_eq!(t.rest_edge, 2 * t.verts[1].x);
    assert_eq!(t.rest_volume, {
        let u = t.clone();
        u.get_volume()
    });
}

#[test]
fn tetra_dist_moves_edges_toward_rest_length() {
    let mut t = Tetrahedral::new(w(3));
    // Stretch one vertex, then let the pairwise pass pull it back.
    t.verts[3] = Vec3 { x: t.verts[3].x, y: t.verts[3].y + w(2), z: t.verts[3].z };
    let dist_before = {
        let d = t.verts[3].sub(t.verts[0]);
        ((fx(d.x).powi(2) + fx(d.y).powi(2) + fx(d.z).powi(2)) as f64).sqrt()
    };
    let err_before = (dist_before - fx(t.rest_edge)).abs();
    for _ in 0..200 {
        tetra_dist(&mut t);
    }
    let dist_after = {
        let d = t.verts[3].sub(t.verts[0]);
        ((fx(d.x).powi(2) + fx(d.y).powi(2) + fx(d.z).powi(2)) as f64).sqrt()
    };
    let err_after = (dist_after - fx(t.rest_edge)).abs();
    assert!(err_after < err_before);
}

#[test]
fn vol_c_moves_volume_toward_rest() {
    let mut t = Tetrahedral::new(w(3));
    // Squash the tetrahedron, then let the volume constraint push back.
    t.verts[3] = Vec3 { x: t.verts[3].x, y: t.verts[3].y / 2, z: t.verts[3].z };
    let err_before = (t.get_volume() - t.rest_volume).abs();
    for _ in 0..50 {
        vol_c(&mut t);
    }
    let err_after = (t.get_volume() - t.rest_volume).abs();
    assert!(err_after < err_before);
}

fn two_particle_body(separation: i64, rest: i64) -> Softbody {
    Softbody {
        particles: vec![
            Vec3 { x: 0, y: w(10), z: 0 },
            Vec3 { x: separation, y: w(10), z: 0 },
        ],
        colors: vec![Vec3 { x: SCALE, y: 0, z: 0 }, Vec3 { x: SCALE, y: 0, z: 0 }],
        temp_particles: vec![Vec3 { x: 0, y: 0, z: 0 }, Vec3 { x: 0, y: 0, z: 0 }],
        vel_particles: vec![Vec3 { x: 0, y: 0, z: 0 }, Vec3 { x: 0, y: 0, z: 0 }],
        edges: vec![0, 1],
        a: rest,
    }
}

#[test]
fn distance_constraint_monotonically_reduces_violation() {
    // Two free particles on one axis, stretched past the rest length. Each
    // step the violation shrinks, down to the fixed-point rounding floor.
    let mut body = two_particle_body(w(5) / 2, w(2));
    let mut prev = (body.particles[1].x - body.particles[0].x - body.a).abs();
    for _ in 0..50 {
        body.simulate(SCALE);
        let cur = (body.particles[1].x - body.particles[0].x - body.a).abs();
        assert!(cur <= prev, "violation grew: {} -> {}", prev, cur);
        prev = cur;
    }
    // 1e-5 in real units is below one fixed-point step; the violation
    // settles within a couple of steps of zero instead.
    assert!(prev <= 2, "violation did not converge: {}", prev);
}

#[test]
fn simulate_is_deterministic() {
    let mut a = Softbody::build_tetragrid(w(1), 3);
    let mut b = Softbody::build_tetragrid(w(1), 3);
    for _ in 0..10 {
        a.simulate(DT);
        b.simulate(DT);
    }
    assert_eq!(a.particles.len(), b.particles.len());
    for i in 0..a.particles.len() {
        assert_eq!(a.particles[i], b.particles[i]);
        assert_eq!(a.vel_particles[i], b.vel_particles[i]);
    }
}

#[test]
fn tetragrid_connects_neighbours_and_respects_floor() {
    let mut body = Softbody::build_tetragrid(w(1), 3);
    assert_eq!(body.particles.len(), 27);
    assert!(body.edges.len() >= 2 && body.edges.len() % 2 == 0);
    for k in 0..body.edges.len() {
        assert!((body.edges[k] as usize) < body.particles.len());
    }
    for _ in 0..120 {
        body.simulate(DT);
    }
    for p in body.get_particle_slice() {
        assert!(p.y >= 0, "particle below the floor: {}", p.y);
    }
}

#[test]
fn pendulum_link_settles_near_rest_length_and_dissipates() {
    // Two-particle chain, gravity (0, -10), dt = 1/60 over 50 sub-steps.
    let mut xs = vec![
        Vec2 { x: PEND_TRACK, y: 0 },
        Vec2 { x: PEND_TRACK, y: -PEND_REST - w(1) / 4 },
    ];
    let mut pps = vec![Vec2 { x: 0, y: 0 }, Vec2 { x: 0, y: 0 }];
    let mut vs = vec![Vec2 { x: 0, y: 0 }, Vec2 { x: 0, y: 0 }];
    run_pendulum(&mut xs, &mut pps, &mut vs);
    let dx = fx(xs[1].x - xs[0].x);
    let dy = fx(xs[1].y - xs[0].y);
    let dist = (dx * dx + dy * dy).sqrt();
    assert!((dist - fx(PEND_REST)).abs() < 1e-3, "distance {}", dist);

    // Total energy (kinetic + potential, unit masses) never increases
    // across further outer ticks: the solver only dissipates.
    let energy = |xs: &Vec<Vec2>, vs: &Vec<Vec2>| -> f64 {
        let mut e = 0.0;
        for i in 0..xs.len() {
            let v2 = fx(vs[i].x).powi(2) + fx(vs[i].y).powi(2);
            e += 0.5 * v2 + 10.0 * fx(xs[i].y);
        }
        e
    };
    let mut prev = energy(&xs, &vs);
    for _ in 0..10 {
        run_pendulum(&mut xs, &mut pps, &mut vs);
        let cur = energy(&xs, &vs);
        assert!(cur <= prev + 0.01, "energy grew: {} -> {}", prev, cur);
        prev = cur;
    }
}

#[test]
fn pendulum_first_particle_rides_the_track() {
    let mut xs = vec![Vec2 { x: w(1), y: w(-2) }, Vec2 { x: w(1), y: w(-4) }];
    let mut pps = vec![Vec2 { x: 0, y: 0 }, Vec2 { x: 0, y: 0 }];
    let mut vs = vec![Vec2 { x: 0, y: 0 }, Vec2 { x: 0, y: 0 }];
    run_pendulum(&mut xs, &mut pps, &mut vs);
    let r = (fx(xs[0].x).powi(2) + fx(xs[0].y).powi(2)).sqrt();
    assert!((r - 3.0).abs() < 1e-3, "track radius {}", r);
}
