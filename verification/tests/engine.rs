//! End-to-end tests of the force field, the integrator and the simulation
//! loop, on concrete fixed-point values (SCALE = 1_000_000 units per metre).

use nbody::body::Body;
use nbody::force::update_accelerations;
use nbody::integrate::{leapfrog_integrator, step_once};
use nbody::sim::Simulation;
use nbody::vec3::Vec3;

const SCALE_F: f64 = 1.0e6;
const G: f64 = 6.6743e-11;
const EARTH_MASS: u128 = 5_972_000_000_000_000_000_000_000; // 5.972e24 kg
const MOON_MASS: u128 = 73_480_000_000_000_000_000_000; // 7.348e22 kg
const EARTH_MOON_DIST: i128 = 384_400_000_000_000; // 3.844e8 m
const SOFTENING: i128 = 1_000_000_000; // 1e3 m
const DT_100S: i128 = 100_000_000; // 100 s

fn v3(x: i128, y: i128, z: i128) -> Vec3 {
    Vec3 { x, y, z }
}

#[test]
fn single_body_zero_acceleration() {
    let mut bodies = vec![Body::new(EARTH_MASS, v3(7, -9, 4), v3(1, 2, 3))];
    update_accelerations(&mut bodies, SOFTENING);
    assert_eq!(bodies[0].acceleration, v3(0, 0, 0));
    assert_eq!(bodies[0].position, v3(7, -9, 4));
    assert_eq!(bodies[0].velocity, v3(1, 2, 3));
}

#[test]
fn empty_body_set_is_a_noop() {
    let mut bodies: Vec<Body> = Vec::new();
    update_accelerations(&mut bodies, SOFTENING);
    assert!(bodies.is_empty());
}

#[test]
fn two_body_equal_mass_symmetry() {
    // Equal masses at unrelated positions: Newton's third law makes the two
    // accelerations exact negations of each other, component by component.
    let mut bodies = vec![
        Body::new(EARTH_MASS, v3(123_456_789, -987_654_321, 55_555), v3(0, 0, 0)),
        Body::new(EARTH_MASS, v3(-777_000_111, 222_000_333, -44_444_555), v3(0, 0, 0)),
    ];
    update_accelerations(&mut bodies, SOFTENING);
    let a0 = bodies[0].acceleration;
    let a1 = bodies[1].acceleration;
    assert_eq!(a0.x, -a1.x);
    assert_eq!(a0.y, -a1.y);
    assert_eq!(a0.z, -a1.z);
    assert!(a0.x != 0 || a0.y != 0 || a0.z != 0);
}

#[test]
fn earth_moon_scenario() {
    // Earth at the origin, Moon 3.844e8 m away along +x, zero velocities.
    let mut bodies = vec![
        Body::new(EARTH_MASS, v3(0, 0, 0), v3(0, 0, 0)),
        Body::new(MOON_MASS, v3(EARTH_MOON_DIST, 0, 0), v3(0, 0, 0)),
    ];
    update_accelerations(&mut bodies, SOFTENING);
    let a0 = bodies[0].acceleration;
    let a1 = bodies[1].acceleration;
    // Earth accelerates toward the Moon (+x), the Moon toward the Earth (-x).
    assert_eq!(a0, v3(33, 0, 0));
    assert_eq!(a1, v3(-2697, 0, 0));
    // Magnitudes match G*m/d^2 up to fixed-point quantisation.
    let d = EARTH_MOON_DIST as f64 / SCALE_F;
    let exp0 = G * (MOON_MASS as f64) / (d * d);
    let exp1 = G * (EARTH_MASS as f64) / (d * d);
    let got0 = a0.x as f64 / SCALE_F;
    let got1 = -a1.x as f64 / SCALE_F;
    assert!((got0 - exp0).abs() / exp0 < 0.05);
    assert!((got1 - exp1).abs() / exp1 < 0.005);
    // The acceleration magnitudes differ by the mass ratio (equal forces).
    let ratio = (EARTH_MASS as f64) / (MOON_MASS as f64);
    assert!((got1 / got0 - ratio).abs() / ratio < 0.05);
}

#[test]
fn softening_keeps_close_encounters_finite() {
    // Two bodies a millimetre apart with a kilometre of softening: the
    // magnitude is bounded by G*m/eps^2 instead of diverging.
    let mut bodies = vec![
        Body::new(EARTH_MASS, v3(0, 0, 0), v3(0, 0, 0)),
        Body::new(EARTH_MASS, v3(1_000, 0, 0), v3(0, 0, 0)),
    ];
    update_accelerations(&mut bodies, SOFTENING);
    let bound = G * (EARTH_MASS as f64) / 1.0e6; // G*m/eps^2, eps = 1e3 m
    let got = (bodies[0].acceleration.x.unsigned_abs() as f64) / SCALE_F;
    assert!(got <= bound);
    assert!(got >= bound * 0.9);
}

#[test]
fn coincident_bodies_are_skipped() {
    // The skip is keyed off exact position equality: two distinct bodies at
    // the same point exert nothing on each other.
    let mut bodies = vec![
        Body::new(EARTH_MASS, v3(5, 5, 5), v3(0, 0, 0)),
        Body::new(MOON_MASS, v3(5, 5, 5), v3(0, 0, 0)),
    ];
    update_accelerations(&mut bodies, SOFTENING);
    assert_eq!(bodies[0].acceleration, v3(0, 0, 0));
    assert_eq!(bodies[1].acceleration, v3(0, 0, 0));
}

#[test]
fn update_overwrites_stale_acceleration() {
    let mut b = Body::new(EARTH_MASS, v3(0, 0, 0), v3(9, 9, 9));
    b.acceleration = v3(123, 456, 789);
    let mut bodies = vec![b];
    update_accelerations(&mut bodies, SOFTENING);
    assert_eq!(bodies[0].acceleration, v3(0, 0, 0));
    assert_eq!(bodies[0].velocity, v3(9, 9, 9));
}

#[test]
fn leapfrog_kick_and_drift_are_exact() {
    // One half-kick and one drift with easy numbers:
    //   dv = a * dt / (2 * SCALE) = 1e6 * 2e6 / 2e6 = 1e6
    //   dp = v * dt / SCALE       = 3e6 * 2e6 / 1e6 = 6e6
    let mut b = Body::new(1, v3(10, 0, 0), v3(2_000_000, 0, 0));
    b.acceleration = v3(1_000_000, 0, 0);
    let mut bodies = vec![b];
    leapfrog_integrator(&mut bodies, 2_000_000);
    assert_eq!(bodies[0].velocity, v3(3_000_000, 0, 0));
    assert_eq!(bodies[0].position, v3(6_000_010, 0, 0));
    assert_eq!(bodies[0].acceleration, v3(1_000_000, 0, 0));
    assert_eq!(bodies[0].mass, 1);
}

#[test]
fn zero_dt_step_changes_nothing_but_refreshes() {
    let mut bodies = vec![
        Body::new(EARTH_MASS, v3(0, 0, 0), v3(1, 2, 3)),
        Body::new(MOON_MASS, v3(EARTH_MOON_DIST, 0, 0), v3(4, 5, 6)),
    ];
    let mut expected = bodies.clone();
    update_accelerations(&mut expected, SOFTENING);
    step_once(&mut bodies, 0, SOFTENING);
    assert_eq!(bodies, expected);
}

#[test]
fn step_leaves_accelerations_consistent() {
    let mut bodies = vec![
        Body::new(EARTH_MASS, v3(0, 0, 0), v3(0, 1_000_000_000, 0)),
        Body::new(MOON_MASS, v3(EARTH_MOON_DIST, 0, 0), v3(0, -1_000_000_000, 0)),
    ];
    update_accelerations(&mut bodies, SOFTENING);
    step_once(&mut bodies, DT_100S, SOFTENING);
    let mut refreshed = bodies.clone();
    update_accelerations(&mut refreshed, SOFTENING);
    assert_eq!(bodies, refreshed);
}

#[test]
fn time_reversal_returns_the_exact_initial_state() {
    // Forward N steps, then N steps with dt negated: truncation toward zero
    // is symmetric, so the round trip is bit-exact, not just approximate.
    let mut bodies = vec![
        Body::new(EARTH_MASS, v3(0, 0, 0), v3(0, 12_345_678, 0)),
        Body::new(MOON_MASS, v3(EARTH_MOON_DIST, 0, 0), v3(0, -970_000_000_000, 5_000_000)),
    ];
    update_accelerations(&mut bodies, SOFTENING);
    let initial = bodies.clone();
    for _ in 0..25 {
        step_once(&mut bodies, DT_100S, SOFTENING);
    }
    assert_ne!(bodies, initial);
    for _ in 0..25 {
        step_once(&mut bodies, -DT_100S, SOFTENING);
    }
    assert_eq!(bodies, initial);
}

#[test]
fn repeated_runs_are_deterministic() {
    let make = || {
        vec![
            Body::new(EARTH_MASS, v3(-192_200_000_000_000, 0, 0), v3(0, 720_039_089, 0)),
            Body::new(EARTH_MASS, v3(192_200_000_000_000, 0, 0), v3(0, -720_039_089, 0)),
        ]
    };
    let mut sim_a = Simulation::new(make(), SOFTENING, DT_100S);
    let mut sim_b = Simulation::new(make(), SOFTENING, DT_100S);
    sim_a.run(50);
    sim_b.run(50);
    assert_eq!(sim_a.bodies(), sim_b.bodies());
    assert_eq!(sim_a.snapshot(), sim_b.snapshot());
}

fn total_energy(bodies: &[Body]) -> f64 {
    let mut kinetic = 0.0;
    for b in bodies {
        let vx = b.velocity.x as f64 / SCALE_F;
        let vy = b.velocity.y as f64 / SCALE_F;
        let vz = b.velocity.z as f64 / SCALE_F;
        kinetic += 0.5 * (b.mass as f64) * (vx * vx + vy * vy + vz * vz);
    }
    let mut potential = 0.0;
    for i in 0..bodies.len() {
        for j in (i + 1)..bodies.len() {
            let dx = (bodies[j].position.x - bodies[i].position.x) as f64 / SCALE_F;
            let dy = (bodies[j].position.y - bodies[i].position.y) as f64 / SCALE_F;
            let dz = (bodies[j].position.z - bodies[i].position.z) as f64 / SCALE_F;
            let d = (dx * dx + dy * dy + dz * dz).sqrt();
            potential -= G * (bodies[i].mass as f64) * (bodies[j].mass as f64) / d;
        }
    }
    kinetic + potential
}

#[test]
fn circular_orbit_energy_drift_stays_small() {
    // Two equal masses on a circular orbit about their barycentre,
    // integrated for 2000 steps of 100 s: total mechanical energy drifts by
    // far less than 1% — the signature of correct kick-drift-kick ordering.
    let bodies = vec![
        Body::new(EARTH_MASS, v3(-192_200_000_000_000, 0, 0), v3(0, 720_039_089, 0)),
        Body::new(EARTH_MASS, v3(192_200_000_000_000, 0, 0), v3(0, -720_039_089, 0)),
    ];
    let mut sim = Simulation::new(bodies, SOFTENING, DT_100S);
    let e0 = total_energy(sim.bodies());
    sim.run(2000);
    let e1 = total_energy(sim.bodies());
    assert!(e0 < 0.0);
    assert!(((e1 - e0) / e0).abs() < 0.01);
    // The orbit also stays an orbit: the separation keeps its scale.
    let b = sim.bodies();
    let dx = (b[1].position.x - b[0].position.x) as f64 / SCALE_F;
    let dy = (b[1].position.y - b[0].position.y) as f64 / SCALE_F;
    let d = (dx * dx + dy * dy).sqrt();
    assert!((d - 3.844e8).abs() / 3.844e8 < 0.05);
}

#[test]
fn snapshot_reports_mass_position_velocity() {
    let bodies = vec![
        Body::new(EARTH_MASS, v3(0, 0, 0), v3(1, 2, 3)),
        Body::new(MOON_MASS, v3(EARTH_MOON_DIST, 0, 0), v3(-4, -5, -6)),
    ];
    let sim = Simulation::new(bodies, SOFTENING, DT_100S);
    assert_eq!(sim.num_bodies(), 2);
    let snap = sim.snapshot();
    assert_eq!(snap.len(), 2);
    assert_eq!(snap[0], (EARTH_MASS, v3(0, 0, 0), v3(1, 2, 3)));
    assert_eq!(snap[1], (MOON_MASS, v3(EARTH_MOON_DIST, 0, 0), v3(-4, -5, -6)));
}

#[test]
fn body_new_starts_with_zero_acceleration() {
    let b = Body::new(42, v3(1, 2, 3), v3(4, 5, 6));
    assert_eq!(b.mass, 42);
    assert_eq!(b.position, v3(1, 2, 3));
    assert_eq!(b.velocity, v3(4, 5, 6));
    assert_eq!(b.acceleration, v3(0, 0, 0));
}

#[test]
fn unequal_masses_pull_opposite_ways() {
    // With different masses the accelerations are no longer negations, but
    // coordinate by coordinate they still point opposite ways, and their
    // magnitudes differ by the mass ratio.
    let mut bodies = vec![
        Body::new(EARTH_MASS, v3(11_111, -22_222, 33_333), v3(0, 0, 0)),
        Body::new(MOON_MASS, v3(-44_444_444, 55_555_555, -66_666_666), v3(0, 0, 0)),
    ];
    update_accelerations(&mut bodies, 0);
    let a0 = bodies[0].acceleration;
    let a1 = bodies[1].acceleration;
    assert!(a0.x * a1.x <= 0 && a0.y * a1.y <= 0 && a0.z * a1.z <= 0);
    assert!(a0.x != 0 && a1.x != 0);
    let mag = |a: Vec3| ((a.x * a.x + a.y * a.y + a.z * a.z) as f64).sqrt();
    let ratio = mag(a1) / mag(a0);
    let expected = (EARTH_MASS as f64) / (MOON_MASS as f64);
    assert!((ratio - expected).abs() / expected < 0.01);
}
