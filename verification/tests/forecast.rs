use gravity::math::{MASS_BOUND, POS_BOUND, SCALE, VEL_BOUND};
use gravity::System;

fn orbit_scenario() -> System {
    // A heavy central body at the origin and a light orbiter at distance
    // 1000.0, given the transverse circular-orbit speed
    // v = sqrt(G * M / r) = sqrt(0.66743015 * 1e6 / 1e3) = 25.834669...
    let mut s = System::new();
    s.add_planet(0, 0, 0, 0, MASS_BOUND, 10);
    s.add_planet(1000 * SCALE, 0, 0, 25_834_669, SCALE, 2);
    s
}

#[test]
fn predict_does_not_mutate() {
    let mut s = orbit_scenario();
    s.apply_physics(10_000);
    let before: Vec<(i64, i64, i64, i64, i64, i64)> = s
        .planets()
        .iter()
        .map(|p| (p.x_pos, p.y_pos, p.x_vel, p.y_vel, p.mass, p.radius))
        .collect();
    let _ = s.predict_orbit(500, 10_000);
    let after: Vec<(i64, i64, i64, i64, i64, i64)> = s
        .planets()
        .iter()
        .map(|p| (p.x_pos, p.y_pos, p.x_vel, p.y_vel, p.mass, p.radius))
        .collect();
    assert_eq!(before, after);
}

#[test]
fn predict_path_lengths_and_order() {
    let s = orbit_scenario();
    let steps = 250;
    let dt = 10_000;
    assert!(s.forecast_ready(steps, dt));
    let paths = s.predict_orbit(steps, dt);
    assert_eq!(paths.len(), 2);
    for path in &paths {
        assert_eq!(path.len(), steps);
    }
    // Chronological order: the forecast must match stepping a copy of the
    // registry through the same physics, entry by entry.
    let mut replay = orbit_scenario();
    for k in 0..steps {
        replay.apply_physics(dt);
        for (i, p) in replay.planets().iter().enumerate() {
            assert_eq!(paths[i][k], (p.x_pos, p.y_pos));
        }
    }
}

#[test]
fn predict_is_deterministic() {
    let s1 = orbit_scenario();
    let s2 = orbit_scenario();
    let a = s1.predict_orbit(400, 10_000);
    let b = s2.predict_orbit(400, 10_000);
    let c = s1.predict_orbit(400, 10_000);
    assert_eq!(a, b);
    assert_eq!(a, c);
}

#[test]
fn circular_orbit_stays_bounded() {
    // One revolution is 2*pi*r/v = 243.2 time units; at dt = 0.01 that
    // is about 24320 steps.  The semi-implicit integrator should keep the
    // orbiter's distance from the centre coarsely bounded throughout.
    let mut s = orbit_scenario();
    let r0: f64 = 1000.0;
    let mut min_d = f64::MAX;
    let mut max_d = 0.0f64;
    for _ in 0..25_000 {
        s.apply_physics(10_000);
        let ps = s.planets();
        let dx = (ps[1].x_pos - ps[0].x_pos) as f64 / SCALE as f64;
        let dy = (ps[1].y_pos - ps[0].y_pos) as f64 / SCALE as f64;
        let d = (dx * dx + dy * dy).sqrt();
        if d < min_d {
            min_d = d;
        }
        if d > max_d {
            max_d = d;
        }
    }
    assert!(min_d > 0.7 * r0, "orbit collapsed: min distance {min_d}");
    assert!(max_d < 1.4 * r0, "orbit escaped: max distance {max_d}");
}

#[test]
fn forecast_ready_detects_range_escape() {
    // A body already at the position limit, racing outward at the
    // velocity limit: the first step is in range, the second is not.
    let mut s = System::new();
    s.add_planet(POS_BOUND, 0, VEL_BOUND, 0, SCALE, 1);
    assert!(s.forecast_ready(1, SCALE));
    assert!(!s.forecast_ready(2, SCALE));
}
