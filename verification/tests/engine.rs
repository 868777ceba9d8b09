use gravity::math::{DT_BOUND, G_SCALED, MASS_BOUND, SCALE};
use gravity::{Planet, System};

fn two_body_line() -> System {
    // Two unit masses at rest on the x axis, at 0.0 and 2.0: far enough
    // apart that the softening threshold does not apply.
    let mut s = System::new();
    s.add_planet(0, 0, 0, 0, SCALE, 1);
    s.add_planet(2 * SCALE, 0, 0, 0, SCALE, 1);
    s
}

#[test]
fn force_formula_exact_value() {
    // d = 2.0, so d2 = 4e12 raw and q = (1e6 * G_SCALED) / 4e12 = 166857.
    // The axis factor dx/d is 1, dt is 1.0, so the velocity gains exactly
    // 166857 raw units and the position follows the new velocity.
    let mut s = two_body_line();
    s.apply_physics(SCALE);
    let ps = s.planets();
    assert_eq!(ps[0].x_vel, 166_857);
    assert_eq!(ps[0].x_pos, 166_857);
    assert_eq!(ps[0].y_vel, 0);
    assert_eq!(ps[0].y_pos, 0);
}

#[test]
fn accelerations_mirror_for_equal_masses() {
    let mut s = two_body_line();
    s.apply_physics(SCALE);
    let ps = s.planets();
    // Equal masses: equal magnitude, opposite direction.
    assert_eq!(ps[0].x_vel, -ps[1].x_vel);
    assert_eq!(ps[0].x_pos - 0, -(ps[1].x_pos - 2 * SCALE));
    assert_eq!(ps[0].y_vel, 0);
    assert_eq!(ps[1].y_vel, 0);
}

#[test]
fn acceleration_scales_with_other_mass_only() {
    // Doubling b's mass doubles a's pull (up to rounding) and leaves the
    // formula for b's own acceleration alone.
    // Distance exactly 1.0: q is (m * G_SCALED) / SCALE^2, whose floor
    // doubles exactly when m doubles here.
    let mut light = System::new();
    light.add_planet(0, 0, 0, 0, SCALE, 1);
    light.add_planet(SCALE, 0, 0, 0, SCALE, 1);
    let mut heavy = System::new();
    heavy.add_planet(0, 0, 0, 0, SCALE, 1);
    heavy.add_planet(SCALE, 0, 0, 0, 2 * SCALE, 1);
    light.apply_physics(SCALE);
    heavy.apply_physics(SCALE);
    // a's pull comes from b's mass alone.
    assert_eq!(heavy.planets()[0].x_vel, 2 * light.planets()[0].x_vel);
    // b's pull comes from a's mass, unchanged between the two scenarios.
    assert_eq!(heavy.planets()[1].x_vel, light.planets()[1].x_vel);
}

#[test]
fn softening_zeroes_close_pairs() {
    // d = 0.999999 < 1.0: the pair is skipped entirely, even at the
    // largest admissible masses.
    let mut s = System::new();
    s.add_planet(0, 0, 0, 0, MASS_BOUND, 1);
    s.add_planet(SCALE - 1, 0, 0, 0, MASS_BOUND, 1);
    for _ in 0..5 {
        s.apply_physics(SCALE);
    }
    let ps = s.planets();
    assert_eq!(ps[0].x_pos, 0);
    assert_eq!(ps[0].x_vel, 0);
    assert_eq!(ps[1].x_pos, SCALE - 1);
    assert_eq!(ps[1].x_vel, 0);
}

#[test]
fn single_body_keeps_velocity() {
    let mut s = System::new();
    s.add_planet(10 * SCALE, -3 * SCALE, 5_000, -7_000, SCALE, 2);
    for _ in 0..10 {
        s.apply_physics(SCALE);
    }
    let p = s.planets()[0];
    assert_eq!(p.x_vel, 5_000);
    assert_eq!(p.y_vel, -7_000);
    // With dt = 1.0 the position moves by exactly the velocity each step.
    assert_eq!(p.x_pos, 10 * SCALE + 10 * 5_000);
    assert_eq!(p.y_pos, -3 * SCALE - 10 * 7_000);
}

#[test]
fn single_resting_body_is_fixed() {
    let mut s = System::new();
    s.add_planet(42, 43, 0, 0, MASS_BOUND, 9);
    for _ in 0..100 {
        s.apply_physics(DT_BOUND);
    }
    let p = s.planets()[0];
    assert_eq!((p.x_pos, p.y_pos, p.x_vel, p.y_vel), (42, 43, 0, 0));
}

#[test]
fn add_planet_keeps_order_and_fields() {
    let mut s = System::new();
    s.add_planet(1, 2, 3, 4, 5, 6);
    s.add_planet(7, 8, 9, 10, 11, 12);
    let ps = s.planets();
    assert_eq!(ps.len(), 2);
    let first = Planet::new(1, 2, 3, 4, 5, 6);
    assert!(ps[0] == first);
    assert_eq!(ps[1].x_pos, 7);
    assert_eq!(ps[1].mass, 11);
    assert_eq!(ps[1].radius, 12);
}

#[test]
fn readiness_checks() {
    let mut s = System::new();
    s.add_planet(0, 0, 0, 0, SCALE, 1);
    assert!(s.step_ready_now(SCALE));
    assert!(s.step_ready_now(0));
    assert!(!s.step_ready_now(-1));
    assert!(!s.step_ready_now(DT_BOUND + 1));
    assert!(s.forecast_ready(1000, SCALE));
}

#[test]
fn gravitational_constant_is_scaled_g() {
    // G_SCALED is 0.66743015 carried to SCALE * SCALE sub-units.
    assert_eq!(G_SCALED, 667_430_150_000);
    assert_eq!(SCALE, 1_000_000);
}
