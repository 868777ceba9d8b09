//! The softened inverse-square force law and the semi-implicit Euler
//! integration step, as exact functions of the scaled integer state.

use vstd::prelude::*;
use vstd::arithmetic::div_mod::{lemma_div_by_multiple, lemma_div_is_ordered, lemma_div_pos_is_pos};
use vstd::arithmetic::mul::lemma_mul_inequality;
use crate::math::{
    abs_val, isqrt, lemma_div_bounded, lemma_mul_bounded, lemma_scaled_delta_bound,
    lemma_sqrt_floor_at_least, lemma_sqrt_floor_bounds, scaled_delta, scaled_delta_exec,
    sqrt_floor, DT_BOUND, G_SCALED, LEN_BOUND, MASS_BOUND, SCALE,
};
use crate::planet::Planet;

verus! {

/// Squared distance between two bodies, in units of `SCALE * SCALE`.
pub open spec fn dist_sq(a: Planet, b: Planet) -> int {
    let dx = b.x_pos - a.x_pos;
    let dy = b.y_pos - a.y_pos;
    dx * dx + dy * dy
}

/// The softening threshold: a squared distance below one simulation-space
/// unit, under which a pair exerts no force at all.
pub open spec fn softened(d2: int) -> bool {
    d2 < (SCALE as int) * (SCALE as int)
}

/// The scaled force factor `G * m / d^2`: multiplied by a unit direction
/// component it yields one acceleration component in scalar units.
pub open spec fn grav_q(m: int, d2: int) -> int {
    (m * G_SCALED) / d2
}

/// One axis of the acceleration that a body at displacement `delta`
/// (squared distance `d2`) and mass `m` imposes: the force factor times
/// `delta / sqrt(d2)`, with the magnitude rounded toward zero.
pub open spec fn axis_accel(delta: int, d2: int, m: int) -> int {
    let d = sqrt_floor(d2 as nat) as int;
    let q = grav_q(m, d2);
    if delta < 0 {
        -((q * (-delta)) / d)
    } else {
        (q * delta) / d
    }
}

/// The x component of the acceleration on `a` contributed by `b`.
pub open spec fn accel_x(a: Planet, b: Planet) -> int {
    if softened(dist_sq(a, b)) {
        0
    } else {
        axis_accel(b.x_pos - a.x_pos, dist_sq(a, b), b.mass as int)
    }
}

/// The y component of the acceleration on `a` contributed by `b`.
pub open spec fn accel_y(a: Planet, b: Planet) -> int {
    if softened(dist_sq(a, b)) {
        0
    } else {
        axis_accel(b.y_pos - a.y_pos, dist_sq(a, b), b.mass as int)
    }
}

/// Partial sum of x accelerations on body `i` from bodies `0 .. k`,
/// skipping `i` itself.
pub open spec fn accel_x_upto(bs: Seq<Planet>, i: int, k: int) -> int
    decreases k,
{
    if k <= 0 {
        0
    } else {
        accel_x_upto(bs, i, k - 1) + if k - 1 == i {
            0
        } else {
            accel_x(bs[i], bs[k - 1])
        }
    }
}

/// Partial sum of y accelerations on body `i` from bodies `0 .. k`.
pub open spec fn accel_y_upto(bs: Seq<Planet>, i: int, k: int) -> int
    decreases k,
{
    if k <= 0 {
        0
    } else {
        accel_y_upto(bs, i, k - 1) + if k - 1 == i {
            0
        } else {
            accel_y(bs[i], bs[k - 1])
        }
    }
}

/// Total x acceleration on body `i`: the sum over every other body.
pub open spec fn total_accel_x(bs: Seq<Planet>, i: int) -> int {
    accel_x_upto(bs, i, bs.len() as int)
}

/// Total y acceleration on body `i`: the sum over every other body.
pub open spec fn total_accel_y(bs: Seq<Planet>, i: int) -> int {
    accel_y_upto(bs, i, bs.len() as int)
}

/// Body `i` after one step: velocity takes the acceleration first, then
/// position takes the updated velocity (semi-implicit Euler).
pub open spec fn step_body(bs: Seq<Planet>, i: int, dt: int) -> Planet {
    let b = bs[i];
    let nvx = b.x_vel + scaled_delta(total_accel_x(bs, i), dt);
    let nvy = b.y_vel + scaled_delta(total_accel_y(bs, i), dt);
    let npx = b.x_pos + scaled_delta(nvx, dt);
    let npy = b.y_pos + scaled_delta(nvy, dt);
    Planet {
        x_pos: npx as i64,
        y_pos: npy as i64,
        x_vel: nvx as i64,
        y_vel: nvy as i64,
        mass: b.mass,
        radius: b.radius,
    }
}

/// One whole step: every body advances against the state as it stood at
/// the start of the step.
pub open spec fn step_seq(bs: Seq<Planet>, dt: int) -> Seq<Planet> {
    Seq::new(bs.len(), |i: int| step_body(bs, i, dt))
}

/// The machine-limit precondition of one step: a bounded body count, a
/// timestep of at most one simulation-time unit, and every body both
/// well formed and within the coordinate range.
pub open spec fn step_ready(bs: Seq<Planet>, dt: int) -> bool {
    &&& bs.len() <= LEN_BOUND
    &&& 0 <= dt <= DT_BOUND
    &&& forall|i: int| 0 <= i < bs.len() ==> (#[trigger] bs[i]).wf() && bs[i].in_range()
}

/// One axis contribution never exceeds the attracting mass in magnitude.
pub proof fn lemma_axis_accel_bound(delta: int, d2: int, m: int)
    requires
        0 < m <= MASS_BOUND,
        (SCALE as int) * (SCALE as int) <= d2,
        delta * delta <= d2,
    ensures
        abs_val(axis_accel(delta, d2, m)) <= m,
{
    let d = sqrt_floor(d2 as nat) as int;
    let q = grav_q(m, d2);
    let dm = abs_val(delta);
    lemma_sqrt_floor_bounds(d2 as nat);
    lemma_sqrt_floor_at_least(d2 as nat, SCALE as int);
    if delta < 0 {
        assert(dm * dm == delta * delta) by (nonlinear_arith)
            requires
                dm == -delta,
        ;
    } else {
        assert(dm * dm == delta * delta) by (nonlinear_arith)
            requires
                dm == delta,
        ;
    }
    lemma_sqrt_floor_at_least(d2 as nat, dm);
    assert(0 <= m * G_SCALED) by (nonlinear_arith)
        requires
            0 < m,
    ;
    lemma_div_pos_is_pos(m * G_SCALED, d2);
    // q <= m, because G_SCALED < SCALE * SCALE <= d2
    lemma_mul_inequality(G_SCALED as int, (SCALE as int) * (SCALE as int), m);
    assert(m * G_SCALED == G_SCALED * m && m * ((SCALE as int) * (SCALE as int)) == ((
    SCALE as int) * (SCALE as int)) * m) by (nonlinear_arith);
    lemma_div_bounded(m * G_SCALED, d2, m * ((SCALE as int) * (SCALE as int)), (SCALE as int) * (
    SCALE as int));
    lemma_div_by_multiple(m, (SCALE as int) * (SCALE as int));
    assert(q <= m);
    // (q * dm) / d <= q, because dm <= d
    lemma_mul_inequality(dm, d, q);
    assert(dm * q == q * dm && d * q == q * d) by (nonlinear_arith);
    lemma_div_is_ordered(q * dm, q * d, d);
    lemma_div_by_multiple(q, d);
    lemma_mul_bounded(q, dm, m, dm);
    lemma_div_pos_is_pos(q * dm, d);
}

/// The pair contribution on any axis is bounded by the attracting mass.
pub proof fn lemma_accel_pair_bound(a: Planet, b: Planet)
    requires
        0 < b.mass <= MASS_BOUND,
    ensures
        abs_val(accel_x(a, b)) <= b.mass,
        abs_val(accel_y(a, b)) <= b.mass,
{
    let d2 = dist_sq(a, b);
    if !softened(d2) {
        let dx = b.x_pos - a.x_pos;
        let dy = b.y_pos - a.y_pos;
        assert(0 <= dx * dx && 0 <= dy * dy) by (nonlinear_arith);
        lemma_axis_accel_bound(dx, d2, b.mass as int);
        lemma_axis_accel_bound(dy, d2, b.mass as int);
    }
}

/// A partial acceleration sum on body `i` is bounded by the number of
/// contributing bodies times the mass bound.
pub proof fn lemma_accel_upto_bound(bs: Seq<Planet>, i: int, k: int)
    requires
        0 <= k <= bs.len(),
        0 <= i < bs.len(),
        forall|j: int| 0 <= j < bs.len() ==> (#[trigger] bs[j]).wf(),
    ensures
        -(k * MASS_BOUND) <= accel_x_upto(bs, i, k) <= k * MASS_BOUND,
        -(k * MASS_BOUND) <= accel_y_upto(bs, i, k) <= k * MASS_BOUND,
    decreases k,
{
    if k > 0 {
        lemma_accel_upto_bound(bs, i, k - 1);
        if k - 1 != i {
            lemma_accel_pair_bound(bs[i], bs[k - 1]);
        }
    }
}

/// Computes both acceleration components that `b` imposes on `a`.
fn pair_accel(a: &Planet, b: &Planet, sc2: u128) -> (r: (i128, i128))
    requires
        a.in_range(),
        b.in_range(),
        0 < b.mass <= MASS_BOUND,
        sc2 == (SCALE as int) * (SCALE as int),
    ensures
        r.0 == accel_x(*a, *b),
        r.1 == accel_y(*a, *b),
        -MASS_BOUND <= r.0 <= MASS_BOUND,
        -MASS_BOUND <= r.1 <= MASS_BOUND,
{
    let dx: i128 = b.x_pos as i128 - a.x_pos as i128;
    let dy: i128 = b.y_pos as i128 - a.y_pos as i128;
    let dxm: u128 = if dx < 0 {
        (-dx) as u128
    } else {
        dx as u128
    };
    let dym: u128 = if dy < 0 {
        (-dy) as u128
    } else {
        dy as u128
    };
    proof {
        assert((dxm as int) * (dxm as int) == (dx as int) * (dx as int)
            && (dxm as int) * (dxm as int) <= 4_000_000_000_000_000_000_000_000_000_000_000_000int)
            by (nonlinear_arith)
            requires
                dxm as int == abs_val(dx as int),
                dxm <= 2_000_000_000_000_000_000u128,
        ;
        assert((dym as int) * (dym as int) == (dy as int) * (dy as int)
            && (dym as int) * (dym as int) <= 4_000_000_000_000_000_000_000_000_000_000_000_000int)
            by (nonlinear_arith)
            requires
                dym as int == abs_val(dy as int),
                dym <= 2_000_000_000_000_000_000u128,
        ;
    }
    let d2: u128 = dxm * dxm + dym * dym;
    if d2 < sc2 {
        (0i128, 0i128)
    } else {
        let d: u128 = isqrt(d2);
        proof {
            lemma_sqrt_floor_bounds(d2 as nat);
            lemma_sqrt_floor_at_least(d2 as nat, SCALE as int);
            lemma_sqrt_floor_at_least(d2 as nat, dxm as int);
            lemma_sqrt_floor_at_least(d2 as nat, dym as int);
            assert((b.mass as int) * (G_SCALED as int)
                <= 667_430_150_000_000_000_000_000int) by (nonlinear_arith)
                requires
                    0 < b.mass <= MASS_BOUND,
            ;
        }
        let t: u128 = (b.mass as u128) * (G_SCALED as u128);
        let q: u128 = t / d2;
        proof {
            lemma_div_bounded(t as int, d2 as int, 667_430_150_000_000_000_000_000int, (
            SCALE as int) * (SCALE as int));
            assert(667_430_150_000_000_000_000_000int / ((SCALE as int) * (SCALE as int))
                <= MASS_BOUND) by (nonlinear_arith);
            lemma_mul_bounded(q as int, dxm as int, MASS_BOUND as int,
                2_000_000_000_000_000_000int);
            lemma_mul_bounded(q as int, dym as int, MASS_BOUND as int,
                2_000_000_000_000_000_000int);
            // each axis magnitude is at most q
            lemma_mul_inequality(dxm as int, d as int, q as int);
            lemma_mul_inequality(dym as int, d as int, q as int);
            assert((q as int) * (dxm as int) == (dxm as int) * (q as int)
                && (q as int) * (dym as int) == (dym as int) * (q as int)
                && (q as int) * (d as int) == (d as int) * (q as int)) by (nonlinear_arith);
            lemma_div_is_ordered((q as int) * (dxm as int), (q as int) * (d as int), d as int);
            lemma_div_is_ordered((q as int) * (dym as int), (q as int) * (d as int), d as int);
            lemma_div_by_multiple(q as int, d as int);
            lemma_div_pos_is_pos((q as int) * (dxm as int), d as int);
            lemma_div_pos_is_pos((q as int) * (dym as int), d as int);
        }
        let rx: u128 = (q * dxm) / d;
        let ry: u128 = (q * dym) / d;
        let ax: i128 = if dx < 0 {
            -(rx as i128)
        } else {
            rx as i128
        };
        let ay: i128 = if dy < 0 {
            -(ry as i128)
        } else {
            ry as i128
        };
        (ax, ay)
    }
}

/// Advances every body of `planets` by one timestep of `dt`, computing
/// all accelerations from the state as it stood at entry.
pub fn step_planets(planets: &mut Vec<Planet>, dt: i64)
    requires
        step_ready(old(planets)@, dt as int),
    ensures
        final(planets)@ == step_seq(old(planets)@, dt as int),
{
    let ghost bs = planets@;
    let n = planets.len();
    let sc2: u128 = (SCALE as u128) * (SCALE as u128);
    let mut accels: Vec<(i128, i128)> = Vec::new();
    for i in 0..n
        invariant
            planets@ == bs,
            n == bs.len(),
            step_ready(bs, dt as int),
            sc2 == (SCALE as int) * (SCALE as int),
            accels@.len() == i,
            forall|k: int|
                0 <= k < i ==> (#[trigger] accels@[k]).0 == total_accel_x(bs, k) && accels@[k].1
                    == total_accel_y(bs, k),
    {
        let mut ax: i128 = 0;
        let mut ay: i128 = 0;
        for j in 0..n
            invariant
                planets@ == bs,
                n == bs.len(),
                i < n,
                step_ready(bs, dt as int),
                sc2 == (SCALE as int) * (SCALE as int),
                ax == accel_x_upto(bs, i as int, j as int),
                ay == accel_y_upto(bs, i as int, j as int),
                -((j as int) * MASS_BOUND) <= ax <= (j as int) * MASS_BOUND,
                -((j as int) * MASS_BOUND) <= ay <= (j as int) * MASS_BOUND,
        {
            if j != i {
                let pi = planets[i];
                let pj = planets[j];
                let pa = pair_accel(&pi, &pj, sc2);
                ax = ax + pa.0;
                ay = ay + pa.1;
            }
        }
        proof {
            assert(ax == total_accel_x(bs, i as int));
            assert(ay == total_accel_y(bs, i as int));
        }
        accels.push((ax, ay));
    }
    let mut updated: Vec<Planet> = Vec::new();
    for i in 0..n
        invariant
            planets@ == bs,
            n == bs.len(),
            step_ready(bs, dt as int),
            accels@.len() == n,
            forall|k: int|
                0 <= k < n ==> (#[trigger] accels@[k]).0 == total_accel_x(bs, k) && accels@[k].1
                    == total_accel_y(bs, k),
            updated@.len() == i,
            forall|k: int| 0 <= k < i ==> #[trigger] updated@[k] == step_body(bs, k, dt as int),
    {
        let p = planets[i];
        let (ax, ay) = accels[i];
        proof {
            lemma_accel_upto_bound(bs, i as int, bs.len() as int);
            lemma_scaled_delta_bound(ax as int, dt as int);
            lemma_scaled_delta_bound(ay as int, dt as int);
        }
        let dvx = scaled_delta_exec(ax, dt);
        let dvy = scaled_delta_exec(ay, dt);
        let nvx128: i128 = p.x_vel as i128 + dvx;
        let nvy128: i128 = p.y_vel as i128 + dvy;
        proof {
            lemma_scaled_delta_bound(nvx128 as int, dt as int);
            lemma_scaled_delta_bound(nvy128 as int, dt as int);
        }
        let dpx = scaled_delta_exec(nvx128, dt);
        let dpy = scaled_delta_exec(nvy128, dt);
        let npx128: i128 = p.x_pos as i128 + dpx;
        let npy128: i128 = p.y_pos as i128 + dpy;
        let next = Planet {
            x_pos: npx128 as i64,
            y_pos: npy128 as i64,
            x_vel: nvx128 as i64,
            y_vel: nvy128 as i64,
            mass: p.mass,
            radius: p.radius,
        };
        proof {
            assert(next == step_body(bs, i as int, dt as int));
        }
        updated.push(next);
    }
    *planets = updated;
    proof {
        assert(planets@ =~= step_seq(bs, dt as int));
    }
}

/// Softening threshold law: a pair closer than one simulation-space unit
/// contributes exactly zero acceleration to either body, whatever the
/// masses.
pub proof fn lemma_softening_zero(a: Planet, b: Planet)
    requires
        dist_sq(a, b) < (SCALE as int) * (SCALE as int),
    ensures
        accel_x(a, b) == 0,
        accel_y(a, b) == 0,
        accel_x(b, a) == 0,
        accel_y(b, a) == 0,
{
    assert(dist_sq(b, a) == dist_sq(a, b)) by (nonlinear_arith);
}

/// The acceleration a body receives is the same function of the two
/// positions and the attracting body's mass alone: nothing else about
/// either body enters the force law.
pub proof fn lemma_accel_from_positions_and_mass(a1: Planet, b1: Planet, a2: Planet, b2: Planet)
    requires
        a1.x_pos == a2.x_pos,
        a1.y_pos == a2.y_pos,
        b1.x_pos == b2.x_pos,
        b1.y_pos == b2.y_pos,
        b1.mass == b2.mass,
    ensures
        accel_x(a1, b1) == accel_x(a2, b2),
        accel_y(a1, b1) == accel_y(a2, b2),
{
}

/// Symmetry at equal mass: the acceleration each of two bodies imposes on
/// the other has exactly the same magnitude and the opposite direction,
/// component by component.
pub proof fn lemma_accel_mirror(a: Planet, b: Planet)
    requires
        a.mass == b.mass,
    ensures
        accel_x(a, b) == -accel_x(b, a),
        accel_y(a, b) == -accel_y(b, a),
{
    let dx = b.x_pos - a.x_pos;
    let dy = b.y_pos - a.y_pos;
    assert(dist_sq(b, a) == dist_sq(a, b)) by (nonlinear_arith);
    let d2 = dist_sq(a, b);
    if !softened(d2) {
        let q = grav_q(b.mass as int, d2);
        let d = sqrt_floor(d2 as nat) as int;
        lemma_sqrt_floor_bounds(d2 as nat);
        lemma_sqrt_floor_at_least(d2 as nat, SCALE as int);
        if dx == 0 {
            assert(q * 0 == 0 && 0int / d == 0) by (nonlinear_arith)
                requires
                    0 < d,
            ;
        }
        if dy == 0 {
            assert(q * 0 == 0 && 0int / d == 0) by (nonlinear_arith)
                requires
                    0 < d,
            ;
        }
    }
}

/// Antiparallel forces: on each axis, the two accelerations of a pair
/// never share a sign, whatever the two masses.
pub proof fn lemma_accel_opposed(a: Planet, b: Planet)
    requires
        0 < a.mass,
        0 < b.mass,
    ensures
        accel_x(a, b) * accel_x(b, a) <= 0,
        accel_y(a, b) * accel_y(b, a) <= 0,
{
    assert(dist_sq(b, a) == dist_sq(a, b)) by (nonlinear_arith);
    let d2 = dist_sq(a, b);
    if !softened(d2) {
        let d = sqrt_floor(d2 as nat) as int;
        lemma_sqrt_floor_bounds(d2 as nat);
        lemma_sqrt_floor_at_least(d2 as nat, SCALE as int);
        let qa = grav_q(a.mass as int, d2);
        let qb = grav_q(b.mass as int, d2);
        assert(0 <= (a.mass as int) * G_SCALED && 0 <= (b.mass as int) * G_SCALED)
            by (nonlinear_arith)
            requires
                0 < a.mass,
                0 < b.mass,
        ;
        lemma_div_pos_is_pos((a.mass as int) * G_SCALED, d2);
        lemma_div_pos_is_pos((b.mass as int) * G_SCALED, d2);
        let dx = b.x_pos - a.x_pos;
        let dy = b.y_pos - a.y_pos;
        lemma_mul_bounded(qb, if dx < 0 { -dx } else { dx }, qb, if dx < 0 { -dx } else { dx });
        lemma_mul_bounded(qa, if dx < 0 { -dx } else { dx }, qa, if dx < 0 { -dx } else { dx });
        lemma_mul_bounded(qb, if dy < 0 { -dy } else { dy }, qb, if dy < 0 { -dy } else { dy });
        lemma_mul_bounded(qa, if dy < 0 { -dy } else { dy }, qa, if dy < 0 { -dy } else { dy });
        lemma_div_pos_is_pos(qb * (if dx < 0 { -dx } else { dx }), d);
        lemma_div_pos_is_pos(qa * (if dx < 0 { -dx } else { dx }), d);
        lemma_div_pos_is_pos(qb * (if dy < 0 { -dy } else { dy }), d);
        lemma_div_pos_is_pos(qa * (if dy < 0 { -dy } else { dy }), d);
        if dx == 0 {
            assert(qa * 0 == 0 && qb * 0 == 0 && 0int / d == 0) by (nonlinear_arith)
                requires
                    0 < d,
            ;
        }
        if dy == 0 {
            assert(qa * 0 == 0 && qb * 0 == 0 && 0int / d == 0) by (nonlinear_arith)
                requires
                    0 < d,
            ;
        }
        let px = accel_x(a, b);
        let rx = accel_x(b, a);
        assert(px * rx <= 0) by (nonlinear_arith)
            requires
                (0 <= px && rx <= 0) || (px <= 0 && 0 <= rx),
        ;
        let py = accel_y(a, b);
        let ry = accel_y(b, a);
        assert(py * ry <= 0) by (nonlinear_arith)
            requires
                (0 <= py && ry <= 0) || (py <= 0 && 0 <= ry),
        ;
    } else {
        assert(accel_x(a, b) * accel_x(b, a) == 0 && accel_y(a, b) * accel_y(b, a) == 0)
            by (nonlinear_arith)
            requires
                accel_x(a, b) == 0 && accel_y(a, b) == 0,
        ;
    }
}

} // verus!
