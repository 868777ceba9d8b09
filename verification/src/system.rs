//! The body registry and its two entry points: the in-place step and the
//! non-mutating forecast.

use vstd::prelude::*;
use crate::math::{scaled_delta, DT_BOUND, LEN_BOUND, MASS_BOUND};
use crate::physics::{step_body, step_planets, step_ready, step_seq, total_accel_x, total_accel_y};
use crate::planet::Planet;

verus! {

/// The state reached from `bs` after `k` steps of timestep `dt`.
pub open spec fn iterate(bs: Seq<Planet>, dt: int, k: nat) -> Seq<Planet>
    decreases k,
{
    if k == 0 {
        bs
    } else {
        step_seq(iterate(bs, dt, (k - 1) as nat), dt)
    }
}

/// Every state passed through during `steps` steps stays within the
/// machine-limit range of one step.
pub open spec fn sim_ok(bs: Seq<Planet>, dt: int, steps: nat) -> bool {
    forall|k: nat| k < steps ==> step_ready(#[trigger] iterate(bs, dt, k), dt)
}

/// A step never adds or removes bodies.
pub proof fn lemma_iterate_len(bs: Seq<Planet>, dt: int, k: nat)
    ensures
        iterate(bs, dt, k).len() == bs.len(),
    decreases k,
{
    if k > 0 {
        lemma_iterate_len(bs, dt, (k - 1) as nat);
    }
}

/// Step and Predict run identical physics: the state one forecast step
/// ahead is exactly the state that one in-place step produces.
pub proof fn lemma_forecast_matches_step(bs: Seq<Planet>, dt: int)
    ensures
        iterate(bs, dt, 1) == step_seq(bs, dt),
{
    assert(iterate(bs, dt, 0) == bs);
}

/// A step mutates position and velocity only: every body keeps its mass
/// and its display radius through any number of steps.
pub proof fn lemma_iterate_keeps_mass(bs: Seq<Planet>, dt: int, k: nat)
    ensures
        iterate(bs, dt, k).len() == bs.len(),
        forall|i: int|
            0 <= i < bs.len() ==> (#[trigger] iterate(bs, dt, k)[i]).mass == bs[i].mass
                && iterate(bs, dt, k)[i].radius == bs[i].radius,
    decreases k,
{
    if k > 0 {
        lemma_iterate_keeps_mass(bs, dt, (k - 1) as nat);
        let prev = iterate(bs, dt, (k - 1) as nat);
        assert forall|i: int|
            0 <= i < bs.len() implies (#[trigger] iterate(bs, dt, k)[i]).mass == bs[i].mass
                && iterate(bs, dt, k)[i].radius == bs[i].radius by {
            assert(iterate(bs, dt, k)[i] == step_body(prev, i, dt));
        }
    }
}

/// Determinism: the simulation is a function of the starting state and
/// the parameters alone, so equal snapshots give equal futures.
pub proof fn lemma_iterate_deterministic(s1: Seq<Planet>, s2: Seq<Planet>, dt: int, k: nat)
    requires
        s1 == s2,
    ensures
        iterate(s1, dt, k) == iterate(s2, dt, k),
{
}

/// A lone body feels no force: over any number of steps its velocity is
/// exactly unchanged, and a body at rest also keeps its position.
pub proof fn lemma_single_body(bs: Seq<Planet>, dt: int, k: nat)
    requires
        bs.len() == 1,
    ensures
        iterate(bs, dt, k).len() == 1,
        iterate(bs, dt, k)[0].x_vel == bs[0].x_vel,
        iterate(bs, dt, k)[0].y_vel == bs[0].y_vel,
        iterate(bs, dt, k)[0].mass == bs[0].mass,
        iterate(bs, dt, k)[0].radius == bs[0].radius,
        bs[0].x_vel == 0 && bs[0].y_vel == 0 ==> iterate(bs, dt, k)[0] == bs[0],
    decreases k,
{
    if k > 0 {
        lemma_single_body(bs, dt, (k - 1) as nat);
        let prev = iterate(bs, dt, (k - 1) as nat);
        assert(crate::physics::accel_x_upto(prev, 0, 0) == 0);
        assert(crate::physics::accel_y_upto(prev, 0, 0) == 0);
        assert(crate::physics::accel_x_upto(prev, 0, 1) == 0);
        assert(crate::physics::accel_y_upto(prev, 0, 1) == 0);
        assert(total_accel_x(prev, 0) == 0);
        assert(total_accel_y(prev, 0) == 0);
        assert(scaled_delta(0, dt) == 0);
        assert(iterate(bs, dt, k)[0] == step_body(prev, 0, dt));
    }
}

/// The ordered registry of all bodies in a simulation session.  Order is
/// insertion order; a body's index is its only identity, and predicted
/// paths are associated back to bodies by that index.
pub struct System {
    planets: Vec<Planet>,
}

impl View for System {
    type V = Seq<Planet>;

    closed spec fn view(&self) -> Seq<Planet> {
        self.planets@
    }
}

impl System {
    /// Every body of the registry satisfies the data-model invariant.
    pub open spec fn wf(self) -> bool {
        forall|i: int| 0 <= i < self@.len() ==> (#[trigger] self@[i]).wf()
    }

    pub fn new() -> (s: System)
        ensures
            s@ == Seq::<Planet>::empty(),
            s.wf(),
    {
        System { planets: Vec::new() }
    }

    /// Appends a body built from the given scaled coordinates; the new
    /// body stands at the end, all earlier bodies keep their index.
    pub fn add_planet(
        &mut self,
        x_pos: i64,
        y_pos: i64,
        x_vel: i64,
        y_vel: i64,
        mass: i64,
        radius: i64,
    )
        requires
            0 < mass <= MASS_BOUND,
            0 < radius,
            old(self)@.len() < LEN_BOUND,
        ensures
            final(self)@ == old(self)@.push(
                Planet { x_pos, y_pos, x_vel, y_vel, mass, radius },
            ),
            old(self).wf() ==> final(self).wf(),
    {
        self.planets.push(Planet::new(x_pos, y_pos, x_vel, y_vel, mass, radius));
    }

    /// Read access to the ordered body sequence, for rendering and for
    /// snapshotting.
    pub fn planets(&self) -> (r: &Vec<Planet>)
        ensures
            r@ == self@,
    {
        &self.planets
    }

    /// Decides whether one step of timestep `dt` is within the machine
    /// limits of the integrator for the current state.
    pub fn step_ready_now(&self, dt: i64) -> (r: bool)
        ensures
            r == step_ready(self@, dt as int),
    {
        if !(0 <= dt && dt <= DT_BOUND && self.planets.len() <= LEN_BOUND) {
            return false;
        }
        let n = self.planets.len();
        for i in 0..n
            invariant
                n == self@.len(),
                forall|k: int|
                    0 <= k < i ==> (#[trigger] self@[k]).wf() && self@[k].in_range(),
        {
            let p = self.planets[i];
            if !p.check() {
                return false;
            }
        }
        true
    }

    /// Decides whether a forecast of `steps` steps stays within the
    /// machine limits throughout, by running it on a disposable copy.
    pub fn forecast_ready(&self, steps: usize, dt: i64) -> (r: bool)
        ensures
            r == sim_ok(self@, dt as int, steps as nat),
    {
        let ghost bs = self@;
        let n = self.planets.len();
        let mut work: Vec<Planet> = Vec::new();
        for idx in 0..n
            invariant
                n == bs.len(),
                self@ == bs,
                work@.len() == idx,
                forall|k: int| 0 <= k < idx ==> #[trigger] work@[k] == bs[k],
        {
            let p = self.planets[idx];
            work.push(p);
        }
        proof {
            assert(work@ =~= bs);
        }
        let mut t: usize = 0;
        while t < steps
            invariant
                t <= steps,
                self@ == bs,
                work@ == iterate(bs, dt as int, t as nat),
                forall|k: nat| k < t ==> step_ready(#[trigger] iterate(bs, dt as int, k), dt as int),
            decreases steps - t,
        {
            if !(0 <= dt && dt <= DT_BOUND && work.len() <= LEN_BOUND) {
                proof {
                    assert(!step_ready(iterate(bs, dt as int, t as nat), dt as int));
                }
                return false;
            }
            let m = work.len();
            for i in 0..m
                invariant
                    m == work@.len(),
                    t < steps,
                    self@ == bs,
                    work@ == iterate(bs, dt as int, t as nat),
                    forall|k: int|
                        0 <= k < i ==> (#[trigger] work@[k]).wf() && work@[k].in_range(),
            {
                let p = work[i];
                if !p.check() {
                    proof {
                        assert(!step_ready(iterate(bs, dt as int, t as nat), dt as int));
                    }
                    return false;
                }
            }
            proof {
                assert(step_ready(iterate(bs, dt as int, t as nat), dt as int));
            }
            step_planets(&mut work, dt);
            t = t + 1;
        }
        true
    }

    /// Advances the real state by one timestep in place: every body's
    /// acceleration is computed from the registry as it stood at entry,
    /// then velocity takes the acceleration and position the new
    /// velocity.
    pub fn apply_physics(&mut self, delta_time: i64)
        requires
            step_ready(old(self)@, delta_time as int),
        ensures
            final(self)@ == step_seq(old(self)@, delta_time as int),
            final(self).wf(),
    {
        let ghost bs = self@;
        step_planets(&mut self.planets, delta_time);
        proof {
            assert forall|i: int| 0 <= i < self@.len() implies (#[trigger] self@[i]).wf() by {
                assert(self@[i] == step_body(bs, i, delta_time as int));
                assert(bs[i].wf());
            }
        }
    }

    /// Forecasts the next `steps` timesteps on a disposable copy of the
    /// registry, leaving the live state untouched, and returns one path
    /// per body (by registry index): the positions after step 1, 2, ...,
    /// `steps`, in chronological order.
    pub fn predict_orbit(&self, steps: usize, dt: i64) -> (paths: Vec<Vec<(i64, i64)>>)
        requires
            steps >= 1,
            sim_ok(self@, dt as int, steps as nat),
        ensures
            paths@.len() == self@.len(),
            forall|i: int| 0 <= i < paths@.len() ==> (#[trigger] paths@[i])@.len() == steps,
            forall|i: int, k: int|
                0 <= i < paths@.len() && 0 <= k < steps ==> (#[trigger] paths@[i]@[k]).0
                    == iterate(self@, dt as int, (k + 1) as nat)[i].x_pos && paths@[i]@[k].1
                    == iterate(self@, dt as int, (k + 1) as nat)[i].y_pos,
    {
        let ghost bs = self@;
        let n = self.planets.len();
        let mut work: Vec<Planet> = Vec::new();
        for idx in 0..n
            invariant
                n == bs.len(),
                self@ == bs,
                work@.len() == idx,
                forall|k: int| 0 <= k < idx ==> #[trigger] work@[k] == bs[k],
        {
            let p = self.planets[idx];
            work.push(p);
        }
        proof {
            assert(work@ =~= bs);
        }
        let mut rows: Vec<Vec<(i64, i64)>> = Vec::new();
        for t in 0..steps
            invariant
                n == bs.len(),
                self@ == bs,
                sim_ok(bs, dt as int, steps as nat),
                work@ == iterate(bs, dt as int, t as nat),
                rows@.len() == t,
                forall|s: int| 0 <= s < t ==> (#[trigger] rows@[s])@.len() == n,
                forall|s: int, i: int|
                    0 <= s < t && 0 <= i < n ==> (#[trigger] rows@[s]@[i]).0
                        == iterate(bs, dt as int, (s + 1) as nat)[i].x_pos && rows@[s]@[i].1
                        == iterate(bs, dt as int, (s + 1) as nat)[i].y_pos,
        {
            proof {
                assert(step_ready(iterate(bs, dt as int, t as nat), dt as int));
            }
            step_planets(&mut work, dt);
            proof {
                assert(work@ == iterate(bs, dt as int, (t + 1) as nat));
                lemma_iterate_len(bs, dt as int, (t + 1) as nat);
            }
            let mut row: Vec<(i64, i64)> = Vec::new();
            let m = work.len();
            for i in 0..m
                invariant
                    m == n,
                    work@ == iterate(bs, dt as int, (t + 1) as nat),
                    work@.len() == n,
                    row@.len() == i,
                    forall|k: int|
                        0 <= k < i ==> (#[trigger] row@[k]).0 == work@[k].x_pos && row@[k].1
                            == work@[k].y_pos,
            {
                let p = work[i];
                row.push((p.x_pos, p.y_pos));
            }
            rows.push(row);
        }
        let mut paths: Vec<Vec<(i64, i64)>> = Vec::new();
        for i in 0..n
            invariant
                n == bs.len(),
                self@ == bs,
                rows@.len() == steps,
                forall|s: int| 0 <= s < steps ==> (#[trigger] rows@[s])@.len() == n,
                forall|s: int, k: int|
                    0 <= s < steps && 0 <= k < n ==> (#[trigger] rows@[s]@[k]).0
                        == iterate(bs, dt as int, (s + 1) as nat)[k].x_pos && rows@[s]@[k].1
                        == iterate(bs, dt as int, (s + 1) as nat)[k].y_pos,
                paths@.len() == i,
                forall|ii: int| 0 <= ii < i ==> (#[trigger] paths@[ii])@.len() == steps,
                forall|ii: int, k: int|
                    0 <= ii < i && 0 <= k < steps ==> (#[trigger] paths@[ii]@[k]).0
                        == iterate(bs, dt as int, (k + 1) as nat)[ii].x_pos && paths@[ii]@[k].1
                        == iterate(bs, dt as int, (k + 1) as nat)[ii].y_pos,
        {
            let mut path: Vec<(i64, i64)> = Vec::new();
            for t in 0..steps
                invariant
                    n == bs.len(),
                    i < n,
                    rows@.len() == steps,
                    forall|s: int| 0 <= s < steps ==> (#[trigger] rows@[s])@.len() == n,
                    forall|s: int, k: int|
                        0 <= s < steps && 0 <= k < n ==> (#[trigger] rows@[s]@[k]).0
                            == iterate(bs, dt as int, (s + 1) as nat)[k].x_pos && rows@[s]@[k].1
                            == iterate(bs, dt as int, (s + 1) as nat)[k].y_pos,
                    path@.len() == t,
                    forall|k: int| 0 <= k < t ==> #[trigger] path@[k] == rows@[k]@[i as int],
            {
                let r = &rows[t];
                let entry = r[i];
                path.push(entry);
            }
            paths.push(path);
        }
        paths
    }
}

} // verus!
