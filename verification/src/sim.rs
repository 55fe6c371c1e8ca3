//! The simulation loop: exclusive owner of the body set for a run.  It
//! sequences fixed kick-drift-kick steps and hands out read-only snapshots
//! so that an external observer (a renderer, a recorder) can watch at
//! whatever cadence it chooses; the loop itself neither knows nor cares.

use vstd::prelude::*;
use crate::vec3::Vec3;
use crate::body::{Body, Particle, models};
use crate::force::{force_fits, refreshed, update_accelerations, accel_consistent};
use crate::integrate::{step_fits, stepped, step_once, lemma_step_consistent,
    lemma_time_reversal};

verus! {

/// The step relation iterated n times.
pub open spec fn simulated(ps: Seq<Particle>, eps: int, dt: int, n: int) -> Seq<Particle>
    decreases n,
{
    if n <= 0 {
        ps
    } else {
        simulated(stepped(ps, eps, dt), eps, dt, n - 1)
    }
}

/// Every step of an n-step run stays within machine range.
pub open spec fn sim_fits(ps: Seq<Particle>, eps: int, dt: int, n: int) -> bool
    decreases n,
{
    n <= 0 || (step_fits(ps, eps, dt) && sim_fits(stepped(ps, eps, dt), eps, dt, n - 1))
}

/// Peeling one step off the back of a run.
pub proof fn lemma_simulated_unfold_back(ps: Seq<Particle>, eps: int, dt: int, n: int)
    requires
        n >= 0,
    ensures
        simulated(ps, eps, dt, n + 1) == stepped(simulated(ps, eps, dt, n), eps, dt),
    decreases n,
{
    assert(simulated(ps, eps, dt, n + 1) == simulated(stepped(ps, eps, dt), eps, dt, n));
    if n > 0 {
        lemma_simulated_unfold_back(stepped(ps, eps, dt), eps, dt, n - 1);
    } else {
        assert(simulated(stepped(ps, eps, dt), eps, dt, 0) == stepped(ps, eps, dt));
        assert(simulated(ps, eps, dt, 0) == ps);
    }
}

/// Time reversal over a whole run: n steps of dt followed by n steps of -dt
/// return the exact initial state, bit for bit, provided the accelerations
/// going in were consistent with the positions (as a force refresh makes
/// them).
pub proof fn lemma_run_reversal(ps: Seq<Particle>, eps: int, dt: int, n: int)
    requires
        accel_consistent(ps, eps),
        n >= 0,
    ensures
        simulated(simulated(ps, eps, dt, n), eps, -dt, n) == ps,
    decreases n,
{
    if n > 0 {
        let fwd = simulated(ps, eps, dt, n);
        lemma_step_consistent(ps, eps, dt);
        lemma_run_reversal(stepped(ps, eps, dt), eps, dt, n - 1);
        assert(fwd == simulated(stepped(ps, eps, dt), eps, dt, n - 1));
        assert(simulated(fwd, eps, -dt, n - 1) == stepped(ps, eps, dt));
        lemma_simulated_unfold_back(fwd, eps, -dt, n - 1);
        lemma_time_reversal(ps, eps, dt);
    }
}

/// Determinism: the evolution is a mathematical function of the initial
/// state, the softening factor, the time step and the step count alone —
/// two runs from equal inputs stay equal, however the per-body work is
/// scheduled, because exact integer arithmetic leaves nothing to ordering.
pub proof fn lemma_deterministic(ps: Seq<Particle>, qs: Seq<Particle>, eps: int, dt: int, n: int)
    requires
        ps == qs,
    ensures
        simulated(ps, eps, dt, n) == simulated(qs, eps, dt, n),
{
}

/// The simulation loop.  No body is added or removed during a run; the force
/// field and the integrator only ever borrow the set for a single call.
pub struct Simulation {
    bodies: Vec<Body>,
    softening_factor: i128,
    dt: i128,
}

impl Simulation {
    /// The model of the current body set.
    pub closed spec fn particles(&self) -> Seq<Particle> {
        models(self.bodies@)
    }

    pub closed spec fn softening(&self) -> int {
        self.softening_factor as int
    }

    pub closed spec fn time_step(&self) -> int {
        self.dt as int
    }

    /// Takes ownership of the bodies and establishes the initial
    /// accelerations with one force refresh, so the first step's half-kick
    /// never reads a stale or unset acceleration.
    pub fn new(bodies: Vec<Body>, softening_factor: i128, dt: i128) -> (s: Simulation)
        requires
            force_fits(models(bodies@), softening_factor as int),
        ensures
            s.particles() == refreshed(models(bodies@), softening_factor as int),
            s.softening() == softening_factor as int,
            s.time_step() == dt as int,
    {
        let mut bs = bodies;
        update_accelerations(&mut bs, softening_factor);
        Simulation { bodies: bs, softening_factor, dt }
    }

    pub fn num_bodies(&self) -> (n: usize)
        ensures
            n as int == self.particles().len(),
    {
        self.bodies.len()
    }

    /// The body set, read-only.
    pub fn bodies(&self) -> (r: &Vec<Body>)
        ensures
            models(r@) == self.particles(),
    {
        &self.bodies
    }

    /// One kick-drift-kick step.
    pub fn step(&mut self)
        requires
            step_fits(old(self).particles(), old(self).softening(), old(self).time_step()),
        ensures
            final(self).particles() == stepped(
                old(self).particles(),
                old(self).softening(),
                old(self).time_step(),
            ),
            final(self).softening() == old(self).softening(),
            final(self).time_step() == old(self).time_step(),
    {
        step_once(&mut self.bodies, self.dt, self.softening_factor);
    }

    /// Exactly `steps` further steps, no early exit and no convergence test.
    pub fn run(&mut self, steps: usize)
        requires
            sim_fits(
                old(self).particles(),
                old(self).softening(),
                old(self).time_step(),
                steps as int,
            ),
        ensures
            final(self).particles() == simulated(
                old(self).particles(),
                old(self).softening(),
                old(self).time_step(),
                steps as int,
            ),
            final(self).softening() == old(self).softening(),
            final(self).time_step() == old(self).time_step(),
    {
        let ghost init = models(self.bodies@);
        let ghost eps = self.softening_factor as int;
        let ghost dtm = self.dt as int;
        let mut j: usize = 0;
        while j < steps
            invariant
                j <= steps,
                self.softening_factor == old(self).softening_factor,
                self.dt == old(self).dt,
                eps == self.softening_factor as int,
                dtm == self.dt as int,
                models(self.bodies@) == simulated(init, eps, dtm, j as int),
                sim_fits(models(self.bodies@), eps, dtm, (steps - j) as int),
            decreases steps - j,
        {
            step_once(&mut self.bodies, self.dt, self.softening_factor);
            proof {
                lemma_simulated_unfold_back(init, eps, dtm, j as int);
            }
            j = j + 1;
        }
    }

    /// A read-only snapshot for external observers: `(mass, position,
    /// velocity)` per body, in index order.  The derived acceleration is
    /// deliberately left out: it is transient state, recomputed every step.
    pub fn snapshot(&self) -> (r: Vec<(u128, Vec3, Vec3)>)
        ensures
            r@.len() == self.particles().len(),
            forall|i: int|
                0 <= i < r@.len() ==> (#[trigger] r@[i]).0 as int == self.particles()[i].mass
                    && r@[i].1@ == self.particles()[i].position && r@[i].2@
                    == self.particles()[i].velocity,
    {
        let mut out: Vec<(u128, Vec3, Vec3)> = Vec::new();
        let mut k: usize = 0;
        let n = self.bodies.len();
        while k < n
            invariant
                n == self.bodies@.len(),
                k <= n,
                out@.len() == k as int,
                forall|i: int|
                    0 <= i < k as int ==> (#[trigger] out@[i]).0 == self.bodies@[i].mass
                        && out@[i].1 == self.bodies@[i].position && out@[i].2
                        == self.bodies@[i].velocity,
            decreases n - k,
        {
            let b = self.bodies[k];
            out.push((b.mass, b.position, b.velocity));
            k = k + 1;
        }
        proof {
            assert forall|i: int| 0 <= i < out@.len() implies (#[trigger] out@[i]).0 as int
                == self.particles()[i].mass && out@[i].1@ == self.particles()[i].position
                && out@[i].2@ == self.particles()[i].velocity by {
                assert(models(self.bodies@)[i] == self.bodies@[i]@);
            }
        }
        out
    }
}

} // verus!
