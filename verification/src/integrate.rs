//! The leapfrog (kick-drift-kick) integrator.
//!
//! One step is: half-kick with the stored accelerations, drift, force
//! refresh at the new positions, half-kick with the fresh accelerations.
//! The three-phase split around the force recomputation is essential: it is
//! what makes the scheme symplectic, and — because all arithmetic here is
//! exact truncating fixed point — exactly time-reversible.

use vstd::prelude::*;
use vstd::arithmetic::div_mod::lemma_div_is_ordered;
use crate::math::{absi, smul_div, muldiv, SCALE, KICK_DIV, PROD_CAP, STATE_CAP,
    lemma_smul_div_neg};
use crate::vec3::{Vec3, V3, v3_add, v3_within};
use crate::body::{Body, Particle, models};
use crate::force::{force_fits, refreshed, accel_consistent, update_accelerations, net_accel,
    sources_of};

verus! {

/// Componentwise `a * dt / d`, truncating toward zero.
pub open spec fn v3_muldiv(a: V3, dt: int, d: int) -> V3 {
    V3 { x: smul_div(a.x, dt, d), y: smul_div(a.y, dt, d), z: smul_div(a.z, dt, d) }
}

/// Half-kick of one body: velocity advanced by acceleration times dt/2.
pub open spec fn kick_body(b: Particle, dt: int) -> Particle {
    Particle {
        mass: b.mass,
        position: b.position,
        velocity: v3_add(b.velocity, v3_muldiv(b.acceleration, dt, KICK_DIV as int)),
        acceleration: b.acceleration,
    }
}

pub open spec fn kicked(ps: Seq<Particle>, dt: int) -> Seq<Particle> {
    ps.map_values(|b: Particle| kick_body(b, dt))
}

/// Drift of one body: position advanced by the (half-kicked) velocity times dt.
pub open spec fn drift_body(b: Particle, dt: int) -> Particle {
    Particle {
        mass: b.mass,
        position: v3_add(b.position, v3_muldiv(b.velocity, dt, SCALE as int)),
        velocity: b.velocity,
        acceleration: b.acceleration,
    }
}

pub open spec fn drifted(ps: Seq<Particle>, dt: int) -> Seq<Particle> {
    ps.map_values(|b: Particle| drift_body(b, dt))
}

/// Machine-range conditions under which a half-kick is exact.
pub open spec fn kick_fits_body(b: Particle, dt: int) -> bool {
    &&& absi(b.acceleration.x * dt) <= PROD_CAP as int
    &&& absi(b.acceleration.y * dt) <= PROD_CAP as int
    &&& absi(b.acceleration.z * dt) <= PROD_CAP as int
    &&& v3_within(b.velocity, STATE_CAP as int)
}

pub open spec fn kick_fits(ps: Seq<Particle>, dt: int) -> bool {
    forall|i: int| 0 <= i < ps.len() ==> kick_fits_body(#[trigger] ps[i], dt)
}

/// Machine-range conditions under which a drift is exact.
pub open spec fn drift_fits_body(b: Particle, dt: int) -> bool {
    &&& absi(b.velocity.x * dt) <= PROD_CAP as int
    &&& absi(b.velocity.y * dt) <= PROD_CAP as int
    &&& absi(b.velocity.z * dt) <= PROD_CAP as int
    &&& v3_within(b.position, STATE_CAP as int)
}

pub open spec fn drift_fits(ps: Seq<Particle>, dt: int) -> bool {
    forall|i: int| 0 <= i < ps.len() ==> drift_fits_body(#[trigger] ps[i], dt)
}

/// One full kick-drift-kick step over the model.
pub open spec fn stepped(ps: Seq<Particle>, eps: int, dt: int) -> Seq<Particle> {
    kicked(refreshed(drifted(kicked(ps, dt), dt), eps), dt)
}

/// Every intermediate of one full step stays within machine range.
pub open spec fn step_fits(ps: Seq<Particle>, eps: int, dt: int) -> bool {
    &&& kick_fits(ps, dt)
    &&& drift_fits(kicked(ps, dt), dt)
    &&& force_fits(drifted(kicked(ps, dt), dt), eps)
    &&& kick_fits(refreshed(drifted(kicked(ps, dt), dt), eps), dt)
}

/// Half-kick: every velocity advanced by its body's stored acceleration
/// times dt/2; masses, positions and accelerations untouched.
fn half_kick(bodies: &mut Vec<Body>, dt: i128)
    requires
        kick_fits(models(old(bodies)@), dt as int),
    ensures
        final(bodies)@.len() == old(bodies)@.len(),
        models(final(bodies)@) == kicked(models(old(bodies)@), dt as int),
{
    let n = bodies.len();
    let mut out: Vec<Body> = Vec::new();
    let mut k: usize = 0;
    while k < n
        invariant
            n == bodies@.len(),
            bodies@ == old(bodies)@,
            k <= n,
            out@.len() == k as int,
            kick_fits(models(bodies@), dt as int),
            forall|i: int|
                0 <= i < k as int ==> (#[trigger] out@[i])@ == kick_body(
                    models(bodies@)[i],
                    dt as int,
                ),
        decreases n - k,
    {
        let b = bodies[k];
        proof {
            assert(models(bodies@)[k as int] == bodies@[k as int]@);
            assert(kick_fits_body(models(bodies@)[k as int], dt as int));
        }
        let dvx = muldiv(b.acceleration.x, dt, KICK_DIV);
        let dvy = muldiv(b.acceleration.y, dt, KICK_DIV);
        let dvz = muldiv(b.acceleration.z, dt, KICK_DIV);
        proof {
            lemma_div_is_ordered(
                absi((b.acceleration.x as int) * (dt as int)),
                PROD_CAP as int,
                KICK_DIV as int,
            );
            lemma_div_is_ordered(
                absi((b.acceleration.y as int) * (dt as int)),
                PROD_CAP as int,
                KICK_DIV as int,
            );
            lemma_div_is_ordered(
                absi((b.acceleration.z as int) * (dt as int)),
                PROD_CAP as int,
                KICK_DIV as int,
            );
        }
        let nb = Body {
            mass: b.mass,
            position: b.position,
            velocity: Vec3 { x: b.velocity.x + dvx, y: b.velocity.y + dvy, z: b.velocity.z + dvz },
            acceleration: b.acceleration,
        };
        out.push(nb);
        k = k + 1;
    }
    *bodies = out;
    proof {
        assert forall|i: int| 0 <= i < n as int implies models(bodies@)[i] == kicked(
            models(old(bodies)@),
            dt as int,
        )[i] by {
            assert(models(bodies@)[i] == bodies@[i]@);
        }
        assert(models(bodies@) =~= kicked(models(old(bodies)@), dt as int));
    }
}

/// Drift: every position advanced by its body's velocity times dt; masses,
/// velocities and accelerations untouched.
fn drift_all(bodies: &mut Vec<Body>, dt: i128)
    requires
        drift_fits(models(old(bodies)@), dt as int),
    ensures
        final(bodies)@.len() == old(bodies)@.len(),
        models(final(bodies)@) == drifted(models(old(bodies)@), dt as int),
{
    let n = bodies.len();
    let mut out: Vec<Body> = Vec::new();
    let mut k: usize = 0;
    while k < n
        invariant
            n == bodies@.len(),
            bodies@ == old(bodies)@,
            k <= n,
            out@.len() == k as int,
            drift_fits(models(bodies@), dt as int),
            forall|i: int|
                0 <= i < k as int ==> (#[trigger] out@[i])@ == drift_body(
                    models(bodies@)[i],
                    dt as int,
                ),
        decreases n - k,
    {
        let b = bodies[k];
        proof {
            assert(models(bodies@)[k as int] == bodies@[k as int]@);
            assert(drift_fits_body(models(bodies@)[k as int], dt as int));
        }
        let dpx = muldiv(b.velocity.x, dt, SCALE);
        let dpy = muldiv(b.velocity.y, dt, SCALE);
        let dpz = muldiv(b.velocity.z, dt, SCALE);
        proof {
            lemma_div_is_ordered(
                absi((b.velocity.x as int) * (dt as int)),
                PROD_CAP as int,
                SCALE as int,
            );
            lemma_div_is_ordered(
                absi((b.velocity.y as int) * (dt as int)),
                PROD_CAP as int,
                SCALE as int,
            );
            lemma_div_is_ordered(
                absi((b.velocity.z as int) * (dt as int)),
                PROD_CAP as int,
                SCALE as int,
            );
        }
        let nb = Body {
            mass: b.mass,
            position: Vec3 { x: b.position.x + dpx, y: b.position.y + dpy, z: b.position.z + dpz },
            velocity: b.velocity,
            acceleration: b.acceleration,
        };
        out.push(nb);
        k = k + 1;
    }
    *bodies = out;
    proof {
        assert forall|i: int| 0 <= i < n as int implies models(bodies@)[i] == drifted(
            models(old(bodies)@),
            dt as int,
        )[i] by {
            assert(models(bodies@)[i] == bodies@[i]@);
        }
        assert(models(bodies@) =~= drifted(models(old(bodies)@), dt as int));
    }
}

/// The first two phases of a leapfrog step: half-kick with the stored
/// accelerations, then drift.  A force refresh and a second half-kick
/// complete the step (see `step_once`).
pub fn leapfrog_integrator(bodies: &mut Vec<Body>, dt: i128)
    requires
        kick_fits(models(old(bodies)@), dt as int),
        drift_fits(kicked(models(old(bodies)@), dt as int), dt as int),
    ensures
        final(bodies)@.len() == old(bodies)@.len(),
        models(final(bodies)@) == drifted(kicked(models(old(bodies)@), dt as int), dt as int),
{
    half_kick(bodies, dt);
    drift_all(bodies, dt);
}

/// One full leapfrog step: half-kick, drift, force refresh at the new
/// positions, half-kick with the fresh accelerations.  A zero dt is a legal
/// no-op step (up to the force refresh); a negative dt steps backward.
pub fn step_once(bodies: &mut Vec<Body>, dt: i128, softening_factor: i128)
    requires
        step_fits(models(old(bodies)@), softening_factor as int, dt as int),
    ensures
        final(bodies)@.len() == old(bodies)@.len(),
        models(final(bodies)@) == stepped(
            models(old(bodies)@),
            softening_factor as int,
            dt as int,
        ),
{
    leapfrog_integrator(bodies, dt);
    update_accelerations(bodies, softening_factor);
    half_kick(bodies, dt);
}

/// A half-kick of -dt with the same accelerations exactly undoes one of dt.
pub proof fn lemma_kick_body_reverse(b: Particle, dt: int)
    ensures
        kick_body(kick_body(b, dt), -dt) == b,
{
    lemma_smul_div_neg(b.acceleration.x, dt, KICK_DIV as int);
    lemma_smul_div_neg(b.acceleration.y, dt, KICK_DIV as int);
    lemma_smul_div_neg(b.acceleration.z, dt, KICK_DIV as int);
}

/// A drift of -dt with the same velocities exactly undoes one of dt.
pub proof fn lemma_drift_body_reverse(b: Particle, dt: int)
    ensures
        drift_body(drift_body(b, dt), -dt) == b,
{
    lemma_smul_div_neg(b.velocity.x, dt, SCALE as int);
    lemma_smul_div_neg(b.velocity.y, dt, SCALE as int);
    lemma_smul_div_neg(b.velocity.z, dt, SCALE as int);
}

/// A step leaves the body set consistent: the accelerations it stores are
/// exactly the net accelerations at the positions it produces.
pub proof fn lemma_step_consistent(ps: Seq<Particle>, eps: int, dt: int)
    ensures
        accel_consistent(stepped(ps, eps, dt), eps),
{
    let k1 = kicked(ps, dt);
    let d1 = drifted(k1, dt);
    let r1 = refreshed(d1, eps);
    let s1 = kicked(r1, dt);
    assert forall|i: int| 0 <= i < s1.len() implies (sources_of(s1))[i] == (sources_of(d1))[i] by {
        assert(s1[i] == kick_body(r1[i], dt));
    }
    assert(sources_of(s1) =~= sources_of(d1));
    assert forall|i: int| 0 <= i < s1.len() implies #[trigger] s1[i].acceleration == net_accel(
        sources_of(s1),
        s1[i].position,
        eps * eps,
    ) by {
        assert(s1[i] == kick_body(r1[i], dt));
        assert(r1[i].acceleration == net_accel(sources_of(d1), d1[i].position, eps * eps));
    }
}

/// Time reversal: stepping by -dt exactly undoes a step of dt, provided the
/// stored accelerations going in were consistent with the positions — as
/// they are after any force refresh.  Truncation toward zero is symmetric
/// under negation, so the reversal is exact, not merely approximate.
pub proof fn lemma_time_reversal(ps: Seq<Particle>, eps: int, dt: int)
    requires
        accel_consistent(ps, eps),
    ensures
        stepped(stepped(ps, eps, dt), eps, -dt) == ps,
{
    let n = ps.len() as int;
    let k1 = kicked(ps, dt);
    let d1 = drifted(k1, dt);
    let r1 = refreshed(d1, eps);
    let s1 = kicked(r1, dt);
    let k2 = kicked(s1, -dt);
    assert forall|i: int| 0 <= i < n implies k2[i] == r1[i] by {
        assert(s1[i] == kick_body(r1[i], dt));
        assert(k2[i] == kick_body(kick_body(r1[i], dt), -dt));
        lemma_kick_body_reverse(r1[i], dt);
    }
    assert(k2 =~= r1);
    let d2 = drifted(k2, -dt);
    assert forall|i: int| 0 <= i < n implies d2[i] == Particle {
        mass: ps[i].mass,
        position: k1[i].position,
        velocity: k1[i].velocity,
        acceleration: r1[i].acceleration,
    } by {
        assert(r1[i].position == d1[i].position && r1[i].velocity == d1[i].velocity
            && r1[i].mass == d1[i].mass);
        assert(d1[i] == drift_body(k1[i], dt));
        assert(d2[i] == drift_body(r1[i], -dt));
        lemma_smul_div_neg(k1[i].velocity.x, dt, SCALE as int);
        lemma_smul_div_neg(k1[i].velocity.y, dt, SCALE as int);
        lemma_smul_div_neg(k1[i].velocity.z, dt, SCALE as int);
    }
    let r2 = refreshed(d2, eps);
    assert forall|i: int| 0 <= i < n implies (sources_of(d2))[i] == (sources_of(ps))[i] by {
        assert(k1[i] == kick_body(ps[i], dt));
    }
    assert(sources_of(d2) =~= sources_of(ps));
    let s2 = kicked(r2, -dt);
    assert forall|i: int| 0 <= i < n implies s2[i] == ps[i] by {
        assert(k1[i] == kick_body(ps[i], dt));
        assert(r2[i].acceleration == net_accel(sources_of(ps), d2[i].position, eps * eps));
        assert(d2[i].position == ps[i].position);
        assert(r2[i].acceleration == ps[i].acceleration);
        assert(s2[i] == kick_body(r2[i], -dt));
        lemma_smul_div_neg(ps[i].acceleration.x, dt, KICK_DIV as int);
        lemma_smul_div_neg(ps[i].acceleration.y, dt, KICK_DIV as int);
        lemma_smul_div_neg(ps[i].acceleration.z, dt, KICK_DIV as int);
    }
    assert(s2 =~= ps);
    assert(stepped(stepped(ps, eps, dt), eps, -dt) == kicked(
        refreshed(drifted(kicked(s1, -dt), -dt), eps),
        -dt,
    ));
}

} // verus!
