//! The force field: softened pairwise Newtonian gravity.
//!
//! For each body `i` the net acceleration is `sum over j of G * m_j *
//! unit(p_j - p_i) / (|p_j - p_i|^2 + eps^2)`, with a pairing skipped when
//! the two positions are exactly equal (value equality, not index equality:
//! the skip is keyed off the positions themselves).  All arithmetic is exact
//! fixed-point integer arithmetic, so the contracts below give the result
//! bit for bit.

use vstd::prelude::*;
use vstd::arithmetic::div_mod::*;
use vstd::arithmetic::mul::*;
use crate::math::{absi, sdiv, sqrt_floor, isqrt, iabs, lemma_axis_fit, lemma_div_bounds,
    lemma_sdiv_neg, lemma_sdiv_sign, lemma_sqrt_exists};
use crate::vec3::{Vec3, V3, v3_add, v3_zero, v3_neg, v3_within};
use crate::body::{Body, Particle, models};
use rayon::iter::{IntoParallelRefMutIterator, ParallelIterator};

verus! {

/// The gravitational constant 6.6743e-11 m^3 kg^-1 s^-2 expressed in
/// fixed-point units: G multiplied by SCALE cubed.
pub const G_SCALED: u128 = 66_743_000;

/// Largest coordinate magnitude (positions, softening lengths) for which a
/// squared distance fits in 128 bits.
pub const COORD_LIMIT: i128 = 2_000_000_000_000_000_000;

/// Largest total mass for which a net acceleration fits in 128 bits.
pub const MASS_SUM_LIMIT: u128 = 2_000_000_000_000_000_000_000_000_000_000;

/// The model of a position/mass snapshot.
pub open spec fn snap_model(s: Seq<(Vec3, u128)>) -> Seq<(V3, int)> {
    s.map_values(|t: (Vec3, u128)| (t.0@, t.1 as int))
}

/// The gravity sources a body set presents: its positions and masses.
pub open spec fn sources_of(ps: Seq<Particle>) -> Seq<(V3, int)> {
    ps.map_values(|b: Particle| (b.position, b.mass))
}

pub open spec fn sq(x: int) -> int {
    x * x
}

/// Squared distance between two points, in squared fixed-point units.
pub open spec fn dist_sq(p: V3, q: V3) -> int {
    sq(q.x - p.x) + sq(q.y - p.y) + sq(q.z - p.z)
}

/// The softened magnitude `G * m / (d^2 + eps^2)` in fixed-point
/// acceleration units.
pub open spec fn softened_mag(mass: int, dsq: int, eps_sq: int) -> int {
    (G_SCALED as int) * mass / (dsq + eps_sq)
}

/// One coordinate of a contribution: the magnitude scaled along the unit
/// direction, `d * mag / len` truncated toward zero.
pub open spec fn axis_term(d: int, mag: int, len: int) -> int {
    sdiv(d * mag, len)
}

/// The acceleration a body at `p` receives from mass `mass` at `q`.  A
/// source lying exactly at `p` contributes nothing: coincident positions
/// are skipped rather than divided by.
pub open spec fn pair_accel(p: V3, q: V3, mass: int, eps_sq: int) -> V3 {
    if q == p {
        v3_zero()
    } else {
        let dsq = dist_sq(p, q);
        let len = sqrt_floor(dsq);
        let mag = softened_mag(mass, dsq, eps_sq);
        V3 {
            x: axis_term(q.x - p.x, mag, len),
            y: axis_term(q.y - p.y, mag, len),
            z: axis_term(q.z - p.z, mag, len),
        }
    }
}

/// Net acceleration at `p` from the first `k` sources.
pub open spec fn accel_prefix(srcs: Seq<(V3, int)>, p: V3, eps_sq: int, k: int) -> V3
    decreases k,
{
    if k <= 0 {
        v3_zero()
    } else {
        v3_add(
            accel_prefix(srcs, p, eps_sq, k - 1),
            pair_accel(p, srcs[k - 1].0, srcs[k - 1].1, eps_sq),
        )
    }
}

/// Net acceleration at `p` from all sources.
pub open spec fn net_accel(srcs: Seq<(V3, int)>, p: V3, eps_sq: int) -> V3 {
    accel_prefix(srcs, p, eps_sq, srcs.len() as int)
}

pub open spec fn mass_prefix(srcs: Seq<(V3, int)>, k: int) -> int
    decreases k,
{
    if k <= 0 {
        0
    } else {
        mass_prefix(srcs, k - 1) + srcs[k - 1].1
    }
}

pub open spec fn total_mass(srcs: Seq<(V3, int)>) -> int {
    mass_prefix(srcs, srcs.len() as int)
}

/// The ranges under which a force refresh is exact: softening and every
/// position coordinate within COORD_LIMIT, total mass within MASS_SUM_LIMIT.
pub open spec fn force_fits(ps: Seq<Particle>, eps: int) -> bool {
    &&& 0 <= eps <= COORD_LIMIT as int
    &&& total_mass(sources_of(ps)) <= MASS_SUM_LIMIT as int
    &&& forall|i: int|
        0 <= i < ps.len() ==> v3_within(#[trigger] ps[i].position, COORD_LIMIT as int)
}

/// The body set after a force refresh: every acceleration replaced by the
/// net softened acceleration at that body's current position; masses,
/// positions and velocities untouched.
pub open spec fn refreshed(ps: Seq<Particle>, eps: int) -> Seq<Particle> {
    ps.map_values(
        |b: Particle|
            Particle {
                mass: b.mass,
                position: b.position,
                velocity: b.velocity,
                acceleration: net_accel(sources_of(ps), b.position, eps * eps),
            },
    )
}

/// The running invariant of the simulation: every stored acceleration equals
/// the net softened acceleration at that body's current position.
pub open spec fn accel_consistent(ps: Seq<Particle>, eps: int) -> bool {
    forall|i: int|
        0 <= i < ps.len() ==> #[trigger] ps[i].acceleration == net_accel(
            sources_of(ps),
            ps[i].position,
            eps * eps,
        )
}

pub proof fn lemma_mass_prefix_nonneg(srcs: Seq<(V3, int)>, k: int)
    requires
        forall|i: int| 0 <= i < srcs.len() ==> (#[trigger] srcs[i]).1 >= 0,
        k <= srcs.len(),
    ensures
        mass_prefix(srcs, k) >= 0,
    decreases k,
{
    if k > 0 {
        lemma_mass_prefix_nonneg(srcs, k - 1);
    }
}

pub proof fn lemma_mass_prefix_mono(srcs: Seq<(V3, int)>, j: int, k: int)
    requires
        forall|i: int| 0 <= i < srcs.len() ==> (#[trigger] srcs[i]).1 >= 0,
        0 <= j <= k <= srcs.len(),
    ensures
        mass_prefix(srcs, j) <= mass_prefix(srcs, k),
    decreases k,
{
    if j < k {
        lemma_mass_prefix_mono(srcs, j, k - 1);
    }
}

/// The net softened acceleration induced at `p` by the given sources.  Each
/// body's acceleration depends only on the shared position/mass snapshot and
/// its own position, which is what makes the per-body fan-out parallel.
pub fn net_acceleration(sources: &Vec<(Vec3, u128)>, p: Vec3, eps_sq: u128) -> (r: Vec3)
    requires
        eps_sq as int <= (COORD_LIMIT as int) * (COORD_LIMIT as int),
        forall|i: int|
            0 <= i < sources@.len() ==> v3_within((#[trigger] sources@[i]).0@, COORD_LIMIT as int),
        total_mass(snap_model(sources@)) <= MASS_SUM_LIMIT as int,
        v3_within(p@, COORD_LIMIT as int),
    ensures
        r@ == net_accel(snap_model(sources@), p@, eps_sq as int),
{
    let ghost srcs = snap_model(sources@);
    proof {
        assert(forall|i: int| 0 <= i < srcs.len() ==> (#[trigger] srcs[i]).1 >= 0);
    }
    let mut ax: i128 = 0;
    let mut ay: i128 = 0;
    let mut az: i128 = 0;
    let mut k: usize = 0;
    let n = sources.len();
    while k < n
        invariant
            n == sources@.len(),
            k <= n,
            srcs == snap_model(sources@),
            eps_sq as int <= (COORD_LIMIT as int) * (COORD_LIMIT as int),
            forall|i: int|
                0 <= i < sources@.len() ==> v3_within(
                    (#[trigger] sources@[i]).0@,
                    COORD_LIMIT as int,
                ),
            total_mass(srcs) <= MASS_SUM_LIMIT as int,
            v3_within(p@, COORD_LIMIT as int),
            (V3 { x: ax as int, y: ay as int, z: az as int }) == accel_prefix(
                srcs,
                p@,
                eps_sq as int,
                k as int,
            ),
            absi(ax as int) <= (G_SCALED as int) * mass_prefix(srcs, k as int),
            absi(ay as int) <= (G_SCALED as int) * mass_prefix(srcs, k as int),
            absi(az as int) <= (G_SCALED as int) * mass_prefix(srcs, k as int),
        decreases n - k,
    {
        let src = sources[k];
        let pj = src.0;
        let mj = src.1;
        proof {
            assert(forall|i: int| 0 <= i < srcs.len() ==> (#[trigger] srcs[i]).1 >= 0);
            assert(srcs[k as int] == (pj@, mj as int));
            lemma_mass_prefix_nonneg(srcs, k as int);
            lemma_mass_prefix_mono(srcs, k as int + 1, srcs.len() as int);
            assert(mj as int <= MASS_SUM_LIMIT as int);
        }
        if pj == p {
            proof {
                assert(pair_accel(p@, pj@, mj as int, eps_sq as int) == v3_zero());
                assert(accel_prefix(srcs, p@, eps_sq as int, k as int + 1) == v3_add(
                    accel_prefix(srcs, p@, eps_sq as int, k as int),
                    v3_zero(),
                ));
            }
        } else {
            let dx = pj.x - p.x;
            let dy = pj.y - p.y;
            let dz = pj.z - p.z;
            let udx = iabs(dx);
            let udy = iabs(dy);
            let udz = iabs(dz);
            proof {
                assert((udx as int) * (udx as int) <= 16000000000000000000000000000000000000
                    && (udy as int) * (udy as int) <= 16000000000000000000000000000000000000 && (
                udz as int) * (udz as int) <= 16000000000000000000000000000000000000)
                    by (nonlinear_arith)
                    requires
                        0 <= udx as int <= 4000000000000000000 && 0 <= udy as int
                            <= 4000000000000000000 && 0 <= udz as int <= 4000000000000000000,
                ;
            }
            let dsq = udx * udx + udy * udy + udz * udz;
            proof {
                assert(sq(pj@.x - p@.x) == (udx as int) * (udx as int) && sq(pj@.y - p@.y) == (
                udy as int) * (udy as int) && sq(pj@.z - p@.z) == (udz as int) * (udz as int))
                    by (nonlinear_arith)
                    requires
                        udx as int == absi(pj@.x - p@.x) && udy as int == absi(pj@.y - p@.y)
                            && udz as int == absi(pj@.z - p@.z),
                ;
                assert(dsq as int == dist_sq(p@, pj@));
                if pj@.x == p@.x && pj@.y == p@.y && pj@.z == p@.z {
                    assert(pj == p);
                }
                assert(dsq as int >= 1) by (nonlinear_arith)
                    requires
                        dsq as int == (udx as int) * (udx as int) + (udy as int) * (udy as int) + (
                        udz as int) * (udz as int) && (udx as int >= 1 || udy as int >= 1
                            || udz as int >= 1) && udx as int >= 0 && udy as int >= 0 && udz as int
                            >= 0,
                ;
            }
            let den = dsq + eps_sq;
            let len = isqrt(dsq);
            let mag = (G_SCALED * mj) / den;
            proof {
                let a = (G_SCALED as int) * (mj as int);
                lemma_axis_fit(udx as int, dsq as int, len as int, den as int, a);
                lemma_axis_fit(udy as int, dsq as int, len as int, den as int, a);
                lemma_axis_fit(udz as int, dsq as int, len as int, den as int, a);
            }
            let tx = (udx * mag) / len;
            let ty = (udy * mag) / len;
            let tz = (udz * mag) / len;
            proof {
                let a = (G_SCALED as int) * (mj as int);
                let lenm = len as int;
                let magm = mag as int;
                let dxm = pj@.x - p@.x;
                let dym = pj@.y - p@.y;
                let dzm = pj@.z - p@.z;
                assert(magm == softened_mag(mj as int, dsq as int, eps_sq as int));
                lemma_div_bounds(a, 1, den as int);
                assert(dxm * magm == if dxm >= 0 {
                    (udx as int) * magm
                } else {
                    -((udx as int) * magm)
                }) by (nonlinear_arith)
                    requires
                        udx as int == absi(dxm) && magm >= 0,
                ;
                assert(dym * magm == if dym >= 0 {
                    (udy as int) * magm
                } else {
                    -((udy as int) * magm)
                }) by (nonlinear_arith)
                    requires
                        udy as int == absi(dym) && magm >= 0,
                ;
                assert(dzm * magm == if dzm >= 0 {
                    (udz as int) * magm
                } else {
                    -((udz as int) * magm)
                }) by (nonlinear_arith)
                    requires
                        udz as int == absi(dzm) && magm >= 0,
                ;
                lemma_sdiv_neg((udx as int) * magm, lenm);
                lemma_sdiv_neg((udy as int) * magm, lenm);
                lemma_sdiv_neg((udz as int) * magm, lenm);
                lemma_mul_nonnegative((udx as int), magm);
                lemma_mul_nonnegative((udy as int), magm);
                lemma_mul_nonnegative((udz as int), magm);
                assert(axis_term(dxm, magm, lenm) == if dxm >= 0 {
                    tx as int
                } else {
                    -(tx as int)
                });
                assert(axis_term(dym, magm, lenm) == if dym >= 0 {
                    ty as int
                } else {
                    -(ty as int)
                });
                assert(axis_term(dzm, magm, lenm) == if dzm >= 0 {
                    tz as int
                } else {
                    -(tz as int)
                });
                assert(tx as int <= magm && ty as int <= magm && tz as int <= magm);
                assert(magm <= a);
                lemma_mass_prefix_nonneg(srcs, k as int);
                assert((G_SCALED as int) * mass_prefix(srcs, k as int + 1) == (G_SCALED as int)
                    * mass_prefix(srcs, k as int) + (G_SCALED as int) * (mj as int))
                    by (nonlinear_arith)
                    requires
                        mass_prefix(srcs, k as int + 1) == mass_prefix(srcs, k as int) + (
                        mj as int),
                ;
                assert((G_SCALED as int) * mass_prefix(srcs, k as int + 1) <= (G_SCALED as int)
                    * total_mass(srcs)) by (nonlinear_arith)
                    requires
                        mass_prefix(srcs, k as int + 1) <= total_mass(srcs),
                ;
            }
            ax = if dx >= 0 {
                ax + (tx as i128)
            } else {
                ax - (tx as i128)
            };
            ay = if dy >= 0 {
                ay + (ty as i128)
            } else {
                ay - (ty as i128)
            };
            az = if dz >= 0 {
                az + (tz as i128)
            } else {
                az - (tz as i128)
            };
            proof {
                assert(V3 { x: ax as int, y: ay as int, z: az as int } == accel_prefix(
                    srcs,
                    p@,
                    eps_sq as int,
                    k as int + 1,
                ));
            }
        }
        k = k + 1;
    }
    Vec3 { x: ax, y: ay, z: az }
}

/// Refreshes every body's acceleration from the shared snapshot, fanning the
/// per-body computations out over a worker pool.
///
/// Relies on rayon: `par_iter_mut().for_each` runs the closure exactly once
/// on each element, with exclusive access to that element and a join barrier
/// before returning.  The closure only calls this crate's verified
/// `net_acceleration` on the read-only snapshot and stores its result, so
/// the outcome is the same as the sequential loop — exact integer
/// arithmetic leaves no room for reassociation differences.
#[verifier::external_body]
fn refresh_in_parallel(bodies: &mut Vec<Body>, sources: &Vec<(Vec3, u128)>, eps_sq: u128)
    requires
        eps_sq as int <= (COORD_LIMIT as int) * (COORD_LIMIT as int),
        forall|i: int|
            0 <= i < sources@.len() ==> v3_within((#[trigger] sources@[i]).0@, COORD_LIMIT as int),
        total_mass(snap_model(sources@)) <= MASS_SUM_LIMIT as int,
        forall|i: int|
            0 <= i < old(bodies)@.len() ==> v3_within(
                (#[trigger] old(bodies)@[i]).position@,
                COORD_LIMIT as int,
            ),
    ensures
        final(bodies)@.len() == old(bodies)@.len(),
        forall|i: int|
            0 <= i < final(bodies)@.len() ==> (#[trigger] final(bodies)@[i]).mass
                == old(bodies)@[i].mass
                && final(bodies)@[i].position == old(bodies)@[i].position
                && final(bodies)@[i].velocity == old(bodies)@[i].velocity
                && final(bodies)@[i].acceleration@
                == net_accel(snap_model(sources@), old(bodies)@[i].position@, eps_sq as int),
{
    bodies.par_iter_mut().for_each(|b| {
        b.acceleration = net_acceleration(sources, b.position, eps_sq);
    });
}

/// Overwrites every body's acceleration with the net softened acceleration
/// from all bodies at their current positions; masses, positions and
/// velocities are untouched.
pub fn update_accelerations(bodies: &mut Vec<Body>, softening_factor: i128)
    requires
        force_fits(models(old(bodies)@), softening_factor as int),
    ensures
        final(bodies)@.len() == old(bodies)@.len(),
        models(final(bodies)@) == refreshed(models(old(bodies)@), softening_factor as int),
{
    let eps = softening_factor as u128;
    proof {
        assert((eps as int) * (eps as int) <= (COORD_LIMIT as int) * (COORD_LIMIT as int))
            by (nonlinear_arith)
            requires
                0 <= eps as int <= COORD_LIMIT as int,
        ;
    }
    let eps_sq = eps * eps;
    let mut snapshot: Vec<(Vec3, u128)> = Vec::new();
    let mut k: usize = 0;
    let n = bodies.len();
    while k < n
        invariant
            n == bodies@.len(),
            k <= n,
            bodies@ == old(bodies)@,
            snapshot@.len() == k as int,
            forall|i: int|
                0 <= i < k as int ==> #[trigger] snapshot@[i] == (
                    bodies@[i].position,
                    bodies@[i].mass,
                ),
        decreases n - k,
    {
        let pos = bodies[k].position;
        let m = bodies[k].mass;
        snapshot.push((pos, m));
        k = k + 1;
    }
    proof {
        assert forall|i: int| 0 <= i < n as int implies snap_model(snapshot@)[i] == sources_of(
            models(old(bodies)@),
        )[i] by {
            assert(snapshot@[i] == (bodies@[i].position, bodies@[i].mass));
            assert(models(old(bodies)@)[i] == old(bodies)@[i]@);
        }
        assert(snap_model(snapshot@) =~= sources_of(models(old(bodies)@)));
        assert forall|i: int| 0 <= i < snapshot@.len() implies v3_within(
            (#[trigger] snapshot@[i]).0@,
            COORD_LIMIT as int,
        ) by {
            assert(models(old(bodies)@)[i] == old(bodies)@[i]@);
            assert(v3_within(models(old(bodies)@)[i].position, COORD_LIMIT as int));
            assert(snapshot@[i].0 == old(bodies)@[i].position);
        }
        assert forall|i: int| 0 <= i < bodies@.len() implies v3_within(
            (#[trigger] bodies@[i]).position@,
            COORD_LIMIT as int,
        ) by {
            assert(models(old(bodies)@)[i] == old(bodies)@[i]@);
            assert(v3_within(models(old(bodies)@)[i].position, COORD_LIMIT as int));
        }
    }
    refresh_in_parallel(bodies, &snapshot, eps_sq);
    proof {
        let old_ps = models(old(bodies)@);
        let sf = softening_factor as int;
        assert forall|i: int| 0 <= i < bodies@.len() implies models(bodies@)[i] == refreshed(
            old_ps,
            sf,
        )[i] by {
            assert(models(bodies@)[i] == bodies@[i]@);
            assert(refreshed(old_ps, sf)[i] == Particle {
                acceleration: net_accel(sources_of(old_ps), old_ps[i].position, sf * sf),
                ..old_ps[i]
            });
        }
        assert(models(bodies@) =~= refreshed(old_ps, sf));
    }
}

/// A source at `q` pulls a body at `p` exactly opposite to how the same mass
/// at `p` pulls a body at `q`.
pub proof fn lemma_pair_antisym(p: V3, q: V3, mass: int, eps_sq: int)
    requires
        p != q,
    ensures
        pair_accel(p, q, mass, eps_sq) == v3_neg(pair_accel(q, p, mass, eps_sq)),
{
    assert((q.x - p.x) * (q.x - p.x) == (p.x - q.x) * (p.x - q.x) && (q.y - p.y) * (q.y - p.y) == (
    p.y - q.y) * (p.y - q.y) && (q.z - p.z) * (q.z - p.z) == (p.z - q.z) * (p.z - q.z))
        by (nonlinear_arith);
    assert(dist_sq(p, q) == dist_sq(q, p));
    let dsq = dist_sq(p, q);
    assert(dsq >= 1) by (nonlinear_arith)
        requires
            dsq == (q.x - p.x) * (q.x - p.x) + (q.y - p.y) * (q.y - p.y) + (q.z - p.z) * (q.z
                - p.z) && (q.x != p.x || q.y != p.y || q.z != p.z),
    ;
    lemma_sqrt_exists(dsq);
    let len = sqrt_floor(dsq);
    assert(len >= 1) by (nonlinear_arith)
        requires
            0 <= len && 1 <= dsq && dsq < (len + 1) * (len + 1),
    ;
    let mag = softened_mag(mass, dsq, eps_sq);
    assert((p.x - q.x) * mag == -((q.x - p.x) * mag) && (p.y - q.y) * mag == -((q.y - p.y) * mag)
        && (p.z - q.z) * mag == -((q.z - p.z) * mag)) by (nonlinear_arith);
    lemma_sdiv_neg((q.x - p.x) * mag, len);
    lemma_sdiv_neg((q.y - p.y) * mag, len);
    lemma_sdiv_neg((q.z - p.z) * mag, len);
}

/// Newton's third law for a two-body set of equal masses: the two net
/// accelerations are exact negations of each other.  (For unequal masses
/// the forces are opposite but the accelerations differ by the mass ratio,
/// and truncation applies to each acceleration separately.)
pub proof fn lemma_two_body_symmetry(ps: Seq<Particle>, eps_sq: int)
    requires
        ps.len() == 2,
        ps[0].mass == ps[1].mass,
        ps[0].position != ps[1].position,
    ensures
        net_accel(sources_of(ps), ps[0].position, eps_sq) == v3_neg(
            net_accel(sources_of(ps), ps[1].position, eps_sq),
        ),
{
    let srcs = sources_of(ps);
    let p0 = ps[0].position;
    let p1 = ps[1].position;
    assert(srcs[0] == (p0, ps[0].mass));
    assert(srcs[1] == (p1, ps[1].mass));
    assert(pair_accel(p0, p0, ps[0].mass, eps_sq) == v3_zero());
    assert(pair_accel(p1, p1, ps[1].mass, eps_sq) == v3_zero());
    lemma_pair_antisym(p0, p1, ps[1].mass, eps_sq);
    assert(accel_prefix(srcs, p0, eps_sq, 0) == v3_zero());
    assert(accel_prefix(srcs, p0, eps_sq, 1) == v3_add(v3_zero(), pair_accel(p0, p0, ps[0].mass, eps_sq)));
    assert(accel_prefix(srcs, p0, eps_sq, 2) == v3_add(
        accel_prefix(srcs, p0, eps_sq, 1),
        pair_accel(p0, p1, ps[1].mass, eps_sq),
    ));
    assert(accel_prefix(srcs, p1, eps_sq, 0) == v3_zero());
    assert(accel_prefix(srcs, p1, eps_sq, 1) == v3_add(v3_zero(), pair_accel(p1, p0, ps[0].mass, eps_sq)));
    assert(accel_prefix(srcs, p1, eps_sq, 2) == v3_add(
        accel_prefix(srcs, p1, eps_sq, 1),
        pair_accel(p1, p1, ps[1].mass, eps_sq),
    ));
    assert(net_accel(srcs, p0, eps_sq) == pair_accel(p0, p1, ps[1].mass, eps_sq));
    assert(net_accel(srcs, p1, eps_sq) == pair_accel(p1, p0, ps[0].mass, eps_sq));
}

/// Newton's third law in direction, for any positive masses: in a two-body
/// set the net accelerations point opposite ways, coordinate by coordinate
/// (their product is never positive).  Their magnitudes differ by the mass
/// ratio, each truncated separately.
pub proof fn lemma_two_body_opposite_direction(ps: Seq<Particle>, eps_sq: int)
    requires
        ps.len() == 2,
        ps[0].mass >= 0,
        ps[1].mass >= 0,
        eps_sq >= 0,
        ps[0].position != ps[1].position,
    ensures
        net_accel(sources_of(ps), ps[0].position, eps_sq).x * net_accel(
            sources_of(ps),
            ps[1].position,
            eps_sq,
        ).x <= 0,
        net_accel(sources_of(ps), ps[0].position, eps_sq).y * net_accel(
            sources_of(ps),
            ps[1].position,
            eps_sq,
        ).y <= 0,
        net_accel(sources_of(ps), ps[0].position, eps_sq).z * net_accel(
            sources_of(ps),
            ps[1].position,
            eps_sq,
        ).z <= 0,
{
    let srcs = sources_of(ps);
    let p0 = ps[0].position;
    let p1 = ps[1].position;
    let m0 = ps[0].mass;
    let m1 = ps[1].mass;
    assert(srcs[0] == (p0, m0));
    assert(srcs[1] == (p1, m1));
    assert(pair_accel(p0, p0, m0, eps_sq) == v3_zero());
    assert(pair_accel(p1, p1, m1, eps_sq) == v3_zero());
    assert(accel_prefix(srcs, p0, eps_sq, 0) == v3_zero());
    assert(accel_prefix(srcs, p0, eps_sq, 1) == v3_add(v3_zero(), pair_accel(p0, p0, m0, eps_sq)));
    assert(accel_prefix(srcs, p0, eps_sq, 2) == v3_add(
        accel_prefix(srcs, p0, eps_sq, 1),
        pair_accel(p0, p1, m1, eps_sq),
    ));
    assert(accel_prefix(srcs, p1, eps_sq, 0) == v3_zero());
    assert(accel_prefix(srcs, p1, eps_sq, 1) == v3_add(v3_zero(), pair_accel(p1, p0, m0, eps_sq)));
    assert(accel_prefix(srcs, p1, eps_sq, 2) == v3_add(
        accel_prefix(srcs, p1, eps_sq, 1),
        pair_accel(p1, p1, m1, eps_sq),
    ));
    let a0 = net_accel(srcs, p0, eps_sq);
    let a1 = net_accel(srcs, p1, eps_sq);
    assert(a0 == pair_accel(p0, p1, m1, eps_sq));
    assert(a1 == pair_accel(p1, p0, m0, eps_sq));
    assert((p1.x - p0.x) * (p1.x - p0.x) == (p0.x - p1.x) * (p0.x - p1.x) && (p1.y - p0.y) * (p1.y
        - p0.y) == (p0.y - p1.y) * (p0.y - p1.y) && (p1.z - p0.z) * (p1.z - p0.z) == (p0.z - p1.z)
        * (p0.z - p1.z)) by (nonlinear_arith);
    assert(dist_sq(p0, p1) == dist_sq(p1, p0));
    let dsq = dist_sq(p0, p1);
    assert(dsq >= 1) by (nonlinear_arith)
        requires
            dsq == (p1.x - p0.x) * (p1.x - p0.x) + (p1.y - p0.y) * (p1.y - p0.y) + (p1.z - p0.z)
                * (p1.z - p0.z) && (p1.x != p0.x || p1.y != p0.y || p1.z != p0.z),
    ;
    lemma_sqrt_exists(dsq);
    let len = sqrt_floor(dsq);
    assert(len >= 1) by (nonlinear_arith)
        requires
            0 <= len && 1 <= dsq && dsq < (len + 1) * (len + 1),
    ;
    let mag0 = softened_mag(m0, dsq, eps_sq);
    let mag1 = softened_mag(m1, dsq, eps_sq);
    lemma_mul_nonnegative(G_SCALED as int, m0);
    lemma_mul_nonnegative(G_SCALED as int, m1);
    lemma_div_bounds((G_SCALED as int) * m0, 1, dsq + eps_sq);
    lemma_div_bounds((G_SCALED as int) * m1, 1, dsq + eps_sq);
    lemma_axis_sign_opposition(p1.x - p0.x, mag0, mag1, len);
    lemma_axis_sign_opposition(p1.y - p0.y, mag0, mag1, len);
    lemma_axis_sign_opposition(p1.z - p0.z, mag0, mag1, len);
}

/// Along one axis, the terms the two bodies of a pair receive have opposite
/// signs (or are zero), whatever the two magnitudes are.
pub proof fn lemma_axis_sign_opposition(d: int, mag0: int, mag1: int, len: int)
    requires
        len >= 1,
        mag0 >= 0,
        mag1 >= 0,
    ensures
        axis_term(d, mag1, len) * axis_term(-d, mag0, len) <= 0,
{
    lemma_sdiv_sign(d * mag1, len);
    lemma_sdiv_sign((-d) * mag0, len);
    if d >= 0 {
        assert(d * mag1 >= 0 && (-d) * mag0 <= 0) by (nonlinear_arith)
            requires
                d >= 0 && mag0 >= 0 && mag1 >= 0,
        ;
    } else {
        assert(d * mag1 <= 0 && (-d) * mag0 >= 0) by (nonlinear_arith)
            requires
                d < 0 && mag0 >= 0 && mag1 >= 0,
        ;
    }
    let t0 = axis_term(d, mag1, len);
    let t1 = axis_term(-d, mag0, len);
    assert(t0 * t1 <= 0) by (nonlinear_arith)
        requires
            (t0 >= 0 && t1 <= 0) || (t0 <= 0 && t1 >= 0),
    ;
}

/// A single-body system exerts no force on itself: its net acceleration is
/// the zero vector.
pub proof fn lemma_single_body_zero(ps: Seq<Particle>, eps_sq: int)
    requires
        ps.len() == 1,
    ensures
        net_accel(sources_of(ps), ps[0].position, eps_sq) == v3_zero(),
{
    let srcs = sources_of(ps);
    assert(srcs[0] == (ps[0].position, ps[0].mass));
    assert(pair_accel(ps[0].position, ps[0].position, ps[0].mass, eps_sq) == v3_zero());
    assert(accel_prefix(srcs, ps[0].position, eps_sq, 0) == v3_zero());
    assert(net_accel(srcs, ps[0].position, eps_sq) == v3_add(
        v3_zero(),
        pair_accel(ps[0].position, ps[0].position, ps[0].mass, eps_sq),
    ));
}

/// The softening bound: however small the separation, the softened magnitude
/// never exceeds `G * m / eps^2` — the force stays finite for eps >= 1, and
/// reaches exactly that value in the coincident limit.
pub proof fn lemma_softening_bound(mass: int, dsq: int, eps: int)
    requires
        mass >= 0,
        dsq >= 0,
        1 <= eps,
    ensures
        0 <= softened_mag(mass, dsq, eps * eps) <= (G_SCALED as int) * mass / (eps * eps),
        softened_mag(mass, 0, eps * eps) == (G_SCALED as int) * mass / (eps * eps),
{
    assert(1 <= eps * eps) by (nonlinear_arith)
        requires
            1 <= eps,
    ;
    lemma_mul_nonnegative(G_SCALED as int, mass);
    lemma_div_bounds((G_SCALED as int) * mass, eps * eps, dsq + eps * eps);
}

} // verus!
