//! One simulation frame: attractor, then motion, then collisions.
use vstd::prelude::*;
use crate::collision::{collision, each_pair_once, resolved};
use crate::gravity::{abs, gravity, gravity_delta, gravity_step, in_dead_zone, norm2};
use crate::motion::{displacement, motion_step, movement};
use crate::fixed::{in_range, MICROS_PER_SECOND};
use crate::particle::{Particle, all_wf};

verus! {

/// The particle set after the attractor and motion passes of a frame of
/// `dt` microseconds.
pub open spec fn moved(ps: Seq<Particle>, dt: int) -> Seq<Particle> {
    Seq::new(ps.len(), |i: int| motion_step(gravity_step(ps[i], dt), dt))
}

/// Runs one frame of `dt` microseconds over the particle set, the passes in
/// their fixed order, each seeing the previous one's result.
pub fn step(particles: &mut Vec<Particle>, dt: u32)
    requires
        all_wf(old(particles)@),
    ensures
        exists|pairs: Seq<(usize, usize)>|
            each_pair_once(pairs, old(particles)@.len() as int) && #[trigger] resolved(
                moved(old(particles)@, dt as int),
                pairs,
            ) == final(particles)@,
        all_wf(final(particles)@),
{
    let ghost start = particles@;
    gravity(particles, dt);
    movement(particles, dt);
    assert(particles@ =~= moved(start, dt as int));
    collision(particles);
}

/// A step `delta` against the sign of `c`, and no longer than `2 * |c|`,
/// does not move `c` away from zero; it moves it strictly closer when it is
/// nonzero and shorter than `2 * |c|`.
proof fn lemma_step_toward_zero(c: int, delta: int)
    requires
        delta * c <= 0,
        abs(delta) <= 2 * abs(c),
    ensures
        (c + delta) * (c + delta) <= c * c,
        delta != 0 && abs(delta) < 2 * abs(c) ==> (c + delta) * (c + delta) < c * c,
{
    assert((c + delta) * (c + delta) == c * c + delta * (2 * c + delta)) by (nonlinear_arith);
    if delta > 0 {
        assert(c <= 0) by (nonlinear_arith) requires delta > 0, delta * c <= 0;
        assert(delta * (2 * c + delta) <= 0) by (nonlinear_arith) requires delta > 0, delta <= -2 * c;
        if delta < -2 * c {
            assert(delta * (2 * c + delta) < 0) by (nonlinear_arith) requires delta > 0, delta < -2 * c;
        }
    } else if delta < 0 {
        assert(c >= 0) by (nonlinear_arith) requires delta < 0, delta * c <= 0;
        assert(delta * (2 * c + delta) <= 0) by (nonlinear_arith) requires delta < 0, -delta <= 2 * c;
        if -delta < 2 * c {
            assert(delta * (2 * c + delta) < 0) by (nonlinear_arith) requires delta < 0, -delta < 2 * c;
        }
    } else {
        assert(delta * (2 * c + delta) == 0) by (nonlinear_arith) requires delta == 0;
    }
}

/// The displacement over a frame keeps the sign of the velocity.
proof fn lemma_displacement_sign(v: int, c: int, dt: int)
    requires
        v * c <= 0,
        dt > 0,
    ensures
        displacement(v, dt) * c <= 0,
{
    let n = v * dt;
    crate::fixed::lemma_tdiv_bounds(n, MICROS_PER_SECOND as int);
    let d = displacement(v, dt);
    if v > 0 {
        assert(n > 0) by (nonlinear_arith) requires v > 0, dt > 0, n == v * dt;
        assert(c <= 0) by (nonlinear_arith) requires v > 0, v * c <= 0;
        assert(d * c <= 0) by (nonlinear_arith) requires d >= 0, c <= 0;
    } else if v < 0 {
        assert(n < 0) by (nonlinear_arith) requires v < 0, dt > 0, n == v * dt;
        assert(c >= 0) by (nonlinear_arith) requires v < 0, v * c <= 0;
        assert(d * c <= 0) by (nonlinear_arith) requires d <= 0, c >= 0;
    } else {
        assert(n == 0) by (nonlinear_arith) requires v == 0, n == v * dt;
        assert(d * c == 0) by (nonlinear_arith) requires d == 0;
    }
}

/// A particle at rest outside the dead zone, over a frame short enough
/// that its step does not carry it past the origin on either axis, ends the
/// attractor and motion passes no farther from the origin, and strictly
/// closer whenever it moves.
pub proof fn lemma_falls_from_rest(p: Particle, dt: int)
    requires
        p.wf(),
        dt > 0,
        p.velocity.0.x == 0,
        p.velocity.0.y == 0,
        !in_dead_zone(p.position),
        in_range(gravity_delta(p.position, dt).0),
        in_range(gravity_delta(p.position, dt).1),
        abs(displacement(gravity_delta(p.position, dt).0, dt)) < 2 * abs(p.position.x as int)
            || displacement(gravity_delta(p.position, dt).0, dt) == 0,
        abs(displacement(gravity_delta(p.position, dt).1, dt)) < 2 * abs(p.position.y as int)
            || displacement(gravity_delta(p.position, dt).1, dt) == 0,
    ensures
        norm2(motion_step(gravity_step(p, dt), dt).position) <= norm2(p.position),
        motion_step(gravity_step(p, dt), dt).position != p.position ==> norm2(
            motion_step(gravity_step(p, dt), dt).position,
        ) < norm2(p.position),
{
    let x = p.position.x as int;
    let y = p.position.y as int;
    let (vx, vy) = gravity_delta(p.position, dt);
    crate::gravity::lemma_delta_inward(p.position, dt);
    let g = gravity_step(p, dt);
    assert(g.velocity.0.x == vx && g.velocity.0.y == vy);
    assert(g.position == p.position);
    lemma_displacement_sign(vx, x, dt);
    lemma_displacement_sign(vy, y, dt);
    let dx = displacement(vx, dt);
    let dy = displacement(vy, dt);
    lemma_step_toward_zero(x, dx);
    lemma_step_toward_zero(y, dy);
}

} // verus!
