//! The central attractor at the origin.
use vstd::prelude::*;
use crate::fixed::{Vec2, in_range, tdiv, div_toward_zero, LIMIT};
use crate::particle::{Particle, all_wf};

verus! {

/// Strength of the attractor: the pull at distance `d` is `GRAVITY / d`.
pub const GRAVITY: i128 = 1000;

/// Square of the dead-zone radius (half a world unit) around the attractor.
pub const DEAD_ZONE_SQUARED: i128 = 250_000;

pub open spec fn norm2(v: Vec2) -> int {
    v.x * v.x + v.y * v.y
}

/// Closer to the origin than the dead-zone radius: no pull applies.
pub open spec fn in_dead_zone(p: Vec2) -> bool {
    norm2(p) < DEAD_ZONE_SQUARED
}

/// Change of one velocity component over `dt` microseconds, for the position
/// component `c` at squared distance `q`: `-c / d * (GRAVITY / d) * dt`,
/// rounded toward zero.
pub open spec fn pull(c: int, q: int, dt: int) -> int {
    tdiv(-c * GRAVITY * dt, q)
}

pub open spec fn abs(c: int) -> int {
    if c >= 0 { c } else { -c }
}

pub open spec fn sign(c: int) -> int {
    if c > 0 { 1 } else if c < 0 { -1 } else { 0 }
}

/// The change of velocity over `dt` microseconds at position `p`: the pull
/// rounded toward zero on each axis, so it never exceeds the exact pull;
/// where both components round to nothing over a frame of positive length,
/// one unit toward the origin along the axis farther from it.
pub open spec fn gravity_delta(p: Vec2, dt: int) -> (int, int) {
    let q = norm2(p);
    let tx = pull(p.x as int, q, dt);
    let ty = pull(p.y as int, q, dt);
    if tx == 0 && ty == 0 && dt > 0 {
        if abs(p.x as int) >= abs(p.y as int) {
            (-sign(p.x as int), 0)
        } else {
            (0, -sign(p.y as int))
        }
    } else {
        (tx, ty)
    }
}

/// The particle after the attractor has acted on it for `dt` microseconds.
/// Inside the dead zone, or where the new velocity would leave the
/// representable range, the particle is left as it was.
pub open spec fn gravity_step(p: Particle, dt: int) -> Particle {
    let vx = p.velocity.0.x + gravity_delta(p.position, dt).0;
    let vy = p.velocity.0.y + gravity_delta(p.position, dt).1;
    if in_dead_zone(p.position) || !in_range(vx) || !in_range(vy) {
        p
    } else {
        p.with_velocity(vx, vy)
    }
}

proof fn lemma_pull_fits(c: int, dt: int)
    requires
        in_range(c),
        0 <= dt <= u32::MAX,
    ensures
        -0x1_0000_0000_0000_0000_0000_0000_0000_00 <= -c * GRAVITY * dt
            <= 0x1_0000_0000_0000_0000_0000_0000_0000_00,
{
    assert(-c * GRAVITY * dt <= LIMIT * 1000 * 0x1_0000_0000 && -c * GRAVITY * dt >= -(LIMIT * 1000
        * 0x1_0000_0000)) by (nonlinear_arith)
        requires
            -LIMIT <= c <= LIMIT,
            0 <= dt <= 0x1_0000_0000,
            GRAVITY == 1000,
    ;
}

/// Applies the attractor's pull to one particle.
pub fn apply_gravity(p: &mut Particle, dt: u32)
    requires
        old(p).wf(),
    ensures
        *final(p) == gravity_step(*old(p), dt as int),
        final(p).wf(),
{
    let x = p.position.x as i128;
    let y = p.position.y as i128;
    assert(0 <= x * x <= 10_000_000_000_000_000_000_000_000_000 && 0 <= y * y
        <= 10_000_000_000_000_000_000_000_000_000) by (nonlinear_arith)
        requires
            -100_000_000_000_000 <= x <= 100_000_000_000_000,
            -100_000_000_000_000 <= y <= 100_000_000_000_000,
    ;
    let q: i128 = x * x + y * y;
    if q < DEAD_ZONE_SQUARED {
        return;
    }
    proof {
        lemma_pull_fits(x as int, dt as int);
        lemma_pull_fits(y as int, dt as int);
    }
    let t = dt as i128;
    let mut gx = div_toward_zero(-x * GRAVITY * t, q);
    let mut gy = div_toward_zero(-y * GRAVITY * t, q);
    if gx == 0 && gy == 0 && dt > 0 {
        let ax: i128 = if x >= 0 { x } else { -x };
        let ay: i128 = if y >= 0 { y } else { -y };
        if ax >= ay {
            gx = if x > 0 { -1 } else if x < 0 { 1 } else { 0 };
        } else {
            gy = if y > 0 { -1 } else if y < 0 { 1 } else { 0 };
        }
    }
    proof { crate::fixed::lemma_tdiv_bounds(-x * GRAVITY * t, q as int); crate::fixed::lemma_tdiv_bounds(-y * GRAVITY * t, q as int); }
    let vx = p.velocity.0.x as i128 + gx;
    let vy = p.velocity.0.y as i128 + gy;
    if vx < -(LIMIT as i128) || vx > LIMIT as i128 || vy < -(LIMIT as i128) || vy > LIMIT as i128 {
        return;
    }
    p.velocity = crate::particle::Velocity(Vec2 { x: vx as i64, y: vy as i64 });
}

/// One frame of the attractor over the whole particle set.
pub fn gravity(particles: &mut Vec<Particle>, dt: u32)
    requires
        all_wf(old(particles)@),
    ensures
        final(particles)@.len() == old(particles)@.len(),
        forall|i: int|
            0 <= i < old(particles)@.len() ==> #[trigger] final(particles)@[i] == gravity_step(
                old(particles)@[i],
                dt as int,
            ),
        all_wf(final(particles)@),
{
    let n = particles.len();
    let mut i: usize = 0;
    while i < n
        invariant
            n == particles@.len(),
            n == old(particles)@.len(),
            0 <= i <= n,
            forall|k: int| 0 <= k < i ==> #[trigger] particles@[k] == gravity_step(old(particles)@[k], dt as int),
            forall|k: int| i <= k < n ==> #[trigger] particles@[k] == old(particles)@[k],
            all_wf(particles@),
        decreases n - i,
    {
        let mut p = particles[i];
        assert(p.wf());
        apply_gravity(&mut p, dt);
        particles[i] = p;
        i += 1;
    }
}

/// Speed toward the origin, scaled by the distance: `-(v . p)`.
pub open spec fn inward(p: Particle) -> int {
    -(p.velocity.0.x * p.position.x + p.velocity.0.y * p.position.y)
}

/// The pull on a component never points away from the origin; where it is
/// nonzero it points toward it.
proof fn lemma_pull_inward(c: int, q: int, dt: int)
    requires
        q > 0,
        dt >= 0,
    ensures
        c * pull(c, q, dt) <= 0,
        pull(c, q, dt) != 0 ==> c * pull(c, q, dt) < 0,
        q * abs(pull(c, q, dt)) <= abs(c) * (GRAVITY * dt),
{
    let a = c * GRAVITY * dt;
    assert(-c * GRAVITY * dt == -a) by (nonlinear_arith) requires a == c * GRAVITY * dt;
    crate::fixed::lemma_tdiv_bounds(-a, q);
    let t = pull(c, q, dt);
    if c > 0 {
        assert(a >= 0) by (nonlinear_arith) requires c > 0, dt >= 0, GRAVITY == 1000, a == c * GRAVITY * dt;
        assert(c * t <= 0) by (nonlinear_arith) requires c > 0, t <= 0;
        assert(t != 0 ==> c * t < 0) by (nonlinear_arith) requires c > 0, t <= 0;
        assert(abs(c) * (GRAVITY * dt) == a) by (nonlinear_arith) requires c > 0, a == c * GRAVITY * dt;
        assert(q * abs(t) <= a) by (nonlinear_arith) requires t <= 0, abs(t) == -t, q * t >= -a;
    } else if c < 0 {
        assert(a <= 0) by (nonlinear_arith) requires c < 0, dt >= 0, GRAVITY == 1000, a == c * GRAVITY * dt;
        assert(c * t <= 0) by (nonlinear_arith) requires c < 0, t >= 0;
        assert(t != 0 ==> c * t < 0) by (nonlinear_arith) requires c < 0, t >= 0;
        assert(abs(c) * (GRAVITY * dt) == -a) by (nonlinear_arith) requires c < 0, a == c * GRAVITY * dt;
        assert(q * abs(t) <= -a) by (nonlinear_arith) requires t >= 0, abs(t) == t, q * t <= -a;
    } else {
        assert(a == 0) by (nonlinear_arith) requires c == 0, a == c * GRAVITY * dt;
        assert(t == 0);
        assert(c * t == 0 && abs(c) * (GRAVITY * dt) == 0 && q * abs(t) == 0) by (nonlinear_arith) requires c == 0, t == 0;
    }
}

/// The change of velocity never points away from the origin, and over a
/// frame of positive length it points strictly toward it.
pub proof fn lemma_delta_inward(p: Vec2, dt: int)
    requires
        !in_dead_zone(p),
        dt >= 0,
    ensures
        gravity_delta(p, dt).0 * p.x <= 0,
        gravity_delta(p, dt).1 * p.y <= 0,
        dt > 0 ==> gravity_delta(p, dt).0 * p.x + gravity_delta(p, dt).1 * p.y < 0,
{
    let q = norm2(p);
    let x = p.x as int;
    let y = p.y as int;
    assert(x != 0 || y != 0) by {
        if x == 0 && y == 0 {
            assert(q == 0);
        }
    }
    lemma_pull_inward(x, q, dt);
    lemma_pull_inward(y, q, dt);
    let tx = pull(x, q, dt);
    let ty = pull(y, q, dt);
    if tx == 0 && ty == 0 && dt > 0 {
        assert(tx * x == 0 && ty * y == 0) by (nonlinear_arith) requires tx == 0, ty == 0;
        if abs(x) >= abs(y) {
            assert(-sign(x) * x < 0 && 0 * y == 0) by (nonlinear_arith) requires x != 0, sign(x) == (if x > 0 { 1int } else { -1int });
        } else {
            assert(-sign(y) * y < 0 && 0 * x == 0) by (nonlinear_arith) requires y != 0, sign(y) == (if y > 0 { 1int } else { -1int });
        }
    } else if dt > 0 {
        assert(tx != 0 || ty != 0);
    }
}

proof fn lemma_abs_square(v: int)
    ensures
        v * v == abs(v) * abs(v),
{
    if v < 0 {
        assert(v * v == (-v) * (-v)) by (nonlinear_arith);
    }
}

/// The change of velocity never exceeds the exact pull `GRAVITY * dt / d`,
/// except for the single unit step that keeps a pull below the fixed-point
/// scale from being lost. Outside the dead zone the exact pull is at most
/// `GRAVITY * dt / 500`, so the change is bounded by `2 * dt` when `dt > 0`.
pub proof fn lemma_delta_capped(p: Vec2, dt: int)
    requires
        !in_dead_zone(p),
        dt >= 0,
    ensures
        ({
            let (gx, gy) = gravity_delta(p, dt);
            norm2(p) * (gx * gx + gy * gy) <= (GRAVITY * dt) * (GRAVITY * dt) || gx * gx + gy * gy
                == 1
        }),
{
    let q = norm2(p);
    let x = p.x as int;
    let y = p.y as int;
    let k = GRAVITY * dt;
    lemma_pull_inward(x, q, dt);
    lemma_pull_inward(y, q, dt);
    let tx = pull(x, q, dt);
    let ty = pull(y, q, dt);
    if tx == 0 && ty == 0 && dt > 0 {
        let g = gravity_delta(p, dt);
        if abs(x) >= abs(y) {
            assert(x != 0) by {
                if x == 0 {
                    assert(y == 0);
                    assert(q == 0);
                }
            }
            assert(g.0 * g.0 + g.1 * g.1 == 1) by (nonlinear_arith)
                requires g.0 == 1 || g.0 == -1, g.1 == 0;
        } else {
            assert(y != 0);
            assert(g.0 * g.0 + g.1 * g.1 == 1) by (nonlinear_arith)
                requires g.1 == 1 || g.1 == -1, g.0 == 0;
        }
    } else {
        assert(gravity_delta(p, dt) == (tx, ty));
        lemma_abs_square(tx);
        lemma_abs_square(ty);
        lemma_abs_square(x);
        lemma_abs_square(y);
        assert(q * q * (tx * tx) <= x * x * (k * k)) by (nonlinear_arith)
            requires
                q * abs(tx) <= abs(x) * k,
                q > 0,
                k >= 0,
                abs(tx) >= 0,
                tx * tx == abs(tx) * abs(tx),
                x * x == abs(x) * abs(x),
        ;
        assert(q * q * (ty * ty) <= y * y * (k * k)) by (nonlinear_arith)
            requires
                q * abs(ty) <= abs(y) * k,
                q > 0,
                k >= 0,
                abs(ty) >= 0,
                ty * ty == abs(ty) * abs(ty),
                y * y == abs(y) * abs(y),
        ;
        assert(q * (tx * tx + ty * ty) <= k * k) by (nonlinear_arith)
            requires
                q * q * (tx * tx) <= x * x * (k * k),
                q * q * (ty * ty) <= y * y * (k * k),
                q == x * x + y * y,
                q > 0,
        ;
    }
}

/// Outside the dead zone, over a frame of positive length, the attractor
/// strictly speeds up a particle's approach to the origin.
pub proof fn lemma_gravity_pulls_inward(p: Particle, dt: int)
    requires
        p.wf(),
        dt > 0,
        !in_dead_zone(p.position),
        in_range(p.velocity.0.x + gravity_delta(p.position, dt).0),
        in_range(p.velocity.0.y + gravity_delta(p.position, dt).1),
    ensures
        inward(gravity_step(p, dt)) > inward(p),
{
    lemma_delta_inward(p.position, dt);
    let (gx, gy) = gravity_delta(p.position, dt);
    let x = p.position.x as int;
    let y = p.position.y as int;
    let vx = p.velocity.0.x as int;
    let vy = p.velocity.0.y as int;
    let r = gravity_step(p, dt);
    assert(r.velocity.0.x == vx + gx && r.velocity.0.y == vy + gy);
    assert(inward(r) == inward(p) - (gx * x + gy * y)) by (nonlinear_arith)
        requires
            inward(r) == -((vx + gx) * x + (vy + gy) * y),
            inward(p) == -(vx * x + vy * y),
    ;
}

/// Inside the dead zone the attractor leaves the velocity as it was.
pub proof fn lemma_dead_zone_inert(p: Particle, dt: int)
    requires
        in_dead_zone(p.position),
    ensures
        gravity_step(p, dt).velocity == p.velocity,
{
}

} // verus!
