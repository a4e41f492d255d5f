//! Position integration from velocity.
use vstd::prelude::*;
use crate::fixed::{Vec2, in_range, tdiv, div_toward_zero, LIMIT, MICROS_PER_SECOND};
use crate::particle::{Particle, all_wf};

verus! {

/// Distance covered in `dt` microseconds at velocity component `v`.
pub open spec fn displacement(v: int, dt: int) -> int {
    tdiv(v * dt, MICROS_PER_SECOND as int)
}

/// The particle after moving at its velocity for `dt` microseconds. Where the
/// new position would leave the representable range, it stays in place.
pub open spec fn motion_step(p: Particle, dt: int) -> Particle {
    let x = p.position.x + displacement(p.velocity.0.x as int, dt);
    let y = p.position.y + displacement(p.velocity.0.y as int, dt);
    if in_range(x) && in_range(y) {
        p.with_position(x, y)
    } else {
        p
    }
}

/// Advances one particle by its velocity.
pub fn apply_motion(p: &mut Particle, dt: u32)
    requires
        old(p).wf(),
    ensures
        *final(p) == motion_step(*old(p), dt as int),
        final(p).wf(),
{
    let vx = p.velocity.0.x as i128;
    let vy = p.velocity.0.y as i128;
    let t = dt as i128;
    assert(-100_000_000_000_000 * 0x1_0000_0000 <= vx * t <= 100_000_000_000_000 * 0x1_0000_0000
        && -100_000_000_000_000 * 0x1_0000_0000 <= vy * t <= 100_000_000_000_000 * 0x1_0000_0000)
        by (nonlinear_arith)
        requires
            -100_000_000_000_000 <= vx <= 100_000_000_000_000,
            -100_000_000_000_000 <= vy <= 100_000_000_000_000,
            0 <= t <= 0x1_0000_0000,
    ;
    let x = p.position.x as i128 + div_toward_zero(vx * t, MICROS_PER_SECOND);
    let y = p.position.y as i128 + div_toward_zero(vy * t, MICROS_PER_SECOND);
    if x < -(LIMIT as i128) || x > LIMIT as i128 || y < -(LIMIT as i128) || y > LIMIT as i128 {
        return;
    }
    p.position = Vec2 { x: x as i64, y: y as i64 };
}

/// One frame of motion over the whole particle set.
pub fn movement(particles: &mut Vec<Particle>, dt: u32)
    requires
        all_wf(old(particles)@),
    ensures
        final(particles)@.len() == old(particles)@.len(),
        forall|i: int|
            0 <= i < old(particles)@.len() ==> #[trigger] final(particles)@[i] == motion_step(
                old(particles)@[i],
                dt as int,
            ),
        all_wf(final(particles)@),
{
    let n = particles.len();
    let mut i: usize = 0;
    while i < n
        invariant
            n == particles@.len(),
            n == old(particles)@.len(),
            0 <= i <= n,
            forall|k: int| 0 <= k < i ==> #[trigger] particles@[k] == motion_step(old(particles)@[k], dt as int),
            forall|k: int| i <= k < n ==> #[trigger] particles@[k] == old(particles)@[k],
            all_wf(particles@),
        decreases n - i,
    {
        let mut p = particles[i];
        assert(p.wf());
        apply_motion(&mut p, dt);
        particles[i] = p;
        i += 1;
    }
}

/// `k` frames of motion of one particle, each of `dt` microseconds.
pub open spec fn advance(p: Particle, dt: int, k: nat) -> Particle
    decreases k,
{
    if k == 0 {
        p
    } else {
        motion_step(advance(p, dt, (k - 1) as nat), dt)
    }
}

/// With no force acting, `k` frames of equal length move a particle by `k`
/// times the displacement of one frame, exactly, while its path stays in
/// the representable range; velocity and radius are kept.
pub proof fn lemma_repeated_frames(p: Particle, dt: int, k: nat)
    requires
        p.wf(),
        in_range(p.position.x + k * displacement(p.velocity.0.x as int, dt)),
        in_range(p.position.y + k * displacement(p.velocity.0.y as int, dt)),
    ensures
        advance(p, dt, k).position.x == p.position.x + k * displacement(p.velocity.0.x as int, dt),
        advance(p, dt, k).position.y == p.position.y + k * displacement(p.velocity.0.y as int, dt),
        advance(p, dt, k).velocity == p.velocity,
        advance(p, dt, k).atom == p.atom,
    decreases k,
{
    if k > 0 {
        let dx = displacement(p.velocity.0.x as int, dt);
        let dy = displacement(p.velocity.0.y as int, dt);
        let k1 = (k - 1) as nat;
        assert(k1 * dx == k * dx - dx && k1 * dy == k * dy - dy) by (nonlinear_arith) requires k1 == k - 1;
        assert(0 <= k1 * dx <= k * dx || k * dx <= k1 * dx <= 0) by (nonlinear_arith)
            requires k1 == k - 1, k >= 1;
        assert(0 <= k1 * dy <= k * dy || k * dy <= k1 * dy <= 0) by (nonlinear_arith)
            requires k1 == k - 1, k >= 1;
        lemma_repeated_frames(p, dt, k1);
        let prev = advance(p, dt, k1);
        assert(prev.position.x + dx == p.position.x + k * dx);
        assert(prev.position.y + dy == p.position.y + k * dy);
        assert(in_range(prev.position.x + dx) && in_range(prev.position.y + dy));
        let nx = prev.position.x + dx;
        let ny = prev.position.y + dy;
        assert((nx as i64) as int == nx && (ny as i64) as int == ny);
        assert(advance(p, dt, k) == motion_step(prev, dt));
        assert(motion_step(prev, dt) == prev.with_position(nx, ny));
    } else {
        let dx = displacement(p.velocity.0.x as int, dt);
        let dy = displacement(p.velocity.0.y as int, dt);
        assert(k * dx == 0 && k * dy == 0) by (nonlinear_arith) requires k == 0;
    }
}

} // verus!
