//! Seeding the initial particle population.
use vstd::prelude::*;
use crate::fixed::Vec2;
use crate::particle::{Particle, all_wf};

verus! {

/// Side of the square, centred on the origin, in which particles start
/// (1000 world units).
pub const BOUNDARY_SIZE: i64 = 1_000_000;

/// Width of the range of starting velocity components (-1 to 1 world unit
/// per second).
pub const VELOCITY_SPAN: i64 = 2_000;

/// Radius of every seeded particle (10 world units).
pub const ATOM_RADIUS: i64 = 10_000;

/// Number of particles seeded at startup.
pub const ATOM_COUNT: usize = 1000;

/// Maps a uniform 32-bit sample onto `[-span / 2, span / 2)`.
pub open spec fn spread(sample: u32, span: int) -> int {
    (sample * span) / 0x1_0000_0000 - span / 2
}

pub fn spread_sample(sample: u32, span: i64) -> (r: i64)
    requires
        0 < span <= 0x8000_0000,
        span % 2 == 0,
    ensures
        r == spread(sample, span as int),
        -span / 2 <= r < span / 2,
{
    assert(sample * span < 0x1_0000_0000 * 0x8000_0000) by (nonlinear_arith)
        requires 0 <= sample < 0x1_0000_0000, 0 < span <= 0x8000_0000;
    let wide: u64 = sample as u64 * span as u64;
    assert(wide / 0x1_0000_0000 < span) by (nonlinear_arith)
        requires wide == sample * span, 0 <= sample < 0x1_0000_0000, span > 0;
    let scaled = (wide / 0x1_0000_0000) as i64;
    scaled - span / 2
}

/// The particle that four uniform samples select: position within the
/// boundary square, velocity components within one world unit per second.
pub open spec fn seeded(rx: u32, ry: u32, rvx: u32, rvy: u32) -> Particle {
    Particle {
        position: Vec2 {
            x: spread(rx, BOUNDARY_SIZE as int) as i64,
            y: spread(ry, BOUNDARY_SIZE as int) as i64,
        },
        velocity: crate::particle::Velocity(Vec2 {
            x: spread(rvx, VELOCITY_SPAN as int) as i64,
            y: spread(rvy, VELOCITY_SPAN as int) as i64,
        }),
        atom: crate::particle::Atom { radius: ATOM_RADIUS },
    }
}

/// Builds the particle that four uniform samples select.
pub fn particle_from_samples(rx: u32, ry: u32, rvx: u32, rvy: u32) -> (r: Particle)
    ensures
        r == seeded(rx, ry, rvx, rvy),
        r.wf(),
{
    let x = spread_sample(rx, BOUNDARY_SIZE);
    let y = spread_sample(ry, BOUNDARY_SIZE);
    let vx = spread_sample(rvx, VELOCITY_SPAN);
    let vy = spread_sample(rvy, VELOCITY_SPAN);
    Particle::new(Vec2::new(x, y), Vec2::new(vx, vy), ATOM_RADIUS)
}

/// Relies on rand's `random`: a value drawn from the thread-local generator.
/// Nothing is known of the value.
pub assume_specification<T>[ rand::random::<T> ]() -> (r: T)
    where
        rand::distributions::Standard: rand::distributions::Distribution<T>,
;

/// Holds for every particle that `startup` can produce.
pub open spec fn is_seeded(p: Particle) -> bool {
    exists|rx: u32, ry: u32, rvx: u32, rvy: u32| p == #[trigger] seeded(rx, ry, rvx, rvy)
}

/// The initial population: `n` particles of the standard radius at random
/// positions inside the boundary square, with random small velocities.
pub fn startup(n: usize) -> (r: Vec<Particle>)
    ensures
        r@.len() == n,
        all_wf(r@),
        forall|i: int| 0 <= i < n ==> is_seeded(#[trigger] r@[i]),
        forall|i: int|
            0 <= i < n ==> -BOUNDARY_SIZE / 2 <= (#[trigger] r@[i]).position.x < BOUNDARY_SIZE / 2
                && -BOUNDARY_SIZE / 2 <= r@[i].position.y < BOUNDARY_SIZE / 2 && r@[i].atom.radius
                == ATOM_RADIUS,
{
    let mut out: Vec<Particle> = Vec::new();
    let mut i: usize = 0;
    while i < n
        invariant
            out@.len() == i,
            0 <= i <= n,
            all_wf(out@),
            forall|k: int| 0 <= k < i ==> is_seeded(#[trigger] out@[k]),
            forall|k: int|
                0 <= k < i ==> -BOUNDARY_SIZE / 2 <= (#[trigger] out@[k]).position.x < BOUNDARY_SIZE / 2
                    && -BOUNDARY_SIZE / 2 <= out@[k].position.y < BOUNDARY_SIZE / 2
                    && out@[k].atom.radius == ATOM_RADIUS,
        decreases n - i,
    {
        let rx: u32 = rand::random::<u32>();
        let ry: u32 = rand::random::<u32>();
        let rvx: u32 = rand::random::<u32>();
        let rvy: u32 = rand::random::<u32>();
        let p = particle_from_samples(rx, ry, rvx, rvy);
        assert(is_seeded(p));
        out.push(p);
        i += 1;
    }
    out
}

} // verus!
