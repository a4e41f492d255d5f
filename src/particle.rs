//! The state of one simulated body.
use vstd::prelude::*;
use crate::fixed::{Vec2, in_range};

verus! {

/// Largest radius a particle may have.
pub const MAX_RADIUS: i64 = 1_000_000_000;

/// The fixed shape of a particle: a circle of the given radius.
#[derive(Clone, Copy, Debug, PartialEq, Eq)]
pub struct Atom {
    pub radius: i64,
}

/// Rate of change of a particle's position.
#[derive(Clone, Copy, Debug, PartialEq, Eq)]
pub struct Velocity(pub Vec2);

/// A circular body with a position, a velocity and a radius.
#[derive(Clone, Copy, Debug, PartialEq, Eq)]
pub struct Particle {
    pub position: Vec2,
    pub velocity: Velocity,
    pub atom: Atom,
}

impl Particle {
    /// Every coordinate is representable and the radius is positive and bounded.
    pub open spec fn wf(self) -> bool {
        &&& self.position.wf()
        &&& self.velocity.0.wf()
        &&& 0 < self.atom.radius <= MAX_RADIUS
    }

    pub open spec fn with_velocity(self, x: int, y: int) -> Particle {
        Particle { velocity: Velocity(Vec2 { x: x as i64, y: y as i64 }), ..self }
    }

    pub open spec fn with_position(self, x: int, y: int) -> Particle {
        Particle { position: Vec2 { x: x as i64, y: y as i64 }, ..self }
    }

    pub fn new(position: Vec2, velocity: Vec2, radius: i64) -> (r: Particle)
        ensures
            r.position == position,
            r.velocity.0 == velocity,
            r.atom.radius == radius,
    {
        Particle { position, velocity: Velocity(velocity), atom: Atom { radius } }
    }
}

/// Every particle of the set is well formed.
pub open spec fn all_wf(ps: Seq<Particle>) -> bool {
    forall|i: int| 0 <= i < ps.len() ==> #[trigger] ps[i].wf()
}

} // verus!
