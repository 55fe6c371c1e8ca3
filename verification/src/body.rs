//! A point mass and the mathematical model of a body set.

use vstd::prelude::*;
use crate::vec3::{Vec3, V3, v3_zero};

verus! {

/// One point mass.  `acceleration` is derived, transient state: it is
/// recomputed from the positions each step and never loaded from input.
#[derive(Clone, Copy, Debug, PartialEq, Eq, Structural)]
pub struct Body {
    pub mass: u128,
    pub position: Vec3,
    pub velocity: Vec3,
    pub acceleration: Vec3,
}

/// The mathematical value of a body: unbounded integers throughout.
pub ghost struct Particle {
    pub mass: int,
    pub position: V3,
    pub velocity: V3,
    pub acceleration: V3,
}

impl View for Body {
    type V = Particle;

    open spec fn view(&self) -> Particle {
        Particle {
            mass: self.mass as int,
            position: self.position@,
            velocity: self.velocity@,
            acceleration: self.acceleration@,
        }
    }
}

/// The model of a whole body set.
pub open spec fn models(s: Seq<Body>) -> Seq<Particle> {
    s.map_values(|b: Body| b@)
}

impl Body {
    /// A new body starts with zero acceleration; the first force refresh
    /// establishes the real value before any step uses it.
    pub fn new(mass: u128, position: Vec3, velocity: Vec3) -> (r: Body)
        ensures
            r@.mass == mass as int,
            r@.position == position@,
            r@.velocity == velocity@,
            r@.acceleration == v3_zero(),
    {
        Body { mass, position, velocity, acceleration: Vec3::zero() }
    }
}

} // verus!
