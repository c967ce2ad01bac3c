//! The body catalog: the three kinds of body and the simulation's constants.
use vstd::prelude::*;

use crate::vector::Vector;

verus! {

/// The largest distance from the origin, along either axis, at which a body
/// may stand. It keeps every relative position representable as a `Vector`.
pub const WORLD_LIMIT: i32 = 1_000_000_000;

/// The largest number of bodies, of all kinds together, in one simulation:
/// the most for which a body's summed pulls (each below `2^96`) fit an `i128`.
pub const MAX_BODIES: usize = 1_073_741_824;

/// A gravitational source that never moves.
#[derive(Clone, Copy, Debug, PartialEq, Eq, Structural)]
pub struct StaticBody {
    pub radius: u32,
    pub mass: u32,
    pub position: Vector,
}

/// A body that both attracts and is attracted.
#[derive(Clone, Copy, Debug, PartialEq, Eq, Structural)]
pub struct DynamicBody {
    pub radius: u32,
    pub mass: u32,
    pub position: Vector,
    pub velocity: Vector,
}

/// A massless body: it is attracted but attracts nothing.
#[derive(Clone, Copy, Debug, PartialEq, Eq, Structural)]
pub struct TestBody {
    pub radius: u32,
    pub position: Vector,
    pub velocity: Vector,
}

/// The constants of a simulation: the gravitational constant, the softening
/// term (in squared length units) and the fixed step length (in time units).
/// They are valid when the softening and the step are positive and
/// `grav * step` fits a `u64`.
#[derive(Clone, Copy, Debug, PartialEq, Eq, Structural)]
pub struct Config {
    pub grav: u64,
    pub softening: u64,
    pub step: u32,
}

impl Config {
    pub open spec fn valid(self) -> bool {
        self.softening > 0 && self.step > 0 && self.grav * self.step <= u64::MAX
    }

    /// `G * dt`, the factor of one step's velocity change.
    pub open spec fn grav_dt(self) -> int {
        self.grav * self.step
    }

    pub fn grav_dt_exec(&self) -> (r: u64)
        requires
            self.valid(),
        ensures
            r == self.grav_dt(),
    {
        self.grav * self.step as u64
    }

    /// `grav * step` when it fits a `u64`.
    pub fn checked_grav_dt(&self) -> (r: Option<u64>)
        ensures
            r matches Some(k) ==> k == self.grav_dt(),
            r is None <==> self.grav_dt() > u64::MAX,
    {
        self.grav.checked_mul(self.step as u64)
    }
}

/// Whether a position lies within the world.
pub open spec fn in_world(p: Vector) -> bool {
    -WORLD_LIMIT <= p.x <= WORLD_LIMIT && -WORLD_LIMIT <= p.y <= WORLD_LIMIT
}

pub fn position_in_world(p: Vector) -> (r: bool)
    ensures
        r == in_world(p),
{
    -WORLD_LIMIT <= p.x && p.x <= WORLD_LIMIT && -WORLD_LIMIT <= p.y && p.y <= WORLD_LIMIT
}

impl StaticBody {
    pub fn new(mass: u32, position: Vector, radius: u32) -> (r: StaticBody)
        ensures
            r == (StaticBody { radius, mass, position }),
    {
        StaticBody { radius, mass, position }
    }
}

impl DynamicBody {
    pub fn new(mass: u32, position: Vector, velocity: Vector, radius: u32) -> (r: DynamicBody)
        ensures
            r == (DynamicBody { radius, mass, position, velocity }),
    {
        DynamicBody { radius, mass, position, velocity }
    }
}

impl TestBody {
    pub fn new(position: Vector, velocity: Vector, radius: u32) -> (r: TestBody)
        ensures
            r == (TestBody { radius, position, velocity }),
    {
        TestBody { radius, position, velocity }
    }
}

} // verus!
