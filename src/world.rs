//! Entity handles and integer world coordinates.

use vstd::prelude::*;

verus! {

/// Opaque handle of an object of the simulated world.
#[derive(Clone, Copy, Debug, PartialEq, Eq, Structural, Hash)]
pub struct EntityId {
    pub bits: u64,
}

impl EntityId {
    pub fn new(bits: u64) -> (r: Self)
        ensures
            r.bits == bits,
    {
        EntityId { bits }
    }
}

/// A point of the world in whole world units.
#[derive(Clone, Copy, Debug, PartialEq, Eq, Structural, Hash)]
pub struct WorldPosition {
    pub x: i32,
    pub y: i32,
    pub z: i32,
}

/// Squared euclidean distance between two points.
pub open spec fn distance_squared(a: WorldPosition, b: WorldPosition) -> int {
    let dx = a.x - b.x;
    let dy = a.y - b.y;
    let dz = a.z - b.z;
    dx * dx + dy * dy + dz * dz
}

fn axis_square(a: i32, b: i32) -> (r: u128)
    ensures
        r == (a - b) * (a - b),
        r <= 0x1_0000_0000_0000_0000,
{
    let d: i64 = a as i64 - b as i64;
    let m: u64 = if d < 0 { (-d) as u64 } else { d as u64 };
    assert(m * m == (a - b) * (a - b)) by (nonlinear_arith)
        requires
            m == d || m == -d,
            d == a - b,
    ;
    assert(m * m <= 0x1_0000_0000 * 0x1_0000_0000) by (nonlinear_arith)
        requires
            m <= 0x1_0000_0000,
    ;
    (m as u128) * (m as u128)
}

impl WorldPosition {
    pub fn new(x: i32, y: i32, z: i32) -> (r: Self)
        ensures
            r.x == x,
            r.y == y,
            r.z == z,
    {
        WorldPosition { x, y, z }
    }

    pub fn distance_squared(&self, other: &WorldPosition) -> (r: u128)
        ensures
            r == distance_squared(*self, *other),
    {
        let a = axis_square(self.x, other.x);
        let b = axis_square(self.y, other.y);
        let c = axis_square(self.z, other.z);
        a + b + c
    }
}

} // verus!
