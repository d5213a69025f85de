//! Points of the world and the squared distance between them.

use vstd::prelude::*;

verus! {

/// A point of the world, in whole units.
#[derive(Clone, Copy, Debug, PartialEq, Eq, Structural)]
pub struct Position {
    pub x: i32,
    pub y: i32,
}

/// The square of the Euclidean distance between two points.
pub open spec fn squared_distance(a: Position, b: Position) -> nat {
    ((a.x - b.x) * (a.x - b.x) + (a.y - b.y) * (a.y - b.y)) as nat
}

/// No squared distance between two points exceeds this.
pub open spec fn max_squared_distance() -> nat {
    0x2_0000_0000_0000_0000
}

/// The squared distance is symmetric, is zero from a point to itself, and is
/// bounded by `max_squared_distance()`.
pub proof fn lemma_squared_distance(a: Position, b: Position)
    ensures
        squared_distance(a, b) == squared_distance(b, a),
        squared_distance(a, a) == 0,
        squared_distance(a, b) <= max_squared_distance(),
{
    let dx: int = a.x - b.x;
    let dy: int = a.y - b.y;
    assert(dx * dx == (b.x - a.x) * (b.x - a.x)) by (nonlinear_arith)
        requires
            dx == a.x - b.x,
    ;
    assert(dy * dy == (b.y - a.y) * (b.y - a.y)) by (nonlinear_arith)
        requires
            dy == a.y - b.y,
    ;
    assert(0 <= dx * dx <= 0x1_0000_0000_0000_0000) by (nonlinear_arith)
        requires
            -0x1_0000_0000 < dx < 0x1_0000_0000,
    ;
    assert(0 <= dy * dy <= 0x1_0000_0000_0000_0000) by (nonlinear_arith)
        requires
            -0x1_0000_0000 < dy < 0x1_0000_0000,
    ;
}

impl Position {
    /// The point with these coordinates.
    pub fn new(x: i32, y: i32) -> (p: Position)
        ensures
            p == (Position { x, y }),
    {
        Position { x, y }
    }

    /// The squared distance from this point to `other`.
    pub fn distance_squared(self, other: Position) -> (d: u128)
        ensures
            d == squared_distance(self, other),
    {
        let dx: i128 = self.x as i128 - other.x as i128;
        let dy: i128 = self.y as i128 - other.y as i128;
        assert(0 <= dx * dx <= 0x1_0000_0000_0000_0000) by (nonlinear_arith)
            requires
                -0x1_0000_0000 < dx < 0x1_0000_0000,
        ;
        assert(0 <= dy * dy <= 0x1_0000_0000_0000_0000) by (nonlinear_arith)
            requires
                -0x1_0000_0000 < dy < 0x1_0000_0000,
        ;
        (dx * dx + dy * dy) as u128
    }
}

} // verus!
