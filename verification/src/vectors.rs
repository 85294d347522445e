//! Integer 2-D coordinates and the componentwise operations the generator
//! needs: addition, subtraction, min/max, Manhattan distance and a
//! sign/clamp-to-unit operation.

use vstd::prelude::*;

verus! {

/// Every coordinate the generator produces stays within this bound, so that
/// sums and Manhattan distances of any two world points fit in `i32`.
pub const WORLD_LIMIT: i32 = 0x1000_0000;

/// An integer 2-D coordinate (a tile position or a translation delta).
#[derive(Clone, Copy, Debug, PartialEq, Eq, Structural, Hash)]
pub struct Vector2Int {
    pub x: i32,
    pub y: i32,
}

/// Both coordinates lie within the world bound.
pub open spec fn in_world(p: Vector2Int) -> bool {
    -(WORLD_LIMIT as int) <= p.x <= WORLD_LIMIT as int
        && -(WORLD_LIMIT as int) <= p.y <= WORLD_LIMIT as int
}

/// Absolute value of a mathematical integer.
pub open spec fn abs_int(v: int) -> int {
    if v < 0 { -v } else { v }
}

/// Manhattan (taxicab) distance between two points.
pub open spec fn manhattan_dist(p: Vector2Int, q: Vector2Int) -> int {
    abs_int(p.x - q.x) + abs_int(p.y - q.y)
}

impl Vector2Int {
    pub fn new(x: i32, y: i32) -> (r: Vector2Int)
        ensures
            r.x == x,
            r.y == y,
    {
        Vector2Int { x, y }
    }

    pub fn add(self, other: Vector2Int) -> (r: Vector2Int)
        requires
            i32::MIN <= self.x + other.x <= i32::MAX,
            i32::MIN <= self.y + other.y <= i32::MAX,
        ensures
            r.x == self.x + other.x,
            r.y == self.y + other.y,
    {
        Vector2Int { x: self.x + other.x, y: self.y + other.y }
    }

    pub fn sub(self, other: Vector2Int) -> (r: Vector2Int)
        requires
            i32::MIN <= self.x - other.x <= i32::MAX,
            i32::MIN <= self.y - other.y <= i32::MAX,
        ensures
            r.x == self.x - other.x,
            r.y == self.y - other.y,
    {
        Vector2Int { x: self.x - other.x, y: self.y - other.y }
    }

    /// Componentwise minimum.
    pub fn min(self, other: Vector2Int) -> (r: Vector2Int)
        ensures
            r.x == if self.x <= other.x { self.x } else { other.x },
            r.y == if self.y <= other.y { self.y } else { other.y },
    {
        Vector2Int {
            x: if self.x <= other.x { self.x } else { other.x },
            y: if self.y <= other.y { self.y } else { other.y },
        }
    }

    /// Componentwise maximum.
    pub fn max(self, other: Vector2Int) -> (r: Vector2Int)
        ensures
            r.x == if self.x >= other.x { self.x } else { other.x },
            r.y == if self.y >= other.y { self.y } else { other.y },
    {
        Vector2Int {
            x: if self.x >= other.x { self.x } else { other.x },
            y: if self.y >= other.y { self.y } else { other.y },
        }
    }

    /// Manhattan distance to `other`.
    pub fn manhattan(self, other: Vector2Int) -> (r: i32)
        requires
            in_world(self),
            in_world(other),
        ensures
            r == manhattan_dist(self, other),
    {
        let dx: i32 = if self.x >= other.x { self.x - other.x } else { other.x - self.x };
        let dy: i32 = if self.y >= other.y { self.y - other.y } else { other.y - self.y };
        dx + dy
    }

    /// Clamps each component to `{-1, 0, 1}`, keeping its sign.
    pub fn clamped(self) -> (r: Vector2Int)
        ensures
            r.x == if self.x > 0 { 1int } else if self.x < 0 { -1int } else { 0int },
            r.y == if self.y > 0 { 1int } else if self.y < 0 { -1int } else { 0int },
    {
        Vector2Int {
            x: if self.x > 0 { 1 } else if self.x < 0 { -1 } else { 0 },
            y: if self.y > 0 { 1 } else if self.y < 0 { -1 } else { 0 },
        }
    }
}

} // verus!
