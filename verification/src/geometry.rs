use vstd::prelude::*;

verus! {

/// A grid coordinate: a pair of non-negative integers, bottom-left origin.
#[derive(Clone, Copy, Debug, PartialEq, Eq, Structural)]
pub struct Coord {
    pub x: usize,
    pub y: usize,
}

/// The absolute difference of two integers.
pub open spec fn diff(a: int, b: int) -> int {
    if a >= b {
        a - b
    } else {
        b - a
    }
}

impl Coord {
    pub fn new(x: usize, y: usize) -> (c: Coord)
        ensures
            c == (Coord { x, y }),
    {
        Coord { x, y }
    }

    /// The squared Euclidean distance between two coordinates, taken over
    /// the absolute component-wise differences (so it is independent of
    /// which operand is larger in each axis and never underflows).
    ///
    /// The Euclidean distance itself is the square root of this value, so
    /// `distance < r` holds exactly when `dist_sq < r * r`.
    pub open spec fn dist_sq(self, other: Coord) -> int {
        let dx = diff(self.x as int, other.x as int);
        let dy = diff(self.y as int, other.y as int);
        dx * dx + dy * dy
    }

    /// Component-wise vector addition.
    pub fn add(self, rhs: Coord) -> (c: Coord)
        requires
            self.x + rhs.x <= usize::MAX,
            self.y + rhs.y <= usize::MAX,
        ensures
            c.x == self.x + rhs.x,
            c.y == self.y + rhs.y,
    {
        Coord { x: self.x + rhs.x, y: self.y + rhs.y }
    }

    /// Component-wise vector subtraction. Subtracting a coordinate with a
    /// larger component would underflow; such inputs are ruled out, not
    /// silently wrapped.
    pub fn subtract(self, rhs: Coord) -> (c: Coord)
        requires
            rhs.x <= self.x,
            rhs.y <= self.y,
        ensures
            c.x == self.x - rhs.x,
            c.y == self.y - rhs.y,
    {
        Coord { x: self.x - rhs.x, y: self.y - rhs.y }
    }
}

/// Linear interpolation between `a` and `b` at an integer parameter `t`,
/// which is meaningful only at the endpoints (`t` is 0 or 1).
pub fn lerp(a: usize, b: usize, t: usize) -> (r: usize)
    requires
        t <= 1,
    ensures
        r == a * (1 - t as int) + b * t as int,
{
    if t == 0 {
        proof {
            assert(a as int * (1 - t as int) + b as int * (t as int) == a) by (nonlinear_arith)
                requires
                    t == 0,
            ;
        }
        a
    } else {
        proof {
            assert(a as int * (1 - t as int) + b as int * (t as int) == b) by (nonlinear_arith)
                requires
                    t == 1,
            ;
        }
        b
    }
}

} // verus!
