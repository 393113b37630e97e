use vstd::prelude::*;

verus! {

/// A 2D point with signed integer coordinates. Coordinates may be negative
/// or lie outside the grid transiently while relative offsets are computed;
/// they are bounds-filtered before being used as grid indices.
#[derive(Clone, Copy, PartialEq, Eq, Structural, Hash, Debug)]
pub struct Location {
    pub x: isize,
    pub y: isize,
}

impl Location {
    pub fn new(x: isize, y: isize) -> (r: Location)
        ensures
            r.x == x,
            r.y == y,
    {
        Location { x, y }
    }

    /// Translation: the componentwise sum of two points, used to turn an
    /// offset relative to a center into an absolute coordinate.
    pub fn plus(&self, other: &Location) -> (r: Location)
        requires
            isize::MIN <= self.x + other.x <= isize::MAX,
            isize::MIN <= self.y + other.y <= isize::MAX,
        ensures
            r.x == self.x + other.x,
            r.y == self.y + other.y,
    {
        Location { x: self.x + other.x, y: self.y + other.y }
    }
}

} // verus!
