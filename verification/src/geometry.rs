//! Planar points and the orientation of a point triple.

use vstd::prelude::*;

verus! {

/// The largest coordinate magnitude `orientation` accepts; keeps the
/// cross product within machine range.
pub const COORD_LIMIT: i64 = 0x8000_0000;

/// A point on the integer grid.
#[derive(PartialEq, Eq, Structural, Clone, Copy, Debug)]
pub struct Point {
    pub x: i64,
    pub y: i64,
}

/// The turn direction of the triple (p, q, r).
#[derive(PartialEq, Eq, Structural, Clone, Copy, Debug)]
pub enum Orientation {
    ClockWise,
    CounterClockWise,
    Colinear,
}

/// The cross product that decides the turn direction of (p, q, r).
pub open spec fn cross_of(p: Point, q: Point, r: Point) -> int {
    (q.y - p.y) * (r.x - q.x) - (q.x - p.x) * (r.y - q.y)
}

impl Point {
    /// Classify the turn taken at `q` when walking p, q, r: clockwise
    /// for a positive cross product, counter-clockwise for a negative
    /// one, colinear for zero.
    pub fn orientation(p: &Point, q: &Point, r: &Point) -> (o: Orientation)
        requires
            -COORD_LIMIT <= p.x <= COORD_LIMIT,
            -COORD_LIMIT <= p.y <= COORD_LIMIT,
            -COORD_LIMIT <= q.x <= COORD_LIMIT,
            -COORD_LIMIT <= q.y <= COORD_LIMIT,
            -COORD_LIMIT <= r.x <= COORD_LIMIT,
            -COORD_LIMIT <= r.y <= COORD_LIMIT,
        ensures
            o == (if cross_of(*p, *q, *r) == 0 {
                Orientation::Colinear
            } else if cross_of(*p, *q, *r) > 0 {
                Orientation::ClockWise
            } else {
                Orientation::CounterClockWise
            }),
    {
        let dy1: i128 = q.y as i128 - p.y as i128;
        let dx2: i128 = r.x as i128 - q.x as i128;
        let dx1: i128 = q.x as i128 - p.x as i128;
        let dy2: i128 = r.y as i128 - q.y as i128;
        proof {
            assert(-0x2_0000_0000_0000_0000 <= dy1 * dx2 <= 0x2_0000_0000_0000_0000)
                by (nonlinear_arith)
                requires
                    -0x1_0000_0000 <= dy1 <= 0x1_0000_0000,
                    -0x1_0000_0000 <= dx2 <= 0x1_0000_0000,
            ;
            assert(-0x2_0000_0000_0000_0000 <= dx1 * dy2 <= 0x2_0000_0000_0000_0000)
                by (nonlinear_arith)
                requires
                    -0x1_0000_0000 <= dx1 <= 0x1_0000_0000,
                    -0x1_0000_0000 <= dy2 <= 0x1_0000_0000,
            ;
        }
        let val: i128 = dy1 * dx2 - dx1 * dy2;
        if val == 0 {
            Orientation::Colinear
        } else if val > 0 {
            Orientation::ClockWise
        } else {
            Orientation::CounterClockWise
        }
    }
}

} // verus!
