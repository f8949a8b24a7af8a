//! The query shape for circular range search: an integer center point and an
//! exact rational radius `radius_num / radius_den`.
//!
//! The tree's algorithms only ever compare the radius (and its square)
//! against integer distances, so carrying the radius as a fraction keeps the
//! whole search exact.
use vstd::prelude::*;

verus! {

/// A circle: integer center, non-negative rational radius.
pub struct Circle {
    /// The 2-dimensional center point.
    pub point: Vec<i32>,
    /// Numerator of the radius.
    pub radius_num: u64,
    /// Denominator of the radius; always positive.
    pub radius_den: u32,
}

impl Circle {
    /// A usable circle: 2-dimensional center, positive denominator.
    pub open spec fn wf(self) -> bool {
        &&& self.point@.len() == 2
        &&& self.radius_den > 0
    }

    /// Creates the circle with the given center and radius
    /// `radius_num / radius_den`.
    pub fn new(point: Vec<i32>, radius_num: u64, radius_den: u32) -> (c: Circle)
        requires
            point@.len() == 2,
            radius_den > 0,
        ensures
            c.wf(),
            c.point@ == point@,
            c.radius_num == radius_num,
            c.radius_den == radius_den,
    {
        Circle { point, radius_num, radius_den }
    }
}

} // verus!
