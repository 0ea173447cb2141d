//! Rays: an origin and a direction, evaluated at a scalar parameter.

use vstd::prelude::*;
use crate::fixed::sabs;
use crate::vec3::{add_v, bounded_v, scale_v, V3, Vec3};

verus! {

/// A half-line through `origin` along `direction`; the direction need not be
/// of unit length.
#[derive(Clone, Copy, Debug, PartialEq, Eq, Structural)]
pub struct Ray {
    pub origin: Vec3,
    pub direction: Vec3,
}

/// The point of the ray at parameter `t`: `origin + t * direction`.
pub open spec fn at_v(origin: V3, direction: V3, t: int) -> V3 {
    add_v(origin, scale_v(t, direction))
}

impl Ray {
    pub fn new(origin: Vec3, direction: Vec3) -> (r: Ray)
        ensures
            r.origin == origin,
            r.direction == direction,
    {
        Ray { origin, direction }
    }

    /// The point at parameter `t`.
    pub fn at(&self, t: i128) -> (p: Vec3)
        requires
            sabs(t as int) <= 4611686018427387904int,
            bounded_v(self.direction@, 4611686018427387904int),
            bounded_v(self.origin@, 21267647932558653966460912964485513216int),
        ensures
            p@ == at_v(self.origin@, self.direction@, t as int),
    {
        let d = self.direction.scale(t);
        proof {
            let b = 4611686018427387904int;
            crate::fixed::lemma_fmul_bound(t as int, self.direction@.x, b, b);
            crate::fixed::lemma_fmul_bound(t as int, self.direction@.y, b, b);
            crate::fixed::lemma_fmul_bound(t as int, self.direction@.z, b, b);
            assert(b * b <= 21267647932558653966460912964485513216int) by (nonlinear_arith)
                requires
                    b == 4611686018427387904int,
            ;
        }
        self.origin.plus(&d)
    }
}

} // verus!
