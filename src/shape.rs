use vstd::prelude::*;

use crate::bounding_sphere::BoundingSphere;
use crate::bvt::LEAF_RADIUS_LIMIT;
use crate::geometry::{ceil_sqrt, ceil_sqrt_exec, norm2, Vector3, COORD_LIMIT};

verus! {

/// Largest half-height, radius or half-extent of a shape.
pub const SHAPE_LIMIT: i64 = COORD_LIMIT;

/// A convex primitive, centered on its local origin.
#[derive(Clone, Copy, Debug, PartialEq, Eq, Structural)]
pub enum Shape {
    Ball { radius: i64 },
    /// A segment of length `2 * half_height` swept by a ball of `radius`.
    Capsule { half_height: i64, radius: i64 },
    /// Apex at `+half_height`, base disc of `radius` at `-half_height`.
    Cone { half_height: i64, radius: i64 },
    Cuboid { half_extents: Vector3 },
}

pub open spec fn dim_ok(v: i64) -> bool {
    0 <= v <= SHAPE_LIMIT
}

impl Shape {
    pub open spec fn in_range(self) -> bool {
        match self {
            Shape::Ball { radius } => dim_ok(radius),
            Shape::Capsule { half_height, radius } => dim_ok(half_height) && dim_ok(radius),
            Shape::Cone { half_height, radius } => dim_ok(half_height) && dim_ok(radius),
            Shape::Cuboid { half_extents } => dim_ok(half_extents.x) && dim_ok(half_extents.y)
                && dim_ok(half_extents.z),
        }
    }

    /// Distance from the local origin to the farthest point of the shape,
    /// rounded up to the grid.
    pub open spec fn bounding_radius(self) -> int {
        match self {
            Shape::Ball { radius } => radius as int,
            Shape::Capsule { half_height, radius } => half_height + radius,
            Shape::Cone { half_height, radius } => ceil_sqrt(
                half_height * half_height + radius * radius,
            ),
            Shape::Cuboid { half_extents } => ceil_sqrt(
                norm2(half_extents.x as int, half_extents.y as int, half_extents.z as int),
            ),
        }
    }

    /// The bounding sphere of the shape placed with its origin at `translation`.
    /// A rotation about that origin moves no point farther from it, so the
    /// sphere does not depend on the placement's rotation.
    pub fn bounding_sphere(&self, translation: &Vector3) -> (r: BoundingSphere)
        requires
            self.in_range(),
            translation.in_range(),
        ensures
            r.center == *translation,
            r.radius == self.bounding_radius(),
            r.in_range(),
            r.radius <= LEAF_RADIUS_LIMIT,
    {
        let radius = match self {
            Shape::Ball { radius } => *radius,
            Shape::Capsule { half_height, radius } => *half_height + *radius,
            Shape::Cone { half_height, radius } => {
                let h = *half_height as i128;
                let q = *radius as i128;
                assert(h * h <= SHAPE_LIMIT * SHAPE_LIMIT && q * q <= SHAPE_LIMIT * SHAPE_LIMIT)
                    by (nonlinear_arith)
                    requires
                        0 <= h <= SHAPE_LIMIT,
                        0 <= q <= SHAPE_LIMIT,
                ;
                ceil_sqrt_exec(h * h + q * q)
            },
            Shape::Cuboid { half_extents } => {
                let a = half_extents.x as i128;
                let b = half_extents.y as i128;
                let c = half_extents.z as i128;
                assert(a * a <= SHAPE_LIMIT * SHAPE_LIMIT && b * b <= SHAPE_LIMIT * SHAPE_LIMIT && c
                    * c <= SHAPE_LIMIT * SHAPE_LIMIT) by (nonlinear_arith)
                    requires
                        0 <= a <= SHAPE_LIMIT,
                        0 <= b <= SHAPE_LIMIT,
                        0 <= c <= SHAPE_LIMIT,
                ;
                ceil_sqrt_exec(a * a + b * b + c * c)
            },
        };
        BoundingSphere { center: *translation, radius }
    }
}

} // verus!
