//! Points and axis-aligned boxes on the integer lattice of fixed-point world units.

use vstd::prelude::*;

verus! {

/// A position in fixed-point world units. The vertical axis is `y`.
#[derive(Clone, Copy, Debug, PartialEq, Eq, Structural)]
pub struct Vertex {
    pub x: i32,
    pub y: i32,
    pub z: i32,
}

/// An axis-aligned box, given by its two extreme corners. Both corners belong to the box.
#[derive(Clone, Copy, Debug, PartialEq, Eq, Structural)]
pub struct Aabb {
    pub min: Vertex,
    pub max: Vertex,
}

/// The smallest of three integers.
pub open spec fn min3(a: int, b: int, c: int) -> int {
    vstd::math::min(vstd::math::min(a, b), c)
}

/// The largest of three integers.
pub open spec fn max3(a: int, b: int, c: int) -> int {
    vstd::math::max(vstd::math::max(a, b), c)
}

/// The smallest box that holds the three corners of a triangle.
pub open spec fn spec_aabb(a: Vertex, b: Vertex, c: Vertex) -> Aabb {
    Aabb {
        min: Vertex {
            x: min3(a.x as int, b.x as int, c.x as int) as i32,
            y: min3(a.y as int, b.y as int, c.y as int) as i32,
            z: min3(a.z as int, b.z as int, c.z as int) as i32,
        },
        max: Vertex {
            x: max3(a.x as int, b.x as int, c.x as int) as i32,
            y: max3(a.y as int, b.y as int, c.y as int) as i32,
            z: max3(a.z as int, b.z as int, c.z as int) as i32,
        },
    }
}

fn least(a: i32, b: i32) -> (r: i32)
    ensures
        r == vstd::math::min(a as int, b as int),
{
    if a <= b {
        a
    } else {
        b
    }
}

fn greatest(a: i32, b: i32) -> (r: i32)
    ensures
        r == vstd::math::max(a as int, b as int),
{
    if a >= b {
        a
    } else {
        b
    }
}

/// Computes the bounding box of a triangle.
pub fn aabb(triangle: &[Vertex; 3]) -> (r: Aabb)
    ensures
        r == spec_aabb(triangle[0], triangle[1], triangle[2]),
        r.wf(),
        r.spec_contains(triangle[0]),
        r.spec_contains(triangle[1]),
        r.spec_contains(triangle[2]),
{
    let a = triangle[0];
    let b = triangle[1];
    let c = triangle[2];
    Aabb {
        min: Vertex {
            x: least(least(a.x, b.x), c.x),
            y: least(least(a.y, b.y), c.y),
            z: least(least(a.z, b.z), c.z),
        },
        max: Vertex {
            x: greatest(greatest(a.x, b.x), c.x),
            y: greatest(greatest(a.y, b.y), c.y),
            z: greatest(greatest(a.z, b.z), c.z),
        },
    }
}

impl Aabb {
    /// The minimum corner is component-wise no larger than the maximum corner.
    pub open spec fn wf(&self) -> bool {
        &&& self.min.x <= self.max.x
        &&& self.min.y <= self.max.y
        &&& self.min.z <= self.max.z
    }

    /// The point lies in the box, faces included.
    pub open spec fn spec_contains(&self, v: Vertex) -> bool {
        &&& self.min.x <= v.x <= self.max.x
        &&& self.min.y <= v.y <= self.max.y
        &&& self.min.z <= v.z <= self.max.z
    }

    /// The two boxes share at least one point. Boxes that merely touch do intersect.
    pub open spec fn spec_intersects(&self, other: Aabb) -> bool {
        &&& self.min.x <= other.max.x && other.min.x <= self.max.x
        &&& self.min.y <= other.max.y && other.min.y <= self.max.y
        &&& self.min.z <= other.max.z && other.min.z <= self.max.z
    }

    /// Tests whether two boxes share at least one point.
    pub fn intersects(&self, other: &Aabb) -> (r: bool)
        ensures
            r == self.spec_intersects(*other),
    {
        self.min.x <= other.max.x && other.min.x <= self.max.x
            && self.min.y <= other.max.y && other.min.y <= self.max.y
            && self.min.z <= other.max.z && other.min.z <= self.max.z
    }
}

} // verus!
