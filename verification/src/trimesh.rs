//! Triangle meshes: shared vertices, index triplets, and one area tag for each triangle.

use vstd::prelude::*;
use crate::geometry::Vertex;
use crate::span::AreaType;

verus! {

/// A triangle mesh. Triangle `i` has its corners at the vertices that `indices[i]` names and
/// carries the tag `area_types[i]`.
#[derive(Debug)]
pub struct TrimeshedCollider {
    pub vertices: Vec<Vertex>,
    pub indices: Vec<[u32; 3]>,
    pub area_types: Vec<AreaType>,
}

impl TrimeshedCollider {
    /// There is one area tag for each triangle, and every index names a vertex.
    pub open spec fn wf(&self) -> bool {
        &&& self.area_types@.len() == self.indices@.len()
        &&& forall|i: int, k: int|
            0 <= i < self.indices@.len() && 0 <= k < 3 ==> (#[trigger] self.indices@[i][k])
                < self.vertices@.len()
    }

    /// The three corners of triangle `i`.
    pub open spec fn spec_triangle(&self, i: int) -> (Vertex, Vertex, Vertex) {
        (
            self.vertices@[self.indices@[i][0] as int],
            self.vertices@[self.indices@[i][1] as int],
            self.vertices@[self.indices@[i][2] as int],
        )
    }

    /// Tests whether there is one area tag for each triangle and every index names a vertex.
    pub fn is_valid(&self) -> (r: bool)
        ensures
            r == self.wf(),
    {
        if self.area_types.len() != self.indices.len() {
            return false;
        }
        let n = self.indices.len();
        let count = self.vertices.len();
        let mut i: usize = 0;
        while i < n
            invariant
                n == self.indices@.len(),
                count == self.vertices@.len(),
                self.area_types@.len() == n,
                i <= n,
                forall|j: int, k: int|
                    0 <= j < i && 0 <= k < 3 ==> (#[trigger] self.indices@[j][k]) < count,
            decreases n - i,
        {
            let t = self.indices[i];
            if t[0] as usize >= count || t[1] as usize >= count || t[2] as usize >= count {
                return false;
            }
            i = i + 1;
        }
        true
    }

    /// The three corners of triangle `i`.
    pub fn triangle(&self, i: usize) -> (t: [Vertex; 3])
        requires
            self.wf(),
            i < self.indices@.len(),
        ensures
            (t[0], t[1], t[2]) == self.spec_triangle(i as int),
    {
        let t = self.indices[i];
        [self.vertices[t[0] as usize], self.vertices[t[1] as usize], self.vertices[t[2] as usize]]
    }
}

/// The largest distance, along any axis, between two corners of a triangle whose slope can
/// be classified.
pub const MAX_EDGE_EXTENT: i64 = 8_388_608;

/// A vector at a right angle to a triangle; its length is twice the area of the triangle.
#[derive(Clone, Copy, Debug, PartialEq, Eq, Structural)]
pub struct Normal {
    pub x: i64,
    pub y: i64,
    pub z: i64,
}

/// The steepest slope that counts as walkable, given by the squared cosine of its angle to
/// the horizontal as the fraction `cos_squared_num / cos_squared_den`. The angle lies
/// between 0 and 90 degrees.
#[derive(Clone, Copy, Debug, PartialEq, Eq, Structural)]
pub struct SlopeThreshold {
    pub cos_squared_num: u32,
    pub cos_squared_den: u32,
}

impl SlopeThreshold {
    /// The fraction is defined and at most one.
    pub open spec fn wf(&self) -> bool {
        0 < self.cos_squared_den && self.cos_squared_num <= self.cos_squared_den
    }
}

/// The cross product of the edges from `a` to `b` and from `a` to `c`.
pub open spec fn spec_normal(a: Vertex, b: Vertex, c: Vertex) -> (int, int, int) {
    let abx = b.x - a.x;
    let aby = b.y - a.y;
    let abz = b.z - a.z;
    let acx = c.x - a.x;
    let acy = c.y - a.y;
    let acz = c.z - a.z;
    (aby * acz - abz * acy, abz * acx - abx * acz, abx * acy - aby * acx)
}

/// The corners of the triangle are at most [`MAX_EDGE_EXTENT`] apart along every axis.
pub open spec fn spec_edges_bounded(a: Vertex, b: Vertex, c: Vertex) -> bool {
    &&& -MAX_EDGE_EXTENT <= b.x - a.x <= MAX_EDGE_EXTENT
    &&& -MAX_EDGE_EXTENT <= b.y - a.y <= MAX_EDGE_EXTENT
    &&& -MAX_EDGE_EXTENT <= b.z - a.z <= MAX_EDGE_EXTENT
    &&& -MAX_EDGE_EXTENT <= c.x - a.x <= MAX_EDGE_EXTENT
    &&& -MAX_EDGE_EXTENT <= c.y - a.y <= MAX_EDGE_EXTENT
    &&& -MAX_EDGE_EXTENT <= c.z - a.z <= MAX_EDGE_EXTENT
}

/// A surface with normal `(x, y, z)` is walkable: the vertical component of the normal,
/// scaled to unit length, is greater than the cosine of the threshold angle. A normal of
/// length zero is never walkable.
pub open spec fn spec_walkable_slope(x: int, y: int, z: int, threshold: SlopeThreshold) -> bool {
    y > 0 && y * y * threshold.cos_squared_den > threshold.cos_squared_num * (x * x + y * y + z
        * z)
}

fn within_extent(from: i32, to: i32) -> (r: bool)
    ensures
        r == (-MAX_EDGE_EXTENT <= to - from <= MAX_EDGE_EXTENT),
{
    let d: i64 = to as i64 - from as i64;
    -MAX_EDGE_EXTENT <= d && d <= MAX_EDGE_EXTENT
}

/// Tests whether the corners of a triangle are at most [`MAX_EDGE_EXTENT`] apart along every
/// axis.
pub fn edges_bounded(a: &Vertex, b: &Vertex, c: &Vertex) -> (r: bool)
    ensures
        r == spec_edges_bounded(*a, *b, *c),
{
    within_extent(a.x, b.x) && within_extent(a.y, b.y) && within_extent(a.z, b.z) && within_extent(
        a.x,
        c.x,
    ) && within_extent(a.y, c.y) && within_extent(a.z, c.z)
}

/// Computes the cross product of the edges from `a` to `b` and from `a` to `c`.
pub fn normal(a: &Vertex, b: &Vertex, c: &Vertex) -> (n: Normal)
    requires
        spec_edges_bounded(*a, *b, *c),
    ensures
        (n.x as int, n.y as int, n.z as int) == spec_normal(*a, *b, *c),
        -0x8000_0000_0000 <= n.x <= 0x8000_0000_0000,
        -0x8000_0000_0000 <= n.y <= 0x8000_0000_0000,
        -0x8000_0000_0000 <= n.z <= 0x8000_0000_0000,
{
    let abx: i64 = b.x as i64 - a.x as i64;
    let aby: i64 = b.y as i64 - a.y as i64;
    let abz: i64 = b.z as i64 - a.z as i64;
    let acx: i64 = c.x as i64 - a.x as i64;
    let acy: i64 = c.y as i64 - a.y as i64;
    let acz: i64 = c.z as i64 - a.z as i64;
    proof {
        lemma_product_bounded(aby as int, acz as int);
        lemma_product_bounded(abz as int, acy as int);
        lemma_product_bounded(abz as int, acx as int);
        lemma_product_bounded(abx as int, acz as int);
        lemma_product_bounded(abx as int, acy as int);
        lemma_product_bounded(aby as int, acx as int);
    }
    Normal { x: aby * acz - abz * acy, y: abz * acx - abx * acz, z: abx * acy - aby * acx }
}

proof fn lemma_product_bounded(p: int, q: int)
    requires
        -MAX_EDGE_EXTENT <= p <= MAX_EDGE_EXTENT,
        -MAX_EDGE_EXTENT <= q <= MAX_EDGE_EXTENT,
    ensures
        -0x4000_0000_0000 <= p * q <= 0x4000_0000_0000,
{
    assert(-0x4000_0000_0000 <= p * q <= 0x4000_0000_0000) by (nonlinear_arith)
        requires
            -8_388_608 <= p <= 8_388_608,
            -8_388_608 <= q <= 8_388_608,
    ;
}

fn square(v: i64) -> (r: u128)
    requires
        -0x8000_0000_0000 <= v <= 0x8000_0000_0000,
    ensures
        r == v * v,
        r <= 0x4000_0000_0000_0000_0000_0000,
{
    let m: u128 = if v >= 0 {
        v as u128
    } else {
        (-v) as u128
    };
    assert(m * m == v * v && m * m <= 0x4000_0000_0000_0000_0000_0000) by (nonlinear_arith)
        requires
            m == v || m == -v,
            0 <= m <= 0x8000_0000_0000,
    ;
    m * m
}

/// Tests whether a surface with the given normal is walkable.
pub fn is_walkable_slope(n: &Normal, threshold: &SlopeThreshold) -> (r: bool)
    requires
        threshold.wf(),
        -0x8000_0000_0000 <= n.x <= 0x8000_0000_0000,
        -0x8000_0000_0000 <= n.y <= 0x8000_0000_0000,
        -0x8000_0000_0000 <= n.z <= 0x8000_0000_0000,
    ensures
        r == spec_walkable_slope(n.x as int, n.y as int, n.z as int, *threshold),
{
    if n.y <= 0 {
        return false;
    }
    let xx = square(n.x);
    let yy = square(n.y);
    let zz = square(n.z);
    let length: u128 = xx + yy + zz;
    let den: u128 = threshold.cos_squared_den as u128;
    let num: u128 = threshold.cos_squared_num as u128;
    assert(yy * den <= 0x4000_0000_0000_0000_0000_0000 * 0x1_0000_0000 && num * length <= 0x1_0000_0000
        * 0xc000_0000_0000_0000_0000_0000) by (nonlinear_arith)
        requires
            0 <= yy <= 0x4000_0000_0000_0000_0000_0000,
            0 <= length <= 0xc000_0000_0000_0000_0000_0000,
            0 <= den <= 0x1_0000_0000,
            0 <= num <= 0x1_0000_0000,
    ;
    yy * den > num * length
}

impl TrimeshedCollider {
    /// The corners of every triangle are at most [`MAX_EDGE_EXTENT`] apart along every axis.
    pub open spec fn spec_all_edges_bounded(&self) -> bool {
        forall|i: int|
            0 <= i < self.indices@.len() ==> spec_edges_bounded(
                (#[trigger] self.spec_triangle(i)).0,
                self.spec_triangle(i).1,
                self.spec_triangle(i).2,
            )
    }

    /// Tests whether the corners of every triangle are at most [`MAX_EDGE_EXTENT`] apart along
    /// every axis.
    pub fn all_edges_bounded(&self) -> (r: bool)
        requires
            self.wf(),
        ensures
            r == self.spec_all_edges_bounded(),
    {
        let n = self.indices.len();
        let mut i: usize = 0;
        while i < n
            invariant
                self.wf(),
                n == self.indices@.len(),
                i <= n,
                forall|j: int|
                    0 <= j < i ==> spec_edges_bounded(
                        (#[trigger] self.spec_triangle(j)).0,
                        self.spec_triangle(j).1,
                        self.spec_triangle(j).2,
                    ),
            decreases n - i,
        {
            let t = self.triangle(i);
            if !edges_bounded(&t[0], &t[1], &t[2]) {
                assert(!spec_edges_bounded(
                    self.spec_triangle(i as int).0,
                    self.spec_triangle(i as int).1,
                    self.spec_triangle(i as int).2,
                ));
                return false;
            }
            i = i + 1;
        }
        true
    }

    /// Triangle `i` is walkable under the threshold.
    pub open spec fn spec_walkable(&self, i: int, threshold: SlopeThreshold) -> bool {
        let (a, b, c) = self.spec_triangle(i);
        let (x, y, z) = spec_normal(a, b, c);
        spec_walkable_slope(x, y, z, threshold)
    }

    /// Marks the triangles whose slope is below the threshold as walkable.
    ///
    /// A triangle is marked where the vertical component of its unit normal is greater than
    /// the cosine of the threshold angle. The tags of the other triangles stay as they are:
    /// no tag is ever taken back.
    pub fn mark_walkable_triangles(&mut self, threshold: SlopeThreshold)
        requires
            old(self).wf(),
            old(self).spec_all_edges_bounded(),
            threshold.wf(),
        ensures
            final(self).wf(),
            final(self).vertices@ == old(self).vertices@,
            final(self).indices@ == old(self).indices@,
            final(self).area_types@.len() == old(self).area_types@.len(),
            forall|i: int|
                0 <= i < final(self).area_types@.len() ==> #[trigger] final(self).area_types@[i]
                    == if old(self).spec_walkable(i, threshold) {
                    AreaType::Walkable
                } else {
                    old(self).area_types@[i]
                },
    {
        let n = self.indices.len();
        let mut i: usize = 0;
        while i < n
            invariant
                self.wf(),
                threshold.wf(),
                self.vertices@ == old(self).vertices@,
                self.indices@ == old(self).indices@,
                self.area_types@.len() == old(self).area_types@.len(),
                old(self).spec_all_edges_bounded(),
                n == self.indices@.len(),
                i <= n,
                forall|j: int|
                    0 <= j < i ==> #[trigger] self.area_types@[j] == if old(self).spec_walkable(
                        j,
                        threshold,
                    ) {
                        AreaType::Walkable
                    } else {
                        old(self).area_types@[j]
                    },
                forall|j: int| i <= j < n ==> #[trigger] self.area_types@[j] == old(
                    self,
                ).area_types@[j],
            decreases n - i,
        {
            let triangle = self.triangle(i);
            proof {
                assert(self.spec_triangle(i as int) == old(self).spec_triangle(i as int));
                assert(spec_edges_bounded(
                    old(self).spec_triangle(i as int).0,
                    old(self).spec_triangle(i as int).1,
                    old(self).spec_triangle(i as int).2,
                ));
            }
            let n_i = normal(&triangle[0], &triangle[1], &triangle[2]);
            if is_walkable_slope(&n_i, &threshold) {
                self.area_types[i] = AreaType::Walkable;
            }
            i = i + 1;
        }
    }
}

/// A level surface that faces up is walkable under every threshold but that of zero degrees,
/// the one whose squared cosine is one.
pub proof fn lemma_level_is_walkable(y: int, threshold: SlopeThreshold)
    requires
        threshold.wf(),
        y > 0,
    ensures
        spec_walkable_slope(0, y, 0, threshold) <==> threshold.cos_squared_num
            < threshold.cos_squared_den,
{
    let num = threshold.cos_squared_num as int;
    let den = threshold.cos_squared_den as int;
    assert((y * y * den > num * (0 * 0 + y * y + 0 * 0)) <==> num < den) by (nonlinear_arith)
        requires
            y > 0,
    ;
}

/// An upright surface is never walkable, whatever the threshold.
pub proof fn lemma_upright_is_not_walkable(x: int, z: int, threshold: SlopeThreshold)
    ensures
        !spec_walkable_slope(x, 0, z, threshold),
{
}

/// The normal of a triangle whose corners are all at one height points straight up or down.
pub proof fn lemma_level_triangle_normal(a: Vertex, b: Vertex, c: Vertex)
    requires
        a.y == b.y,
        a.y == c.y,
    ensures
        spec_normal(a, b, c).0 == 0,
        spec_normal(a, b, c).2 == 0,
{
    let abz = b.z - a.z;
    let abx = b.x - a.x;
    assert(0 * (c.z - a.z) - abz * 0 == 0) by (nonlinear_arith);
    assert(abx * 0 - 0 * (c.x - a.x) == 0) by (nonlinear_arith);
}

} // verus!
