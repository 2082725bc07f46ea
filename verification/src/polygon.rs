//! Small polygons held in fixed-capacity buffers, and their division by an axis-aligned plane.

use vstd::prelude::*;
use crate::arith::{lemma_floor_of_negative, lemma_scaled_between};
use crate::geometry::Vertex;

verus! {

/// The largest number of vertices a polygon may have when it is divided.
pub const MAX_DIVIDED_VERTICES: usize = 12;

/// The number of vertices a polygon buffer can hold. Dividing a polygon emits at most two
/// vertices per input vertex on either side.
pub const POLYGON_CAPACITY: usize = 24;

/// The horizontal axis that a dividing plane is perpendicular to.
#[derive(Clone, Copy, Debug, PartialEq, Eq, Structural)]
pub enum DivisionAxis {
    X,
    Z,
}

/// Why a polygon could not be divided.
#[derive(Clone, Copy, Debug, PartialEq, Eq, Structural)]
pub enum PolygonDivisionError {
    /// The polygon has more than twelve vertices; the count is carried along.
    TooManyVertices(u8),
    /// The polygon has no vertices.
    NoVertices,
}

/// An ordered list of at most [`POLYGON_CAPACITY`] vertices, stored inline.
#[derive(Clone, Copy, Debug)]
pub struct Polygon {
    verts: [Vertex; 24],
    len: usize,
}

impl View for Polygon {
    type V = Seq<Vertex>;

    closed spec fn view(&self) -> Seq<Vertex> {
        self.verts@.take(self.len as int)
    }
}

impl Polygon {
    #[verifier::type_invariant]
    spec fn inv(&self) -> bool {
        self.len <= 24
    }

    /// A polygon without vertices.
    pub fn new() -> (p: Polygon)
        ensures
            p@ == Seq::<Vertex>::empty(),
    {
        let p = Polygon { verts: [Vertex { x: 0, y: 0, z: 0 }; 24], len: 0 };
        assert(p@ =~= Seq::<Vertex>::empty());
        p
    }

    /// The polygon whose vertices are the corners of a triangle, in the same order.
    pub fn from_triangle(triangle: &[Vertex; 3]) -> (p: Polygon)
        ensures
            p@ == seq![triangle[0], triangle[1], triangle[2]],
    {
        let mut p = Polygon::new();
        p.push(triangle[0]);
        p.push(triangle[1]);
        p.push(triangle[2]);
        assert(p@ =~= seq![triangle[0], triangle[1], triangle[2]]);
        p
    }

    /// The number of vertices.
    pub fn len(&self) -> (n: usize)
        ensures
            n == self@.len(),
            n <= POLYGON_CAPACITY,
    {
        proof {
            use_type_invariant(self);
        }
        self.len
    }

    /// The vertex at position `i`.
    pub fn get(&self, i: usize) -> (v: Vertex)
        requires
            i < self@.len(),
        ensures
            v == self@[i as int],
    {
        proof {
            use_type_invariant(self);
        }
        self.verts[i]
    }

    /// Appends a vertex.
    pub fn push(&mut self, v: Vertex)
        requires
            old(self)@.len() < POLYGON_CAPACITY,
        ensures
            final(self)@ == old(self)@.push(v),
    {
        proof {
            use_type_invariant(&*self);
        }
        self.verts[self.len] = v;
        self.len = self.len + 1;
        assert(self@ =~= old(self)@.push(v));
    }
}

impl DivisionAxis {
    /// The coordinate of a vertex along this axis.
    pub open spec fn spec_coordinate(self, v: Vertex) -> int {
        match self {
            DivisionAxis::X => v.x as int,
            DivisionAxis::Z => v.z as int,
        }
    }

    /// Reads the coordinate of a vertex along this axis.
    pub fn coordinate(self, v: &Vertex) -> (c: i32)
        ensures
            c == self.spec_coordinate(*v),
    {
        match self {
            DivisionAxis::X => v.x,
            DivisionAxis::Z => v.z,
        }
    }
}

/// The point `num / den` of the way from `from` to `to`, rounded to the nearest whole unit;
/// a half is rounded up.
pub open spec fn spec_lerp(from: int, to: int, num: int, den: int) -> int {
    from + (2 * (to - from) * num + den) / (2 * den)
}

/// The point where the edge from `b` to `a` meets the dividing plane, where `db` and `da` are
/// the signed distances of the two endpoints to the plane: the exact meeting point with each
/// coordinate rounded to the nearest whole unit.
pub open spec fn crossing(b: Vertex, a: Vertex, db: int, da: int) -> Vertex {
    let num = vstd::math::abs(db) as int;
    let den = (vstd::math::abs(db) + vstd::math::abs(da)) as int;
    Vertex {
        x: spec_lerp(b.x as int, a.x as int, num, den) as i32,
        y: spec_lerp(b.y as int, a.y as int, num, den) as i32,
        z: spec_lerp(b.z as int, a.z as int, num, den) as i32,
    }
}

/// The position before `i` when walking cyclically through `n` positions.
pub open spec fn previous_index(n: int, i: int) -> int {
    if i == 0 {
        n - 1
    } else {
        i - 1
    }
}

/// The signed distance from a vertex to the plane: positive on the lower side.
pub open spec fn plane_distance(v: Vertex, offset: int, axis: DivisionAxis) -> int {
    offset - axis.spec_coordinate(v)
}

/// The edge that ends in a vertex at distance `da` and starts in one at distance `db`
/// passes from one side of the plane to the other.
pub open spec fn crosses(db: int, da: int) -> bool {
    (da >= 0) != (db >= 0)
}

/// What vertex `i` of the polygon adds to the lower side (coordinates up to the plane).
pub open spec fn lower_at(poly: Seq<Vertex>, offset: int, axis: DivisionAxis, i: int) -> Seq<
    Vertex,
> {
    let a = poly[i];
    let b = poly[previous_index(poly.len() as int, i)];
    let da = plane_distance(a, offset, axis);
    let db = plane_distance(b, offset, axis);
    if crosses(db, da) {
        if da > 0 {
            seq![crossing(b, a, db, da), a]
        } else {
            seq![crossing(b, a, db, da)]
        }
    } else if da >= 0 {
        seq![a]
    } else {
        Seq::empty()
    }
}

/// What vertex `i` of the polygon adds to the upper side (coordinates from the plane on).
pub open spec fn upper_at(poly: Seq<Vertex>, offset: int, axis: DivisionAxis, i: int) -> Seq<
    Vertex,
> {
    let a = poly[i];
    let b = poly[previous_index(poly.len() as int, i)];
    let da = plane_distance(a, offset, axis);
    let db = plane_distance(b, offset, axis);
    if crosses(db, da) {
        if da < 0 {
            seq![crossing(b, a, db, da), a]
        } else {
            seq![crossing(b, a, db, da)]
        }
    } else if da <= 0 {
        seq![a]
    } else {
        Seq::empty()
    }
}

/// The lower side of the division, built from the first `upto` vertices of the polygon.
pub open spec fn lower_side(poly: Seq<Vertex>, offset: int, axis: DivisionAxis, upto: nat) -> Seq<
    Vertex,
>
    decreases upto,
{
    if upto == 0 {
        Seq::empty()
    } else {
        lower_side(poly, offset, axis, (upto - 1) as nat) + lower_at(
            poly,
            offset,
            axis,
            upto - 1,
        )
    }
}

/// The upper side of the division, built from the first `upto` vertices of the polygon.
pub open spec fn upper_side(poly: Seq<Vertex>, offset: int, axis: DivisionAxis, upto: nat) -> Seq<
    Vertex,
>
    decreases upto,
{
    if upto == 0 {
        Seq::empty()
    } else {
        upper_side(poly, offset, axis, (upto - 1) as nat) + upper_at(
            poly,
            offset,
            axis,
            upto - 1,
        )
    }
}

/// The outcome of dividing a polygon by the plane at `offset` along `axis`: the lower and the
/// upper side, or the reason why the polygon is refused.
pub open spec fn spec_divide_poly(poly: Seq<Vertex>, offset: int, axis: DivisionAxis) -> Result<
    (Seq<Vertex>, Seq<Vertex>),
    PolygonDivisionError,
> {
    if poly.len() > MAX_DIVIDED_VERTICES {
        Err(PolygonDivisionError::TooManyVertices(poly.len() as u8))
    } else if poly.len() == 0 {
        Err(PolygonDivisionError::NoVertices)
    } else {
        Ok(
            (
                lower_side(poly, offset, axis, poly.len()),
                upper_side(poly, offset, axis, poly.len()),
            ),
        )
    }
}

/// Computes [`spec_lerp`] for a fraction between zero and one.
fn lerp(from: i32, to: i32, num: i128, den: i128) -> (r: i32)
    requires
        0 <= num <= den,
        0 < den <= 0x4_0000_0000_0000_0000,
    ensures
        r == spec_lerp(from as int, to as int, num as int, den as int),
        vstd::math::min(from as int, to as int) <= r <= vstd::math::max(from as int, to as int),
{
    let diff: i128 = to as i128 - from as i128;
    proof {
        lemma_scaled_between(diff as int, num as int, den as int);
        assert(-0x8_0000_0000 * 0x4_0000_0000_0000_0000 <= 2 * diff * num <= 0x8_0000_0000
            * 0x4_0000_0000_0000_0000) by (nonlinear_arith)
            requires
                -0x1_0000_0000 <= diff <= 0x1_0000_0000,
                0 <= num <= 0x4_0000_0000_0000_0000,
        ;
    }
    let n: i128 = 2 * diff * num + den;
    let d: i128 = 2 * den;
    if n >= 0 {
        (from as i128 + n / d) as i32
    } else {
        proof {
            lemma_floor_of_negative(-n as int, d as int);
        }
        let q: i128 = (-n + d - 1) / d;
        (from as i128 - q) as i32
    }
}

/// Computes [`crossing`] for an edge whose endpoints lie on different sides of the plane.
fn crossing_point(b: &Vertex, a: &Vertex, db: i128, da: i128) -> (c: Vertex)
    requires
        crosses(db as int, da as int),
        -0x2_0000_0000_0000_0000 <= db <= 0x2_0000_0000_0000_0000,
        -0x2_0000_0000_0000_0000 <= da <= 0x2_0000_0000_0000_0000,
    ensures
        c == crossing(*b, *a, db as int, da as int),
{
    let num: i128 = if db >= 0 {
        db
    } else {
        -db
    };
    let rest: i128 = if da >= 0 {
        da
    } else {
        -da
    };
    let den: i128 = num + rest;
    Vertex {
        x: lerp(b.x, a.x, num, den),
        y: lerp(b.y, a.y, num, den),
        z: lerp(b.z, a.z, num, den),
    }
}

/// Divides a polygon of at most twelve vertices into two polygons across a plane
/// perpendicular to `axis_dir` at coordinate `axis_offset`.
///
/// The first polygon returned lies on the lower side of the plane, the second on the upper
/// side. Where an edge passes through the plane, the meeting point goes to both. A polygon
/// without vertices, or with more than twelve, is refused.
pub fn divide_poly(in_verts: &Polygon, axis_offset: i64, axis_dir: DivisionAxis) -> (r: Result<
    (Polygon, Polygon),
    PolygonDivisionError,
>)
    ensures
        match r {
            Ok((lower, upper)) => spec_divide_poly(in_verts@, axis_offset as int, axis_dir) == Ok::<
                (Seq<Vertex>, Seq<Vertex>),
                PolygonDivisionError,
            >((lower@, upper@)),
            Err(e) => spec_divide_poly(in_verts@, axis_offset as int, axis_dir) == Err::<
                (Seq<Vertex>, Seq<Vertex>),
                PolygonDivisionError,
            >(e),
        },
{
    let n = in_verts.len();
    if n > MAX_DIVIDED_VERTICES {
        return Err(PolygonDivisionError::TooManyVertices(n as u8));
    } else if n == 0 {
        return Err(PolygonDivisionError::NoVertices);
    }
    let mut lower = Polygon::new();
    let mut upper = Polygon::new();
    let mut b = in_verts.get(n - 1);
    let mut db: i128 = axis_offset as i128 - axis_dir.coordinate(&b) as i128;
    let mut i: usize = 0;
    while i < n
        invariant
            n == in_verts@.len(),
            1 <= n <= MAX_DIVIDED_VERTICES,
            i <= n,
            b == in_verts@[previous_index(n as int, i as int)],
            db == plane_distance(b, axis_offset as int, axis_dir),
            lower@ == lower_side(in_verts@, axis_offset as int, axis_dir, i as nat),
            upper@ == upper_side(in_verts@, axis_offset as int, axis_dir, i as nat),
            lower@.len() <= 2 * i,
            upper@.len() <= 2 * i,
        decreases n - i,
    {
        let a = in_verts.get(i);
        let da: i128 = axis_offset as i128 - axis_dir.coordinate(&a) as i128;
        let ghost lower_before = lower@;
        let ghost upper_before = upper@;
        if (da >= 0) != (db >= 0) {
            let c = crossing_point(&b, &a, db, da);
            lower.push(c);
            upper.push(c);
            if da > 0 {
                lower.push(a);
            } else if da < 0 {
                upper.push(a);
            }
        } else {
            if da >= 0 {
                lower.push(a);
            }
            if da <= 0 {
                upper.push(a);
            }
        }
        proof {
            assert(lower@ =~= lower_before + lower_at(
                in_verts@,
                axis_offset as int,
                axis_dir,
                i as int,
            ));
            assert(upper@ =~= upper_before + upper_at(
                in_verts@,
                axis_offset as int,
                axis_dir,
                i as int,
            ));
        }
        b = a;
        db = da;
        i = i + 1;
    }
    Ok((lower, upper))
}

} // verus!
