//! Polygons that do not zigzag, and why division keeps them so.
//!
//! A polygon zigzags around a plane where four of its vertices, taken in order, lie
//! alternately on the two sides of the plane. Walking around a polygon that does not zigzag,
//! one passes through the plane at most twice.

use vstd::prelude::*;
use crate::geometry::{Aabb, Vertex};
use crate::polygon::{
    crosses,
    crossing,
    lower_at,
    lower_side,
    plane_distance,
    previous_index,
    upper_at,
    upper_side,
    DivisionAxis,
};
use crate::polygon_laws::{
    above,
    below,
    lemma_crossing_on_plane,
    lemma_division_conserves_vertices,
};

verus! {

/// The vertex lies on the plane or on the lower side of it.
pub open spec fn at_or_below(v: Vertex, offset: int, axis: DivisionAxis) -> bool {
    axis.spec_coordinate(v) <= offset
}

/// Four vertices of the polygon, in order, lie alternately on the two sides of the plane.
pub open spec fn alternates(
    poly: Seq<Vertex>,
    offset: int,
    axis: DivisionAxis,
    i: int,
    j: int,
    k: int,
    l: int,
) -> bool {
    &&& 0 <= i < j < k < l < poly.len()
    &&& at_or_below(poly[i], offset, axis) != at_or_below(poly[j], offset, axis)
    &&& at_or_below(poly[j], offset, axis) != at_or_below(poly[k], offset, axis)
    &&& at_or_below(poly[k], offset, axis) != at_or_below(poly[l], offset, axis)
}

/// The polygon does not zigzag around the plane.
pub open spec fn no_zigzag_at(poly: Seq<Vertex>, offset: int, axis: DivisionAxis) -> bool {
    forall|i: int, j: int, k: int, l: int|
        !alternates(poly, offset, axis, i, j, k, l)
}

/// The polygon does not zigzag around any plane at a right angle to the axis.
pub open spec fn no_zigzag(poly: Seq<Vertex>, axis: DivisionAxis) -> bool {
    forall|offset: int| #[trigger] no_zigzag_at(poly, offset, axis)
}

/// The edge that ends in vertex `i` passes through the plane.
pub open spec fn crosses_at(poly: Seq<Vertex>, offset: int, axis: DivisionAxis, i: int) -> bool {
    crosses(
        plane_distance(poly[previous_index(poly.len() as int, i)], offset, axis),
        plane_distance(poly[i], offset, axis),
    )
}

/// The point where the edge that ends in vertex `i` meets the plane.
pub open spec fn crossing_at(poly: Seq<Vertex>, offset: int, axis: DivisionAxis, i: int) -> Vertex {
    crossing(
        poly[previous_index(poly.len() as int, i)],
        poly[i],
        plane_distance(poly[previous_index(poly.len() as int, i)], offset, axis),
        plane_distance(poly[i], offset, axis),
    )
}

/// Vertex `i` itself goes to the given side: the upper one, or else the lower one.
pub open spec fn keeps(
    poly: Seq<Vertex>,
    offset: int,
    axis: DivisionAxis,
    i: int,
    upper: bool,
) -> bool {
    let da = plane_distance(poly[i], offset, axis);
    if upper {
        if crosses_at(poly, offset, axis, i) {
            da < 0
        } else {
            da <= 0
        }
    } else {
        if crosses_at(poly, offset, axis, i) {
            da > 0
        } else {
            da >= 0
        }
    }
}

/// What vertex `i` adds to the given side: the meeting point of its edge with the plane, if
/// there is one, and then the vertex itself, if it goes to that side.
pub open spec fn side_at(
    poly: Seq<Vertex>,
    offset: int,
    axis: DivisionAxis,
    i: int,
    upper: bool,
) -> Seq<Vertex> {
    (if crosses_at(poly, offset, axis, i) {
        seq![crossing_at(poly, offset, axis, i)]
    } else {
        Seq::empty()
    }) + (if keeps(poly, offset, axis, i, upper) {
        seq![poly[i]]
    } else {
        Seq::empty()
    })
}

/// The given side of the division, built from the first `upto` vertices.
pub open spec fn side(
    poly: Seq<Vertex>,
    offset: int,
    axis: DivisionAxis,
    upto: nat,
    upper: bool,
) -> Seq<Vertex>
    decreases upto,
{
    if upto == 0 {
        Seq::empty()
    } else {
        side(poly, offset, axis, (upto - 1) as nat, upper) + side_at(
            poly,
            offset,
            axis,
            upto - 1,
            upper,
        )
    }
}

/// The two sides of a division, seen as one construction.
pub proof fn lemma_side_is(poly: Seq<Vertex>, offset: int, axis: DivisionAxis, upto: nat)
    ensures
        side(poly, offset, axis, upto, false) == lower_side(poly, offset, axis, upto),
        side(poly, offset, axis, upto, true) == upper_side(poly, offset, axis, upto),
    decreases upto,
{
    if upto > 0 {
        let i = upto - 1;
        lemma_side_is(poly, offset, axis, i as nat);
        assert(side_at(poly, offset, axis, i, false) =~= lower_at(poly, offset, axis, i));
        assert(side_at(poly, offset, axis, i, true) =~= upper_at(poly, offset, axis, i));
    }
}

/// The vertex that added position `m` to the side built from the first `upto` vertices.
#[verifier::opaque]
pub open spec fn origin(
    poly: Seq<Vertex>,
    offset: int,
    axis: DivisionAxis,
    upto: nat,
    upper: bool,
    m: int,
) -> int
    decreases upto,
{
    if upto == 0 {
        0
    } else if m >= side(poly, offset, axis, (upto - 1) as nat, upper).len() {
        upto - 1
    } else {
        origin(poly, offset, axis, (upto - 1) as nat, upper, m)
    }
}

/// A side grows with the number of vertices that it is built from.
pub proof fn lemma_side_grows(
    poly: Seq<Vertex>,
    offset: int,
    axis: DivisionAxis,
    fewer: nat,
    upto: nat,
    upper: bool,
)
    requires
        fewer <= upto,
    ensures
        side(poly, offset, axis, fewer, upper).len() <= side(poly, offset, axis, upto, upper).len(),
    decreases upto,
{
    if fewer < upto {
        lemma_side_grows(poly, offset, axis, fewer, (upto - 1) as nat, upper);
    }
}

/// Every position of a side was added by one vertex, as the first or second point of what
/// that vertex adds.
pub proof fn lemma_origin(
    poly: Seq<Vertex>,
    offset: int,
    axis: DivisionAxis,
    upto: nat,
    upper: bool,
    m: int,
)
    requires
        0 <= m < side(poly, offset, axis, upto, upper).len(),
    ensures
        ({
            let i = origin(poly, offset, axis, upto, upper, m);
            let base = side(poly, offset, axis, i as nat, upper).len();
            &&& 0 <= i < upto
            &&& base <= m < base + side_at(poly, offset, axis, i, upper).len()
            &&& side(poly, offset, axis, upto, upper)[m] == side_at(poly, offset, axis, i, upper)[m
                - base]
        }),
    decreases upto,
{
    reveal(origin);
    let before = side(poly, offset, axis, (upto - 1) as nat, upper);
    if m < before.len() {
        lemma_origin(poly, offset, axis, (upto - 1) as nat, upper, m);
    }
}

/// The vertices that added two positions of a side come in the order of the positions.
pub proof fn lemma_origin_ordered(
    poly: Seq<Vertex>,
    offset: int,
    axis: DivisionAxis,
    upto: nat,
    upper: bool,
    m: int,
    later: int,
)
    requires
        0 <= m < later < side(poly, offset, axis, upto, upper).len(),
    ensures
        origin(poly, offset, axis, upto, upper, m) <= origin(poly, offset, axis, upto, upper, later),
{
    lemma_origin(poly, offset, axis, upto, upper, m);
    lemma_origin(poly, offset, axis, upto, upper, later);
    let i = origin(poly, offset, axis, upto, upper, m);
    let j = origin(poly, offset, axis, upto, upper, later);
    if j < i {
        lemma_side_grows(poly, offset, axis, (j + 1) as nat, i as nat, upper);
    }
}

/// The smallest box that holds two points.
pub open spec fn box_of(a: Vertex, b: Vertex) -> Aabb {
    Aabb {
        min: Vertex {
            x: vstd::math::min(a.x as int, b.x as int) as i32,
            y: vstd::math::min(a.y as int, b.y as int) as i32,
            z: vstd::math::min(a.z as int, b.z as int) as i32,
        },
        max: Vertex {
            x: vstd::math::max(a.x as int, b.x as int) as i32,
            y: vstd::math::max(a.y as int, b.y as int) as i32,
            z: vstd::math::max(a.z as int, b.z as int) as i32,
        },
    }
}

/// The point where an edge meets the plane lies, with respect to any other plane, on the side
/// of one of the two ends of the edge.
pub proof fn lemma_crossing_sides(
    poly: Seq<Vertex>,
    offset: int,
    axis: DivisionAxis,
    i: int,
    other: int,
    other_axis: DivisionAxis,
)
    requires
        0 <= i < poly.len(),
        crosses_at(poly, offset, axis, i),
    ensures
        at_or_below(crossing_at(poly, offset, axis, i), other, other_axis) == at_or_below(
            poly[i],
            other,
            other_axis,
        ) || at_or_below(crossing_at(poly, offset, axis, i), other, other_axis) == at_or_below(
            poly[previous_index(poly.len() as int, i)],
            other,
            other_axis,
        ),
{
    let a = poly[i];
    let b = poly[previous_index(poly.len() as int, i)];
    lemma_crossing_on_plane(b, a, offset, axis);
    let bounds = box_of(a, b);
    assert(bounds.spec_contains(a) && bounds.spec_contains(b));
    assert(bounds.spec_contains(crossing_at(poly, offset, axis, i)));
}

/// A vertex of the polygon that lies, with respect to another plane, on the same side as
/// position `m` of the given side of the division: the vertex that added the position, or,
/// for a meeting point that lies on the other side than that vertex, the vertex before it.
#[verifier::opaque]
pub open spec fn source(
    poly: Seq<Vertex>,
    offset: int,
    axis: DivisionAxis,
    upper: bool,
    m: int,
    other: int,
    other_axis: DivisionAxis,
) -> int {
    let i = origin(poly, offset, axis, poly.len(), upper, m);
    let base = side(poly, offset, axis, i as nat, upper).len();
    if crosses_at(poly, offset, axis, i) && m == base && at_or_below(
        crossing_at(poly, offset, axis, i),
        other,
        other_axis,
    ) != at_or_below(poly[i], other, other_axis) {
        previous_index(poly.len() as int, i)
    } else {
        i
    }
}

proof fn lemma_source(
    poly: Seq<Vertex>,
    offset: int,
    axis: DivisionAxis,
    upper: bool,
    m: int,
    other: int,
    other_axis: DivisionAxis,
)
    requires
        0 <= m < side(poly, offset, axis, poly.len(), upper).len(),
    ensures
        ({
            let i = origin(poly, offset, axis, poly.len(), upper, m);
            let base = side(poly, offset, axis, i as nat, upper).len();
            let s = source(poly, offset, axis, upper, m, other, other_axis);
            &&& 0 <= i < poly.len()
            &&& 0 <= s < poly.len()
            &&& base <= m <= base + 1
            &&& s == i || (m == base && s == previous_index(poly.len() as int, i))
            &&& at_or_below(side(poly, offset, axis, poly.len(), upper)[m], other, other_axis)
                == at_or_below(poly[s], other, other_axis)
        }),
{
    reveal(source);
    lemma_origin(poly, offset, axis, poly.len(), upper, m);
    let i = origin(poly, offset, axis, poly.len(), upper, m);
    if crosses_at(poly, offset, axis, i) {
        lemma_crossing_sides(poly, offset, axis, i, other, other_axis);
    }
}

/// The sources of two positions of a side come in the order of the positions, unless the
/// first position is the very first of the side and its source is the last vertex.
proof fn lemma_source_ordered(
    poly: Seq<Vertex>,
    offset: int,
    axis: DivisionAxis,
    upper: bool,
    m: int,
    later: int,
    other: int,
    other_axis: DivisionAxis,
)
    requires
        0 <= m < later < side(poly, offset, axis, poly.len(), upper).len(),
    ensures
        ({
            let s = source(poly, offset, axis, upper, m, other, other_axis);
            let t = source(poly, offset, axis, upper, later, other, other_axis);
            s <= t || (m == 0 && s == poly.len() - 1)
        }),
{
    let n = poly.len();
    lemma_source(poly, offset, axis, upper, m, other, other_axis);
    lemma_source(poly, offset, axis, upper, later, other, other_axis);
    lemma_origin_ordered(poly, offset, axis, n, upper, m, later);
    let i = origin(poly, offset, axis, n, upper, m);
    let j = origin(poly, offset, axis, n, upper, later);
    let s = source(poly, offset, axis, upper, m, other, other_axis);
    let t = source(poly, offset, axis, upper, later, other, other_axis);
    assert(side(poly, offset, axis, 0, upper).len() == 0);
    if i == j {
        assert(t == j);
    } else {
        lemma_side_grows(poly, offset, axis, 0, j as nat, upper);
        lemma_side_grows(poly, offset, axis, (i + 1) as nat, j as nat, upper);
        assert(j >= 1);
        assert(t == j || t == j - 1);
    }
}

/// Division keeps a polygon from zigzagging: a side of a polygon that does not zigzag around a
/// plane does not zigzag around it either.
pub proof fn lemma_side_no_zigzag(
    poly: Seq<Vertex>,
    offset: int,
    axis: DivisionAxis,
    upper: bool,
    other: int,
    other_axis: DivisionAxis,
)
    requires
        no_zigzag_at(poly, other, other_axis),
    ensures
        no_zigzag_at(side(poly, offset, axis, poly.len(), upper), other, other_axis),
{
    let n = poly.len();
    let s = side(poly, offset, axis, n, upper);
    assert forall|m1: int, m2: int, m3: int, m4: int| !alternates(
        s,
        other,
        other_axis,
        m1,
        m2,
        m3,
        m4,
    ) by {
        if alternates(s, other, other_axis, m1, m2, m3, m4) {
            lemma_sources_zigzag(poly, offset, axis, upper, other, other_axis, m1, m2, m3, m4);
        }
    }
}

proof fn lemma_sources_zigzag(
    poly: Seq<Vertex>,
    offset: int,
    axis: DivisionAxis,
    upper: bool,
    other: int,
    other_axis: DivisionAxis,
    m1: int,
    m2: int,
    m3: int,
    m4: int,
)
    requires
        alternates(
            side(poly, offset, axis, poly.len(), upper),
            other,
            other_axis,
            m1,
            m2,
            m3,
            m4,
        ),
    ensures
        exists|i: int, j: int, k: int, l: int| alternates(poly, other, other_axis, i, j, k, l),
{
    lemma_source(poly, offset, axis, upper, m1, other, other_axis);
    lemma_source(poly, offset, axis, upper, m2, other, other_axis);
    lemma_source(poly, offset, axis, upper, m3, other, other_axis);
    lemma_source(poly, offset, axis, upper, m4, other, other_axis);
    lemma_source_ordered(poly, offset, axis, upper, m1, m2, other, other_axis);
    lemma_source_ordered(poly, offset, axis, upper, m2, m3, other, other_axis);
    lemma_source_ordered(poly, offset, axis, upper, m3, m4, other, other_axis);
    let s1 = source(poly, offset, axis, upper, m1, other, other_axis);
    let s2 = source(poly, offset, axis, upper, m2, other, other_axis);
    let s3 = source(poly, offset, axis, upper, m3, other, other_axis);
    let s4 = source(poly, offset, axis, upper, m4, other, other_axis);
    lemma_four_in_order(poly, other, other_axis, s1, s2, s3, s4);
}

/// Four vertices that lie alternately on the two sides of a plane, and come in order but for
/// the first, which may be the last vertex of the polygon, make the polygon zigzag.
proof fn lemma_four_in_order(
    poly: Seq<Vertex>,
    other: int,
    other_axis: DivisionAxis,
    s1: int,
    s2: int,
    s3: int,
    s4: int,
)
    requires
        0 <= s1 < poly.len(),
        0 <= s2 < poly.len(),
        0 <= s3 < poly.len(),
        0 <= s4 < poly.len(),
        s1 <= s2 || s1 == poly.len() - 1,
        s2 <= s3,
        s3 <= s4,
        at_or_below(poly[s1], other, other_axis) != at_or_below(poly[s2], other, other_axis),
        at_or_below(poly[s2], other, other_axis) != at_or_below(poly[s3], other, other_axis),
        at_or_below(poly[s3], other, other_axis) != at_or_below(poly[s4], other, other_axis),
    ensures
        exists|i: int, j: int, k: int, l: int| alternates(poly, other, other_axis, i, j, k, l),
{
    if s1 <= s2 {
        assert(alternates(poly, other, other_axis, s1, s2, s3, s4));
    } else {
        assert(alternates(poly, other, other_axis, s2, s3, s4, s1));
    }
}

/// The number of edges, among those that end in the first `upto` vertices, that pass through
/// the plane.
pub open spec fn crossings(poly: Seq<Vertex>, offset: int, axis: DivisionAxis, upto: nat) -> nat
    decreases upto,
{
    if upto == 0 {
        0
    } else {
        crossings(poly, offset, axis, (upto - 1) as nat) + if crosses_at(
            poly,
            offset,
            axis,
            upto - 1,
        ) {
            1nat
        } else {
            0nat
        }
    }
}

/// Where edges pass through the plane, there is a last one among them.
proof fn lemma_last_crossing(poly: Seq<Vertex>, offset: int, axis: DivisionAxis, upto: nat) -> (i:
    int)
    requires
        crossings(poly, offset, axis, upto) >= 1,
    ensures
        0 <= i < upto,
        crosses_at(poly, offset, axis, i),
        crossings(poly, offset, axis, i as nat) == crossings(poly, offset, axis, upto) - 1,
    decreases upto,
{
    if crosses_at(poly, offset, axis, upto - 1) {
        upto - 1
    } else {
        lemma_last_crossing(poly, offset, axis, (upto - 1) as nat)
    }
}

/// Walking around a polygon that does not zigzag around a plane, one passes through the plane
/// at most twice.
pub proof fn lemma_crossings_bounded(poly: Seq<Vertex>, offset: int, axis: DivisionAxis)
    requires
        no_zigzag_at(poly, offset, axis),
    ensures
        crossings(poly, offset, axis, poly.len()) <= 2,
{
    let n = poly.len() as int;
    if crossings(poly, offset, axis, poly.len()) >= 3 {
        let third = lemma_last_crossing(poly, offset, axis, poly.len());
        let second = lemma_last_crossing(poly, offset, axis, third as nat);
        let first = lemma_last_crossing(poly, offset, axis, second as nat);
        let low = |i: int| at_or_below(poly[i], offset, axis);
        assert(low(second - 1) != low(second));
        assert(low(third - 1) != low(third));
        if first >= 1 {
            assert(low(first - 1) != low(first));
            if low(second - 1) != low(first) {
                assert(alternates(poly, offset, axis, first - 1, first, second - 1, second));
            } else {
                let last = if low(third - 1) != low(second) {
                    third - 1
                } else {
                    third
                };
                assert(alternates(poly, offset, axis, first - 1, first, second, last));
            }
        } else {
            assert(low(n - 1) != low(0));
            let next = if low(second - 1) != low(0) {
                second - 1
            } else {
                second
            };
            let after = if low(third - 1) != low(next) {
                third - 1
            } else {
                third
            };
            assert(alternates(poly, offset, axis, 0, next, after, n - 1));
        }
    }
}

/// A polygon of at most three vertices does not zigzag.
pub proof fn lemma_triangle_no_zigzag(poly: Seq<Vertex>, axis: DivisionAxis)
    requires
        poly.len() <= 3,
    ensures
        no_zigzag(poly, axis),
{
    assert forall|offset: int| #[trigger] no_zigzag_at(poly, offset, axis) by {}
}

/// The vertices on the plane or on the upper side of it.
pub open spec fn reaches(offset: int, axis: DivisionAxis) -> spec_fn(Vertex) -> bool {
    |v: Vertex| axis.spec_coordinate(v) >= offset
}

/// A filter that lets fewer vertices pass keeps fewer of them.
pub proof fn lemma_filter_smaller(
    s: Seq<Vertex>,
    p: spec_fn(Vertex) -> bool,
    q: spec_fn(Vertex) -> bool,
)
    requires
        forall|i: int| 0 <= i < s.len() && p(#[trigger] s[i]) ==> q(s[i]),
    ensures
        s.filter(p).len() <= s.filter(q).len(),
    decreases s.len(),
{
    reveal(Seq::filter);
    if s.len() > 0 {
        let front = s.drop_last();
        assert forall|i: int| 0 <= i < front.len() && p(#[trigger] front[i]) implies q(
            front[i],
        ) by {
            assert(front[i] == s[i]);
        }
        lemma_filter_smaller(front, p, q);
        assert(s.last() == s[s.len() - 1]);
    }
}

/// A side has one vertex for each edge that passes through the plane, and at most one more
/// for each vertex of the polygon; the upper side has at most one more for each vertex that
/// reaches the plane.
proof fn lemma_side_lengths(poly: Seq<Vertex>, offset: int, axis: DivisionAxis, upto: nat)
    requires
        upto <= poly.len(),
    ensures
        side(poly, offset, axis, upto, false).len() <= upto + crossings(poly, offset, axis, upto),
        side(poly, offset, axis, upto, true).len() <= poly.take(upto as int).filter(
            reaches(offset, axis),
        ).len() + crossings(poly, offset, axis, upto),
    decreases upto,
{
    let reach = reaches(offset, axis);
    if upto == 0 {
        assert(poly.take(0) =~= Seq::<Vertex>::empty());
    } else {
        let i = upto - 1;
        lemma_side_lengths(poly, offset, axis, i as nat);
        Seq::lemma_take_succ(poly, i);
        Seq::filter_distributes_over_add(poly.take(i), seq![poly[i]], reach);
        reveal(Seq::filter);
        assert(seq![poly[i]].drop_last() =~= Seq::<Vertex>::empty());
        assert(Seq::<Vertex>::empty().filter(reach) =~= Seq::<Vertex>::empty());
        assert(seq![poly[i]].last() == poly[i]);
        if keeps(poly, offset, axis, i, true) {
            assert(reach(poly[i]));
            assert(seq![poly[i]].filter(reach).len() == 1);
        }
    }
}

/// Neither side of a polygon that does not zigzag around the plane has more than two
/// vertices more than the polygon, and the upper side has at most two more than the polygon
/// has vertices that reach the plane.
pub proof fn lemma_division_sizes(poly: Seq<Vertex>, offset: int, axis: DivisionAxis)
    requires
        no_zigzag_at(poly, offset, axis),
    ensures
        lower_side(poly, offset, axis, poly.len()).len() <= poly.len() + 2,
        upper_side(poly, offset, axis, poly.len()).len() <= poly.filter(
            reaches(offset, axis),
        ).len() + 2,
{
    lemma_side_is(poly, offset, axis, poly.len());
    lemma_side_lengths(poly, offset, axis, poly.len());
    lemma_crossings_bounded(poly, offset, axis);
    assert(poly.take(poly.len() as int) =~= poly);
}

/// Division keeps a polygon from zigzagging: the two sides of a polygon that does not zigzag
/// along an axis do not zigzag along it either.
pub proof fn lemma_division_no_zigzag(
    poly: Seq<Vertex>,
    offset: int,
    axis: DivisionAxis,
    other_axis: DivisionAxis,
)
    requires
        no_zigzag(poly, other_axis),
    ensures
        no_zigzag(lower_side(poly, offset, axis, poly.len()), other_axis),
        no_zigzag(upper_side(poly, offset, axis, poly.len()), other_axis),
{
    lemma_side_is(poly, offset, axis, poly.len());
    assert forall|other: int| #[trigger]
        no_zigzag_at(lower_side(poly, offset, axis, poly.len()), other, other_axis) by {
        assert(no_zigzag_at(poly, other, other_axis));
        lemma_side_no_zigzag(poly, offset, axis, false, other, other_axis);
    }
    assert forall|other: int| #[trigger]
        no_zigzag_at(upper_side(poly, offset, axis, poly.len()), other, other_axis) by {
        assert(no_zigzag_at(poly, other, other_axis));
        lemma_side_no_zigzag(poly, offset, axis, true, other, other_axis);
    }
}

/// Of the upper side, no more vertices reach a plane further on than vertices of the polygon
/// reach the dividing plane.
pub proof fn lemma_upper_reach_bounded(
    poly: Seq<Vertex>,
    offset: int,
    axis: DivisionAxis,
    next: int,
)
    requires
        next > offset,
    ensures
        upper_side(poly, offset, axis, poly.len()).filter(reaches(next, axis)).len()
            <= poly.filter(reaches(offset, axis)).len(),
{
    let upper = upper_side(poly, offset, axis, poly.len());
    lemma_division_conserves_vertices(poly, offset, axis);
    lemma_filter_smaller(upper, reaches(next, axis), above(offset, axis));
    lemma_filter_smaller(poly, above(offset, axis), reaches(offset, axis));
}

/// A vertex of the polygon before the dividing plane is a vertex of the lower side.
pub proof fn lemma_lower_holds_before(poly: Seq<Vertex>, offset: int, axis: DivisionAxis, i: int)
    requires
        0 <= i < poly.len(),
        axis.spec_coordinate(poly[i]) < offset,
    ensures
        lower_side(poly, offset, axis, poly.len()).contains(poly[i]),
{
    let lower = lower_side(poly, offset, axis, poly.len());
    let before = below(offset, axis);
    assert(lower.filter(before) == poly.filter(before)) by {
        lemma_division_conserves_vertices(poly, offset, axis);
    }
    assert(before(poly[i]));
    poly.lemma_filter_contains(before, i);
    lower.lemma_filter_contains_rev(before, poly[i]);
}

/// A vertex of the polygon beyond the dividing plane is a vertex of the upper side.
pub proof fn lemma_upper_holds_beyond(poly: Seq<Vertex>, offset: int, axis: DivisionAxis, i: int)
    requires
        0 <= i < poly.len(),
        axis.spec_coordinate(poly[i]) > offset,
    ensures
        upper_side(poly, offset, axis, poly.len()).contains(poly[i]),
{
    let upper = upper_side(poly, offset, axis, poly.len());
    let beyond = above(offset, axis);
    assert(upper.filter(beyond) == poly.filter(beyond)) by {
        lemma_division_conserves_vertices(poly, offset, axis);
    }
    assert(beyond(poly[i]));
    poly.lemma_filter_contains(beyond, i);
    upper.lemma_filter_contains_rev(beyond, poly[i]);
}

/// Where a vertex of the polygon reaches the dividing plane, the upper side is not empty.
proof fn lemma_upper_not_empty(poly: Seq<Vertex>, offset: int, axis: DivisionAxis, i: int)
    requires
        0 <= i < poly.len(),
        axis.spec_coordinate(poly[i]) >= offset,
    ensures
        upper_side(poly, offset, axis, poly.len()).len() >= 1,
{
    lemma_side_is(poly, offset, axis, poly.len());
    lemma_side_grows(poly, offset, axis, (i + 1) as nat, poly.len(), true);
    assert(side_at(poly, offset, axis, i, true).len() >= 1);
    assert(side(poly, offset, axis, (i + 1) as nat, true).len() >= 1);
}

/// Every vertex of the upper side reaches the dividing plane.
proof fn lemma_upper_reaches_plane(poly: Seq<Vertex>, offset: int, axis: DivisionAxis, j: int)
    requires
        0 <= j < upper_side(poly, offset, axis, poly.len()).len(),
    ensures
        axis.spec_coordinate(upper_side(poly, offset, axis, poly.len())[j]) >= offset,
{
    let upper = upper_side(poly, offset, axis, poly.len());
    let before = below(offset, axis);
    assert(upper.filter(before) == Seq::<Vertex>::empty()) by {
        lemma_division_conserves_vertices(poly, offset, axis);
    }
    if axis.spec_coordinate(upper[j]) < offset {
        assert(before(upper[j]));
        upper.lemma_filter_contains(before, j);
    }
}

/// Where a vertex of the polygon reaches a plane at or beyond the dividing plane, a vertex of
/// the upper side reaches it too.
pub proof fn lemma_upper_keeps_reach(
    poly: Seq<Vertex>,
    offset: int,
    axis: DivisionAxis,
    next: int,
    i: int,
)
    requires
        next >= offset,
        0 <= i < poly.len(),
        axis.spec_coordinate(poly[i]) >= next,
    ensures
        exists|j: int|
            0 <= j < upper_side(poly, offset, axis, poly.len()).len() && axis.spec_coordinate(
                #[trigger] upper_side(poly, offset, axis, poly.len())[j],
            ) >= next,
{
    let upper = upper_side(poly, offset, axis, poly.len());
    if axis.spec_coordinate(poly[i]) > offset {
        lemma_upper_holds_beyond(poly, offset, axis, i);
        let j = choose|j: int| 0 <= j < upper.len() && upper[j] == poly[i];
        assert(axis.spec_coordinate(upper[j]) >= next);
    } else {
        lemma_upper_not_empty(poly, offset, axis, i);
        lemma_upper_reaches_plane(poly, offset, axis, 0);
        assert(axis.spec_coordinate(upper[0]) >= next);
    }
}

/// A side has at least as many vertices as three of the polygon's vertices add to it.
proof fn lemma_side_holds_three(
    poly: Seq<Vertex>,
    offset: int,
    axis: DivisionAxis,
    upper: bool,
    i: int,
    j: int,
    k: int,
)
    requires
        0 <= i < j < k < poly.len(),
    ensures
        side(poly, offset, axis, poly.len(), upper).len() >= side_at(
            poly,
            offset,
            axis,
            i,
            upper,
        ).len() + side_at(poly, offset, axis, j, upper).len() + side_at(
            poly,
            offset,
            axis,
            k,
            upper,
        ).len(),
{
    lemma_side_grows(poly, offset, axis, (k + 1) as nat, poly.len(), upper);
    lemma_side_grows(poly, offset, axis, (j + 1) as nat, k as nat, upper);
    lemma_side_grows(poly, offset, axis, (i + 1) as nat, j as nat, upper);
    assert(side(poly, offset, axis, (k + 1) as nat, upper).len() == side(
        poly,
        offset,
        axis,
        k as nat,
        upper,
    ).len() + side_at(poly, offset, axis, k, upper).len());
    assert(side(poly, offset, axis, (j + 1) as nat, upper).len() == side(
        poly,
        offset,
        axis,
        j as nat,
        upper,
    ).len() + side_at(poly, offset, axis, j, upper).len());
    assert(side(poly, offset, axis, (i + 1) as nat, upper).len() == side(
        poly,
        offset,
        axis,
        i as nat,
        upper,
    ).len() + side_at(poly, offset, axis, i, upper).len());
}

/// The side of a vertex. Where a polygon of three or more vertices has a vertex off the
/// plane, the side of the division on which that vertex lies has three or more vertices.
pub proof fn lemma_side_of_vertex(
    poly: Seq<Vertex>,
    offset: int,
    axis: DivisionAxis,
    upper: bool,
    i: int,
)
    requires
        poly.len() >= 3,
        0 <= i < poly.len(),
        upper ==> axis.spec_coordinate(poly[i]) > offset,
        !upper ==> axis.spec_coordinate(poly[i]) < offset,
    ensures
        upper ==> upper_side(poly, offset, axis, poly.len()).len() >= 3,
        !upper ==> lower_side(poly, offset, axis, poly.len()).len() >= 3,
{
    let n = poly.len() as int;
    lemma_side_is(poly, offset, axis, poly.len());
    let before = previous_index(n, i);
    let after = if i == n - 1 {
        0
    } else {
        i + 1
    };
    assert(previous_index(n, after) == i);
    assert(side_at(poly, offset, axis, i, upper).len() >= 1);
    assert(side_at(poly, offset, axis, after, upper).len() >= 1);
    if crosses_at(poly, offset, axis, i) {
        assert(side_at(poly, offset, axis, i, upper).len() >= 2);
    } else {
        assert(side_at(poly, offset, axis, before, upper).len() >= 1);
    }
    if i == 0 {
        lemma_side_holds_three(poly, offset, axis, upper, 0, 1, n - 1);
    } else if i == n - 1 {
        lemma_side_holds_three(poly, offset, axis, upper, 0, n - 2, n - 1);
    } else {
        lemma_side_holds_three(poly, offset, axis, upper, i - 1, i, i + 1);
    }
}

} // verus!
