//! What holds of every division of a polygon by a plane.

use vstd::prelude::*;
use vstd::arithmetic::div_mod::lemma_fundamental_div_mod_converse;
use crate::arith::lemma_scaled_between;
use crate::geometry::{Aabb, Vertex};
use crate::polygon::{
    crosses,
    crossing,
    lower_at,
    lower_side,
    plane_distance,
    previous_index,
    spec_lerp,
    upper_at,
    upper_side,
    DivisionAxis,
};

verus! {

/// The vertices strictly on the lower side of the plane.
pub open spec fn below(offset: int, axis: DivisionAxis) -> spec_fn(Vertex) -> bool {
    |v: Vertex| axis.spec_coordinate(v) < offset
}

/// The vertices strictly on the upper side of the plane.
pub open spec fn above(offset: int, axis: DivisionAxis) -> spec_fn(Vertex) -> bool {
    |v: Vertex| axis.spec_coordinate(v) > offset
}

/// The vertices that lie on the plane.
pub open spec fn on_plane(offset: int, axis: DivisionAxis) -> spec_fn(Vertex) -> bool {
    |v: Vertex| axis.spec_coordinate(v) == offset
}

/// Every vertex of the polygon lies in the box.
pub open spec fn all_within(poly: Seq<Vertex>, bounds: Aabb) -> bool {
    forall|i: int| 0 <= i < poly.len() ==> bounds.spec_contains(#[trigger] poly[i])
}

proof fn lemma_filter_none(p: spec_fn(Vertex) -> bool)
    ensures
        Seq::<Vertex>::empty().filter(p) == Seq::<Vertex>::empty(),
{
    reveal(Seq::filter);
}

proof fn lemma_filter_one(x: Vertex, p: spec_fn(Vertex) -> bool)
    ensures
        seq![x].filter(p) == if p(x) {
            seq![x]
        } else {
            Seq::<Vertex>::empty()
        },
{
    reveal(Seq::filter);
    lemma_filter_none(p);
    assert(seq![x].drop_last() =~= Seq::<Vertex>::empty());
    assert(seq![x].last() == x);
    assert(Seq::<Vertex>::empty().push(x) =~= seq![x]);
}

proof fn lemma_filter_two(x: Vertex, y: Vertex, p: spec_fn(Vertex) -> bool)
    ensures
        seq![x, y].filter(p) == seq![x].filter(p) + seq![y].filter(p),
{
    assert(seq![x, y] =~= seq![x] + seq![y]);
    Seq::filter_distributes_over_add(seq![x], seq![y], p);
}

/// A coordinate of the meeting point lies between the same coordinates of the two endpoints.
proof fn lemma_lerp_between(from: int, to: int, num: int, den: int)
    requires
        0 <= num <= den,
        0 < den,
    ensures
        vstd::math::min(from, to) <= spec_lerp(from, to, num, den) <= vstd::math::max(from, to),
{
    lemma_scaled_between(to - from, num, den);
}

/// The point where an edge meets the dividing plane lies on that plane, and in every box that
/// holds both endpoints of the edge.
pub proof fn lemma_crossing_on_plane(b: Vertex, a: Vertex, offset: int, axis: DivisionAxis)
    requires
        crosses(plane_distance(b, offset, axis), plane_distance(a, offset, axis)),
    ensures
        axis.spec_coordinate(
            crossing(b, a, plane_distance(b, offset, axis), plane_distance(a, offset, axis)),
        ) == offset,
        forall|bounds: Aabb|
            bounds.spec_contains(a) && bounds.spec_contains(b) ==> #[trigger] bounds.spec_contains(
                crossing(b, a, plane_distance(b, offset, axis), plane_distance(a, offset, axis)),
            ),
{
    let db = plane_distance(b, offset, axis);
    let da = plane_distance(a, offset, axis);
    let num = vstd::math::abs(db) as int;
    let den = (vstd::math::abs(db) + vstd::math::abs(da)) as int;
    let from = axis.spec_coordinate(b);
    let to = axis.spec_coordinate(a);
    lemma_lerp_between(b.x as int, a.x as int, num, den);
    lemma_lerp_between(b.y as int, a.y as int, num, den);
    lemma_lerp_between(b.z as int, a.z as int, num, den);
    assert(2 * (to - from) * num + den == db * (2 * den) + den) by (nonlinear_arith)
        requires
            to - from == db - da,
            (db >= 0 && da < 0 && num == db && den == db - da) || (db < 0 && da >= 0 && num == -db
                && den == da - db),
    ;
    lemma_fundamental_div_mod_converse(2 * (to - from) * num + den, 2 * den, db, den);
    assert(spec_lerp(from, to, num, den) == offset);
}

/// What one vertex adds to the two sides, seen through the three filters.
proof fn lemma_contribution(poly: Seq<Vertex>, offset: int, axis: DivisionAxis, i: int)
    requires
        0 <= i < poly.len(),
    ensures
        lower_at(poly, offset, axis, i).filter(below(offset, axis)) == seq![poly[i]].filter(
            below(offset, axis),
        ),
        lower_at(poly, offset, axis, i).filter(above(offset, axis)) == Seq::<Vertex>::empty(),
        upper_at(poly, offset, axis, i).filter(above(offset, axis)) == seq![poly[i]].filter(
            above(offset, axis),
        ),
        upper_at(poly, offset, axis, i).filter(below(offset, axis)) == Seq::<Vertex>::empty(),
        lower_at(poly, offset, axis, i).filter(on_plane(offset, axis)) == upper_at(
            poly,
            offset,
            axis,
            i,
        ).filter(on_plane(offset, axis)),
{
    let a = poly[i];
    let b = poly[previous_index(poly.len() as int, i)];
    let da = plane_distance(a, offset, axis);
    let db = plane_distance(b, offset, axis);
    let c = crossing(b, a, db, da);
    let lo = below(offset, axis);
    let hi = above(offset, axis);
    let on = on_plane(offset, axis);
    lemma_filter_none(lo);
    lemma_filter_none(hi);
    lemma_filter_none(on);
    lemma_filter_one(a, lo);
    lemma_filter_one(a, hi);
    lemma_filter_one(a, on);
    if crosses(db, da) {
        lemma_crossing_on_plane(b, a, offset, axis);
        lemma_filter_one(c, lo);
        lemma_filter_one(c, hi);
        lemma_filter_one(c, on);
        lemma_filter_two(c, a, lo);
        lemma_filter_two(c, a, hi);
        lemma_filter_two(c, a, on);
        assert(Seq::<Vertex>::empty() + seq![a] =~= seq![a]);
        assert(Seq::<Vertex>::empty() + Seq::<Vertex>::empty() =~= Seq::<Vertex>::empty());
        assert(seq![c] + Seq::<Vertex>::empty() =~= seq![c]);
    }
}

/// The conservation law on a prefix of the polygon.
proof fn lemma_prefix_conservation(poly: Seq<Vertex>, offset: int, axis: DivisionAxis, upto: nat)
    requires
        upto <= poly.len(),
    ensures
        lower_side(poly, offset, axis, upto).filter(below(offset, axis)) == poly.take(
            upto as int,
        ).filter(below(offset, axis)),
        lower_side(poly, offset, axis, upto).filter(above(offset, axis)) == Seq::<Vertex>::empty(),
        upper_side(poly, offset, axis, upto).filter(above(offset, axis)) == poly.take(
            upto as int,
        ).filter(above(offset, axis)),
        upper_side(poly, offset, axis, upto).filter(below(offset, axis)) == Seq::<Vertex>::empty(),
        lower_side(poly, offset, axis, upto).filter(on_plane(offset, axis)) == upper_side(
            poly,
            offset,
            axis,
            upto,
        ).filter(on_plane(offset, axis)),
    decreases upto,
{
    let lo = below(offset, axis);
    let hi = above(offset, axis);
    let on = on_plane(offset, axis);
    if upto == 0 {
        lemma_filter_none(lo);
        lemma_filter_none(hi);
        lemma_filter_none(on);
        assert(poly.take(0) =~= Seq::<Vertex>::empty());
    } else {
        let k = (upto - 1) as nat;
        lemma_prefix_conservation(poly, offset, axis, k);
        lemma_contribution(poly, offset, axis, k as int);
        let lower = lower_side(poly, offset, axis, k);
        let upper = upper_side(poly, offset, axis, k);
        let la = lower_at(poly, offset, axis, k as int);
        let ua = upper_at(poly, offset, axis, k as int);
        Seq::filter_distributes_over_add(lower, la, lo);
        Seq::filter_distributes_over_add(lower, la, hi);
        Seq::filter_distributes_over_add(lower, la, on);
        Seq::filter_distributes_over_add(upper, ua, lo);
        Seq::filter_distributes_over_add(upper, ua, hi);
        Seq::filter_distributes_over_add(upper, ua, on);
        Seq::lemma_take_succ(poly, k as int);
        Seq::filter_distributes_over_add(poly.take(k as int), seq![poly[k as int]], lo);
        Seq::filter_distributes_over_add(poly.take(k as int), seq![poly[k as int]], hi);
        assert(Seq::<Vertex>::empty() + Seq::<Vertex>::empty() =~= Seq::<Vertex>::empty());
    }
}

/// Division conserves the polygon's vertices.
///
/// Take away from either side the vertices that lie on the plane. What is left of the lower
/// side is exactly the polygon's vertices strictly below the plane, in their order; what is
/// left of the upper side is exactly those strictly above it. Neither side reaches beyond the
/// plane. The vertices on the plane are the same on both sides, in the same order: they are
/// the polygon's own vertices on the plane and the points where its edges pass through it.
pub proof fn lemma_division_conserves_vertices(
    poly: Seq<Vertex>,
    offset: int,
    axis: DivisionAxis,
)
    ensures
        lower_side(poly, offset, axis, poly.len()).filter(below(offset, axis)) == poly.filter(
            below(offset, axis),
        ),
        lower_side(poly, offset, axis, poly.len()).filter(above(offset, axis)) == Seq::<
            Vertex,
        >::empty(),
        upper_side(poly, offset, axis, poly.len()).filter(above(offset, axis)) == poly.filter(
            above(offset, axis),
        ),
        upper_side(poly, offset, axis, poly.len()).filter(below(offset, axis)) == Seq::<
            Vertex,
        >::empty(),
        lower_side(poly, offset, axis, poly.len()).filter(on_plane(offset, axis)) == upper_side(
            poly,
            offset,
            axis,
            poly.len(),
        ).filter(on_plane(offset, axis)),
{
    lemma_prefix_conservation(poly, offset, axis, poly.len());
    assert(poly.take(poly.len() as int) =~= poly);
}

/// Division does not leave a box: both sides lie in every box that holds the polygon.
pub proof fn lemma_division_stays_within(
    poly: Seq<Vertex>,
    offset: int,
    axis: DivisionAxis,
    bounds: Aabb,
    upto: nat,
)
    requires
        upto <= poly.len(),
        all_within(poly, bounds),
    ensures
        all_within(lower_side(poly, offset, axis, upto), bounds),
        all_within(upper_side(poly, offset, axis, upto), bounds),
    decreases upto,
{
    if upto > 0 {
        let k = upto - 1;
        lemma_division_stays_within(poly, offset, axis, bounds, k as nat);
        let a = poly[k];
        let b = poly[previous_index(poly.len() as int, k)];
        let da = plane_distance(a, offset, axis);
        let db = plane_distance(b, offset, axis);
        assert(bounds.spec_contains(a));
        assert(bounds.spec_contains(b));
        if crosses(db, da) {
            lemma_crossing_on_plane(b, a, offset, axis);
            assert(bounds.spec_contains(crossing(b, a, db, da)));
        }
        let lower = lower_side(poly, offset, axis, k as nat);
        let upper = upper_side(poly, offset, axis, k as nat);
        let la = lower_at(poly, offset, axis, k);
        let ua = upper_at(poly, offset, axis, k);
        assert forall|i: int| 0 <= i < (lower + la).len() implies bounds.spec_contains(
            #[trigger] (lower + la)[i],
        ) by {
            if i < lower.len() {
                assert((lower + la)[i] == lower[i]);
            } else {
                assert((lower + la)[i] == la[i - lower.len()]);
            }
        }
        assert forall|i: int| 0 <= i < (upper + ua).len() implies bounds.spec_contains(
            #[trigger] (upper + ua)[i],
        ) by {
            if i < upper.len() {
                assert((upper + ua)[i] == upper[i]);
            } else {
                assert((upper + ua)[i] == ua[i - upper.len()]);
            }
        }
    }
}

/// A polygon that lies strictly below a plane is its own lower side, and its upper side is
/// empty.
pub proof fn lemma_division_all_below(
    poly: Seq<Vertex>,
    offset: int,
    axis: DivisionAxis,
    upto: nat,
)
    requires
        upto <= poly.len(),
        forall|i: int| 0 <= i < poly.len() ==> axis.spec_coordinate(#[trigger] poly[i]) < offset,
    ensures
        lower_side(poly, offset, axis, upto) == poly.take(upto as int),
        upper_side(poly, offset, axis, upto) == Seq::<Vertex>::empty(),
    decreases upto,
{
    if upto == 0 {
        assert(poly.take(0) =~= Seq::<Vertex>::empty());
    } else {
        let k = upto - 1;
        lemma_division_all_below(poly, offset, axis, k as nat);
        let b = poly[previous_index(poly.len() as int, k)];
        assert(axis.spec_coordinate(b) < offset);
        assert(axis.spec_coordinate(poly[k]) < offset);
        assert(lower_at(poly, offset, axis, k) == seq![poly[k]]);
        assert(upper_at(poly, offset, axis, k) == Seq::<Vertex>::empty());
        assert(poly.take(upto as int) =~= poly.take(k) + seq![poly[k]]);
        assert(Seq::<Vertex>::empty() + Seq::<Vertex>::empty() =~= Seq::<Vertex>::empty());
    }
}

/// A polygon that reaches up to a plane, but not beyond it, is its own lower side, and its
/// upper side is made of its vertices on the plane.
pub proof fn lemma_division_none_above(
    poly: Seq<Vertex>,
    offset: int,
    axis: DivisionAxis,
    upto: nat,
)
    requires
        upto <= poly.len(),
        forall|i: int| 0 <= i < poly.len() ==> axis.spec_coordinate(#[trigger] poly[i]) <= offset,
    ensures
        lower_side(poly, offset, axis, upto) == poly.take(upto as int),
        upper_side(poly, offset, axis, upto) == poly.take(upto as int).filter(
            on_plane(offset, axis),
        ),
    decreases upto,
{
    let on = on_plane(offset, axis);
    if upto == 0 {
        assert(poly.take(0) =~= Seq::<Vertex>::empty());
        lemma_filter_none(on);
    } else {
        let k = upto - 1;
        lemma_division_none_above(poly, offset, axis, k as nat);
        let b = poly[previous_index(poly.len() as int, k)];
        assert(axis.spec_coordinate(b) <= offset);
        assert(axis.spec_coordinate(poly[k]) <= offset);
        assert(lower_at(poly, offset, axis, k) == seq![poly[k]]);
        lemma_filter_one(poly[k], on);
        assert(upper_at(poly, offset, axis, k) == seq![poly[k]].filter(on));
        assert(poly.take(upto as int) =~= poly.take(k) + seq![poly[k]]);
        Seq::filter_distributes_over_add(poly.take(k), seq![poly[k]], on);
    }
}

/// A filter that keeps as many as there are keeps them all.
pub proof fn lemma_filter_keeps_all(s: Seq<Vertex>, p: spec_fn(Vertex) -> bool)
    requires
        s.filter(p).len() >= s.len(),
    ensures
        forall|i: int| 0 <= i < s.len() ==> p(#[trigger] s[i]),
    decreases s.len(),
{
    reveal(Seq::filter);
    if s.len() > 0 {
        let front = s.drop_last();
        front.lemma_filter_len(p);
        if p(s.last()) {
            lemma_filter_keeps_all(front, p);
            assert forall|i: int| 0 <= i < s.len() implies p(#[trigger] s[i]) by {
                if i < front.len() {
                    assert(s[i] == front[i]);
                }
            }
        }
    }
}

} // verus!
