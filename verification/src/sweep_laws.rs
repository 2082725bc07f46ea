//! What holds of every rasterization.

use vstd::prelude::*;
use vstd::arithmetic::div_mod::{
    lemma_div_is_ordered,
    lemma_fundamental_div_mod,
    lemma_fundamental_div_mod_converse,
};
use crate::arith::{lemma_div_trunc_ordered, spec_div_ceil};
use crate::geometry::{max3, min3, spec_aabb, Aabb, Vertex};
use crate::heightfield::{Grid, SpanInsertion, SpanInsertionError};
use crate::polygon::{spec_divide_poly, DivisionAxis};
use crate::polygon_laws::{
    all_within,
    lemma_division_all_below,
    lemma_division_none_above,
    lemma_division_stays_within,
    lemma_filter_keeps_all,
    on_plane,
};
use crate::span::{spec_insert, AreaType, Span, MAX_SPAN_HEIGHT};
use crate::sweep::{
    highest,
    lemma_extent,
    lemma_insert_all_single,
    lowest,
    spec_idle,
    spec_insert_all,
    xs,
    ys,
    Filled,
    Sweep,
};

verus! {

/// A coordinate within cell `k` of an axis has cell number `k`.
pub proof fn lemma_cell_index_within(grid: Grid, coord: int, origin: int, k: int)
    requires
        grid.cell_size > 0,
        0 <= k,
        origin + k * grid.cell_size <= coord < origin + (k + 1) * grid.cell_size,
    ensures
        grid.spec_cell_index(coord, origin) == k,
{
    let d = grid.cell_size as int;
    assert(0 <= k * d) by (nonlinear_arith)
        requires
            0 <= k,
            0 < d,
    ;
    assert((k + 1) * d == k * d + d) by (nonlinear_arith);
    lemma_fundamental_div_mod_converse(coord - origin, d, k, coord - origin - k * d);
}

impl Grid {
    /// The vertex lies within the footprint of cell `(x, z)`, its border included.
    pub open spec fn spec_cell_holds(&self, x: int, z: int, v: Vertex) -> bool {
        &&& self.spec_column_end(x - 1) <= v.x <= self.spec_column_end(x)
        &&& self.spec_row_end(z - 1) <= v.z <= self.spec_row_end(z)
    }
}

/// The span of a run of heights within the grid brackets the run, measured from the floor of
/// the grid in vertical cells: it begins in the cell that holds the lower end, and it ends at
/// or above the upper end unless it ends at the largest span height.
pub proof fn lemma_span_heights_bracket(grid: Grid, low_y: int, high_y: int)
    requires
        grid.wf(),
        grid.aabb.min.y <= low_y <= high_y <= grid.aabb.max.y,
    ensures
        grid.spec_span_heights(low_y, high_y) matches Some((min, max)) && {
            &&& min <= max <= MAX_SPAN_HEIGHT
            &&& min < MAX_SPAN_HEIGHT ==> min < max
            &&& min < MAX_SPAN_HEIGHT ==> min * grid.cell_height <= low_y - grid.aabb.min.y < (min
                + 1) * grid.cell_height
            &&& max < MAX_SPAN_HEIGHT ==> high_y - grid.aabb.min.y <= max * grid.cell_height
        },
{
    let d = grid.cell_height as int;
    let low = low_y - grid.aabb.min.y;
    let high = high_y - grid.aabb.min.y;
    lemma_fundamental_div_mod(low, d);
    lemma_fundamental_div_mod(-high, d);
    let q = low / d;
    let c = spec_div_ceil(high, d);
    assert(q * d <= low < (q + 1) * d && q >= 0) by (nonlinear_arith)
        requires
            low == d * q + low % d,
            0 <= low % d < d,
            0 <= low,
            0 < d,
    ;
    assert(high <= c * d && c >= 0) by (nonlinear_arith)
        requires
            -high == d * (-c) + (-high) % d,
            0 <= (-high) % d < d,
            0 <= high,
            0 < d,
    ;
    let bottom = vstd::math::min(q, MAX_SPAN_HEIGHT as int);
    let ceiling = vstd::math::min(vstd::math::max(c, bottom + 1), MAX_SPAN_HEIGHT as int);
    if ceiling < MAX_SPAN_HEIGHT {
        assert(high <= ceiling * d) by (nonlinear_arith)
            requires
                high <= c * d,
                c <= ceiling,
                0 < d,
        ;
    }
}

/// The span of any run of heights, if there is one, ends no higher than the largest span
/// height, and is valid unless it begins there.
pub proof fn lemma_span_heights_bounds(grid: Grid, low_y: int, high_y: int)
    requires
        grid.wf(),
    ensures
        grid.spec_span_heights(low_y, high_y) matches Some((min, max)) ==> min <= max
            <= MAX_SPAN_HEIGHT && (min < MAX_SPAN_HEIGHT ==> min < max),
{
    let d = grid.cell_height as int;
    let low = vstd::math::max(low_y - grid.aabb.min.y, 0);
    lemma_fundamental_div_mod(low, d);
    assert(low / d >= 0) by (nonlinear_arith)
        requires
            low == d * (low / d) + low % d,
            0 <= low % d < d,
            0 <= low,
            0 < d,
    ;
}

/// The smallest and largest of three numbers, as a list.
proof fn lemma_extent_of_three(p: int, q: int, r: int)
    ensures
        lowest(seq![p, q, r]) == min3(p, q, r),
        highest(seq![p, q, r]) == max3(p, q, r),
{
    let s = seq![p, q, r];
    assert(s.drop_last() =~= seq![p, q]);
    assert(seq![p, q].drop_last() =~= seq![p]);
    assert(lowest(seq![p]) == p);
    assert(highest(seq![p]) == p);
    assert(lowest(seq![p, q]) == vstd::math::min(p, q));
    assert(highest(seq![p, q]) == vstd::math::max(p, q));
    assert(s.last() == r);
}

/// What is left of a triangle on the far border of its row asks for nothing more.
proof fn lemma_few_row_sweep(
    grid: Grid,
    few: Seq<Vertex>,
    z: int,
    last: int,
    area: AreaType,
    threshold: u32,
)
    requires
        few.len() < 3,
        z > last || (z == last && few.len() >= 1),
        forall|i: int| 0 <= i < few.len() ==> (#[trigger] few[i]).z < grid.spec_row_end(z),
    ensures
        grid.spec_row_sweep(few, z, last, area, threshold) == spec_idle(),
{
    if z <= last {
        assert forall|i: int| 0 <= i < few.len() implies DivisionAxis::Z.spec_coordinate(
            #[trigger] few[i],
        ) < grid.spec_row_end(z) by {}
        lemma_division_all_below(few, grid.spec_row_end(z), DivisionAxis::Z, few.len());
        assert(few.take(few.len() as int) =~= few);
        assert(grid.spec_row_sweep(Seq::<Vertex>::empty(), z + 1, last, area, threshold)
            == spec_idle());
        assert(Seq::<SpanInsertion>::empty() + Seq::<SpanInsertion>::empty() =~= Seq::<
            SpanInsertion,
        >::empty());
    }
}

/// What is left of a triangle on the far border of its column asks for nothing more.
proof fn lemma_few_column_sweep(
    grid: Grid,
    few: Seq<Vertex>,
    x: int,
    last: int,
    z: int,
    area: AreaType,
    threshold: u32,
)
    requires
        few.len() < 3,
        x > last || (x == last && few.len() >= 1),
        forall|i: int| 0 <= i < few.len() ==> (#[trigger] few[i]).x < grid.spec_column_end(x),
    ensures
        grid.spec_column_sweep(few, x, last, z, area, threshold) == spec_idle(),
{
    if x <= last {
        assert forall|i: int| 0 <= i < few.len() implies DivisionAxis::X.spec_coordinate(
            #[trigger] few[i],
        ) < grid.spec_column_end(x) by {}
        lemma_division_all_below(few, grid.spec_column_end(x), DivisionAxis::X, few.len());
        assert(few.take(few.len() as int) =~= few);
        assert(grid.spec_column_sweep(Seq::<Vertex>::empty(), x + 1, last, z, area, threshold)
            == spec_idle());
        assert(Seq::<SpanInsertion>::empty() + Seq::<SpanInsertion>::empty() =~= Seq::<
            SpanInsertion,
        >::empty());
    }
}

/// The division of a triangle that reaches up to a plane, but not beyond it, and not with all
/// its corners: the lower side is the triangle, and the upper side is the one or two corners
/// on the plane, or nothing.
proof fn lemma_triangle_at_border(tri: Seq<Vertex>, offset: int, axis: DivisionAxis)
    requires
        tri.len() == 3,
        forall|i: int| 0 <= i < 3 ==> axis.spec_coordinate(#[trigger] tri[i]) <= offset,
        exists|i: int| 0 <= i < 3 && axis.spec_coordinate(#[trigger] tri[i]) < offset,
    ensures
        spec_divide_poly(tri, offset, axis) matches Ok((lower, upper)) && {
            &&& lower == tri
            &&& upper.len() < 3
            &&& forall|i: int|
                0 <= i < upper.len() ==> axis.spec_coordinate(#[trigger] upper[i]) == offset
            &&& (exists|i: int| 0 <= i < 3 && axis.spec_coordinate(#[trigger] tri[i]) == offset)
                ==> upper.len() >= 1
        },
{
    lemma_division_none_above(tri, offset, axis, 3);
    assert(tri.take(3) =~= tri);
    let on = on_plane(offset, axis);
    let upper = tri.filter(on);
    assert forall|i: int| 0 <= i < upper.len() implies on(#[trigger] upper[i]) by {
        tri.lemma_filter_pred(on, i);
    }
    let inner = choose|i: int| 0 <= i < 3 && axis.spec_coordinate(#[trigger] tri[i]) < offset;
    if upper.len() >= 3 {
        tri.lemma_filter_len(on);
        lemma_filter_keeps_all(tri, on);
        assert(on(tri[inner]));
    }
    if exists|i: int| 0 <= i < 3 && axis.spec_coordinate(#[trigger] tri[i]) == offset {
        let border = choose|i: int|
            0 <= i < 3 && axis.spec_coordinate(#[trigger] tri[i]) == offset;
        assert(on(tri[border]));
        tri.lemma_filter_contains(on, border);
    }
}

/// Containment. A triangle that lies within the footprint of one cell of the grid, not
/// wholly on the far border of its row or of its column, and within the box of the grid, asks
/// for exactly one span, in that cell; the span brackets the heights of the triangle; and,
/// as long as the triangle begins below the largest span height, inserting it succeeds and
/// changes the column of that cell only.
pub proof fn lemma_containment(
    grid: Grid,
    columns: Seq<Seq<Span>>,
    a: Vertex,
    b: Vertex,
    c: Vertex,
    x: int,
    z: int,
    area: AreaType,
    threshold: u32,
)
    requires
        grid.wf(),
        grid.spec_in_bounds(x, z),
        grid.aabb.spec_contains(a) && grid.spec_cell_holds(x, z, a),
        grid.aabb.spec_contains(b) && grid.spec_cell_holds(x, z, b),
        grid.aabb.spec_contains(c) && grid.spec_cell_holds(x, z, c),
        min3(a.x as int, b.x as int, c.x as int) < grid.spec_column_end(x),
        min3(a.z as int, b.z as int, c.z as int) < grid.spec_row_end(z),
    ensures
        grid.spec_span_heights(
            min3(a.y as int, b.y as int, c.y as int),
            max3(a.y as int, b.y as int, c.y as int),
        ) matches Some((min, max)) && {
            let span = Span { min, max, area };
            let insertion = SpanInsertion {
                x: x as u32,
                z: z as u32,
                span,
                flag_merge_threshold: threshold,
            };
            let low = min3(a.y as int, b.y as int, c.y as int) - grid.aabb.min.y;
            let high = max3(a.y as int, b.y as int, c.y as int) - grid.aabb.min.y;
            let index = grid.spec_column_index(x, z);
            &&& grid.spec_triangle_sweep(a, b, c, area, threshold) == (Sweep {
                spans: seq![insertion],
                failure: None,
            })
            &&& min <= max <= MAX_SPAN_HEIGHT
            &&& min < MAX_SPAN_HEIGHT ==> {
                &&& span.wf()
                &&& min * grid.cell_height <= low < (min + 1) * grid.cell_height
                &&& max < MAX_SPAN_HEIGHT ==> high <= max * grid.cell_height
                &&& spec_insert_all(grid, columns, seq![insertion]) == (Filled {
                    columns: columns.update(index, spec_insert(columns[index], span, threshold)),
                    failure: None,
                })
            }
        },
{
    let tri = seq![a, b, c];
    let bounds = spec_aabb(a, b, c);
    let low_y = min3(a.y as int, b.y as int, c.y as int);
    let high_y = max3(a.y as int, b.y as int, c.y as int);
    lemma_span_heights_bracket(grid, low_y, high_y);
    lemma_extent_of_three(a.y as int, b.y as int, c.y as int);
    lemma_extent_of_three(a.x as int, b.x as int, c.x as int);
    assert(ys(tri) =~= seq![a.y as int, b.y as int, c.y as int]);
    assert(xs(tri) =~= seq![a.x as int, b.x as int, c.x as int]);
    let none = Seq::<SpanInsertion>::empty();
    assert(none + none =~= none);
    // The rows: the triangle begins in row `z` and ends in it or on its far border.
    let row_end = grid.spec_row_end(z);
    let last_row = grid.spec_last_row(bounds.max.z as int);
    assert(grid.spec_row_end(z + 1) == row_end + grid.cell_size) by (nonlinear_arith)
        requires
            row_end == grid.aabb.min.z + (z + 1) * grid.cell_size,
            grid.spec_row_end(z + 1) == grid.aabb.min.z + (z + 1 + 1) * grid.cell_size,
    ;
    lemma_cell_index_within(grid, bounds.min.z as int, grid.aabb.min.z as int, z);
    if bounds.max.z < row_end {
        lemma_cell_index_within(grid, bounds.max.z as int, grid.aabb.min.z as int, z);
    } else {
        lemma_cell_index_within(grid, bounds.max.z as int, grid.aabb.min.z as int, z + 1);
    }
    assert forall|i: int| 0 <= i < 3 implies DivisionAxis::Z.spec_coordinate(#[trigger] tri[i])
        <= row_end by {}
    assert(DivisionAxis::Z.spec_coordinate(tri[0]) < row_end || DivisionAxis::Z.spec_coordinate(
        tri[1],
    ) < row_end || DivisionAxis::Z.spec_coordinate(tri[2]) < row_end);
    lemma_triangle_at_border(tri, row_end, DivisionAxis::Z);
    let after_row = spec_divide_poly(tri, row_end, DivisionAxis::Z).unwrap().1;
    if last_row == z + 1 {
        assert(bounds.max.z == row_end);
        assert(DivisionAxis::Z.spec_coordinate(tri[0]) == row_end
            || DivisionAxis::Z.spec_coordinate(tri[1]) == row_end
            || DivisionAxis::Z.spec_coordinate(tri[2]) == row_end);
    }
    assert forall|i: int| 0 <= i < after_row.len() implies (#[trigger] after_row[i]).z
        < grid.spec_row_end(z + 1) by {
        assert(DivisionAxis::Z.spec_coordinate(after_row[i]) == row_end);
    }
    lemma_few_row_sweep(grid, after_row, z + 1, last_row, area, threshold);
    // The columns, in the same way.
    let column_end = grid.spec_column_end(x);
    let last_column = grid.spec_last_column(highest(xs(tri)));
    assert(grid.spec_column_end(x + 1) == column_end + grid.cell_size) by (nonlinear_arith)
        requires
            column_end == grid.aabb.min.x + (x + 1) * grid.cell_size,
            grid.spec_column_end(x + 1) == grid.aabb.min.x + (x + 1 + 1) * grid.cell_size,
    ;
    lemma_cell_index_within(grid, lowest(xs(tri)), grid.aabb.min.x as int, x);
    if highest(xs(tri)) < column_end {
        lemma_cell_index_within(grid, highest(xs(tri)), grid.aabb.min.x as int, x);
    } else {
        lemma_cell_index_within(grid, highest(xs(tri)), grid.aabb.min.x as int, x + 1);
    }
    assert forall|i: int| 0 <= i < 3 implies DivisionAxis::X.spec_coordinate(#[trigger] tri[i])
        <= column_end by {}
    assert(DivisionAxis::X.spec_coordinate(tri[0]) < column_end
        || DivisionAxis::X.spec_coordinate(tri[1]) < column_end || DivisionAxis::X.spec_coordinate(
        tri[2],
    ) < column_end);
    lemma_triangle_at_border(tri, column_end, DivisionAxis::X);
    let after_column = spec_divide_poly(tri, column_end, DivisionAxis::X).unwrap().1;
    if last_column == x + 1 {
        assert(highest(xs(tri)) == column_end);
        assert(DivisionAxis::X.spec_coordinate(tri[0]) == column_end
            || DivisionAxis::X.spec_coordinate(tri[1]) == column_end
            || DivisionAxis::X.spec_coordinate(tri[2]) == column_end);
    }
    assert forall|i: int| 0 <= i < after_column.len() implies (#[trigger] after_column[i]).x
        < grid.spec_column_end(x + 1) by {
        assert(DivisionAxis::X.spec_coordinate(after_column[i]) == column_end);
    }
    lemma_few_column_sweep(grid, after_column, x + 1, last_column, z, area, threshold);
    let (min, max) = grid.spec_span_heights(low_y, high_y).unwrap();
    let insertion = SpanInsertion {
        x: x as u32,
        z: z as u32,
        span: Span { min, max, area },
        flag_merge_threshold: threshold,
    };
    let one = Sweep { spans: seq![insertion], failure: None };
    assert(grid.spec_cell_spans(tri, x, z, area, threshold) == seq![insertion]);
    assert(seq![insertion] + none =~= seq![insertion]);
    assert(grid.spec_column_sweep(tri, x, last_column, z, area, threshold) == one);
    assert(grid.spec_row_spans(tri, z, area, threshold) == one);
    assert(grid.spec_row_sweep(tri, z, last_row, area, threshold) == one);
    lemma_insert_all_single(grid, columns, insertion);
}

/// What an insertion that a sweep asks for looks like: its cell belongs to the grid, it
/// carries the area tag and the threshold of the sweep, and its span ends no higher than the
/// largest span height and is valid unless it begins there.
pub open spec fn spec_request_fits(
    grid: Grid,
    insertion: SpanInsertion,
    area: AreaType,
    threshold: u32,
) -> bool {
    &&& grid.spec_in_bounds(insertion.x as int, insertion.z as int)
    &&& insertion.span.min <= insertion.span.max <= MAX_SPAN_HEIGHT
    &&& insertion.span.min < MAX_SPAN_HEIGHT ==> insertion.span.wf()
    &&& insertion.span.area == area
    &&& insertion.flag_merge_threshold == threshold
}

proof fn lemma_column_sweep_fits(
    grid: Grid,
    work: Seq<Vertex>,
    x: int,
    last: int,
    z: int,
    area: AreaType,
    threshold: u32,
)
    requires
        grid.wf(),
        -1 <= x,
        last < grid.width,
        0 <= z < grid.height,
    ensures
        forall|i: int|
            0 <= i < grid.spec_column_sweep(work, x, last, z, area, threshold).spans.len() ==> {
                let insertion = #[trigger] grid.spec_column_sweep(
                    work,
                    x,
                    last,
                    z,
                    area,
                    threshold,
                ).spans[i];
                &&& spec_request_fits(grid, insertion, area, threshold)
                &&& x <= insertion.x <= last
                &&& insertion.z == z
            },
    decreases last - x + 1,
{
    if x <= last {
        match spec_divide_poly(work, grid.spec_column_end(x), DivisionAxis::X) {
            Err(e) => {},
            Ok((cell, rest)) => {
                lemma_column_sweep_fits(grid, rest, x + 1, last, z, area, threshold);
                lemma_span_heights_bounds(grid, lowest(ys(cell)), highest(ys(cell)));
                let here = grid.spec_cell_spans(cell, x, z, area, threshold);
                let later = grid.spec_column_sweep(rest, x + 1, last, z, area, threshold);
                let all = grid.spec_column_sweep(work, x, last, z, area, threshold);
                assert(all.spans == here + later.spans);
                assert forall|i: int| 0 <= i < all.spans.len() implies {
                    let insertion = #[trigger] all.spans[i];
                    &&& spec_request_fits(grid, insertion, area, threshold)
                    &&& x <= insertion.x <= last
                    &&& insertion.z == z
                } by {
                    if i < here.len() {
                        assert(all.spans[i] == here[i]);
                    } else {
                        assert(all.spans[i] == later.spans[i - here.len()]);
                    }
                }
            },
        }
    }
}

proof fn lemma_row_sweep_fits(
    grid: Grid,
    work: Seq<Vertex>,
    bounds: Aabb,
    z: int,
    last: int,
    area: AreaType,
    threshold: u32,
)
    requires
        grid.wf(),
        -1 <= z,
        last < grid.height,
        all_within(work, bounds),
    ensures
        forall|i: int|
            0 <= i < grid.spec_row_sweep(work, z, last, area, threshold).spans.len() ==> {
                let insertion = #[trigger] grid.spec_row_sweep(
                    work,
                    z,
                    last,
                    area,
                    threshold,
                ).spans[i];
                &&& spec_request_fits(grid, insertion, area, threshold)
                &&& z <= insertion.z <= last
                &&& grid.spec_first_column(bounds.min.x as int) <= insertion.x
                    <= grid.spec_last_column(bounds.max.x as int)
            },
    decreases last - z + 1,
{
    if z <= last {
        match spec_divide_poly(work, grid.spec_row_end(z), DivisionAxis::Z) {
            Err(e) => {},
            Ok((row, rest)) => {
                lemma_division_stays_within(
                    work,
                    grid.spec_row_end(z),
                    DivisionAxis::Z,
                    bounds,
                    work.len(),
                );
                lemma_row_sweep_fits(grid, rest, bounds, z + 1, last, area, threshold);
                let here = grid.spec_row_spans(row, z, area, threshold);
                let later = grid.spec_row_sweep(rest, z + 1, last, area, threshold);
                let all = grid.spec_row_sweep(work, z, last, area, threshold);
                let low_x = lowest(xs(row));
                let high_x = highest(xs(row));
                if row.len() >= 3 && z >= 0 {
                    lemma_extent(xs(row));
                    let least = choose|i: int|
                        0 <= i < xs(row).len() && #[trigger] xs(row)[i] == low_x;
                    let most = choose|i: int|
                        0 <= i < xs(row).len() && #[trigger] xs(row)[i] == high_x;
                    assert(bounds.spec_contains(row[least]));
                    assert(bounds.spec_contains(row[most]));
                    lemma_div_trunc_ordered(
                        bounds.min.x - grid.aabb.min.x,
                        low_x - grid.aabb.min.x,
                        grid.cell_size as int,
                    );
                    lemma_div_trunc_ordered(
                        high_x - grid.aabb.min.x,
                        bounds.max.x - grid.aabb.min.x,
                        grid.cell_size as int,
                    );
                    lemma_column_sweep_fits(
                        grid,
                        row,
                        grid.spec_first_column(low_x),
                        grid.spec_last_column(high_x),
                        z,
                        area,
                        threshold,
                    );
                }
                assert forall|i: int| 0 <= i < all.spans.len() implies {
                    let insertion = #[trigger] all.spans[i];
                    &&& spec_request_fits(grid, insertion, area, threshold)
                    &&& z <= insertion.z <= last
                    &&& grid.spec_first_column(bounds.min.x as int) <= insertion.x
                        <= grid.spec_last_column(bounds.max.x as int)
                } by {
                    if i < here.spans.len() {
                        assert(all.spans[i] == here.spans[i]);
                    } else {
                        assert(all.spans[i] == later.spans[i - here.spans.len()]);
                    }
                }
            },
        }
    }
}

/// Every insertion that a triangle asks for fits the grid, and its cell lies among the rows
/// and columns that the bounding box of the triangle reaches. No other cell gets a span.
pub proof fn lemma_triangle_requests_fit(
    grid: Grid,
    a: Vertex,
    b: Vertex,
    c: Vertex,
    area: AreaType,
    threshold: u32,
    i: int,
)
    requires
        grid.wf(),
        0 <= i < grid.spec_triangle_sweep(a, b, c, area, threshold).spans.len(),
    ensures
        ({
            let insertion = grid.spec_triangle_sweep(a, b, c, area, threshold).spans[i];
            let bounds = spec_aabb(a, b, c);
            &&& spec_request_fits(grid, insertion, area, threshold)
            &&& grid.aabb.spec_intersects(bounds)
            &&& grid.spec_first_row(bounds.min.z as int) <= insertion.z <= grid.spec_last_row(
                bounds.max.z as int,
            )
            &&& grid.spec_first_column(bounds.min.x as int) <= insertion.x
                <= grid.spec_last_column(bounds.max.x as int)
        }),
{
    let bounds = spec_aabb(a, b, c);
    let tri = seq![a, b, c];
    assert(all_within(tri, bounds));
    lemma_row_sweep_fits(
        grid,
        tri,
        bounds,
        grid.spec_first_row(bounds.min.z as int),
        grid.spec_last_row(bounds.max.z as int),
        area,
        threshold,
    );
}

/// A run of insertions that all fit the grid is refused only at a span that begins at the
/// largest span height; where every span is valid, none is refused.
pub proof fn lemma_insertions_outcome(
    grid: Grid,
    columns: Seq<Seq<Span>>,
    insertions: Seq<SpanInsertion>,
    area: AreaType,
    threshold: u32,
)
    requires
        forall|i: int|
            0 <= i < insertions.len() ==> spec_request_fits(
                grid,
                #[trigger] insertions[i],
                area,
                threshold,
            ),
    ensures
        spec_insert_all(grid, columns, insertions).failure matches Some(e) ==> e
            == (SpanInsertionError::InvalidSpan { min: MAX_SPAN_HEIGHT, max: MAX_SPAN_HEIGHT }),
        (forall|i: int| 0 <= i < insertions.len() ==> (#[trigger] insertions[i]).span.wf())
            ==> spec_insert_all(grid, columns, insertions).failure.is_none(),
    decreases insertions.len(),
{
    if insertions.len() > 0 {
        let front = insertions.drop_last();
        assert forall|i: int| 0 <= i < front.len() implies spec_request_fits(
            grid,
            #[trigger] front[i],
            area,
            threshold,
        ) by {
            assert(front[i] == insertions[i]);
        }
        lemma_insertions_outcome(grid, columns, front, area, threshold);
        assert(spec_request_fits(grid, insertions[insertions.len() - 1], area, threshold));
        if forall|i: int| 0 <= i < insertions.len() ==> (#[trigger] insertions[i]).span.wf() {
            assert forall|i: int| 0 <= i < front.len() implies (#[trigger] front[i]).span.wf() by {
                assert(front[i] == insertions[i]);
            }
            assert(insertions[insertions.len() - 1].span.wf());
        }
    }
}

/// The spans that a triangle asks for in a grid that is fewer than the largest span height
/// tall, in vertical cells, are all valid.
pub proof fn lemma_low_grid_spans_valid(
    grid: Grid,
    a: Vertex,
    b: Vertex,
    c: Vertex,
    area: AreaType,
    threshold: u32,
    i: int,
)
    requires
        grid.wf(),
        (grid.aabb.max.y - grid.aabb.min.y) / (grid.cell_height as int) < MAX_SPAN_HEIGHT,
        0 <= i < grid.spec_triangle_sweep(a, b, c, area, threshold).spans.len(),
    ensures
        grid.spec_triangle_sweep(a, b, c, area, threshold).spans[i].span.wf(),
{
    let bounds = spec_aabb(a, b, c);
    lemma_row_sweep_low(
        grid,
        seq![a, b, c],
        grid.spec_first_row(bounds.min.z as int),
        grid.spec_last_row(bounds.max.z as int),
        area,
        threshold,
    );
}

proof fn lemma_span_heights_low(grid: Grid, low_y: int, high_y: int)
    requires
        grid.wf(),
        (grid.aabb.max.y - grid.aabb.min.y) / (grid.cell_height as int) < MAX_SPAN_HEIGHT,
    ensures
        grid.spec_span_heights(low_y, high_y) matches Some((min, max)) ==> min < max
            <= MAX_SPAN_HEIGHT,
{
    lemma_span_heights_bounds(grid, low_y, high_y);
    let top = grid.aabb.max.y - grid.aabb.min.y;
    let low = low_y - grid.aabb.min.y;
    if grid.spec_span_heights(low_y, high_y).is_some() {
        lemma_div_is_ordered(vstd::math::max(low, 0), top, grid.cell_height as int);
    }
}

proof fn lemma_column_sweep_low(
    grid: Grid,
    work: Seq<Vertex>,
    x: int,
    last: int,
    z: int,
    area: AreaType,
    threshold: u32,
)
    requires
        grid.wf(),
        (grid.aabb.max.y - grid.aabb.min.y) / (grid.cell_height as int) < MAX_SPAN_HEIGHT,
    ensures
        forall|i: int|
            0 <= i < grid.spec_column_sweep(work, x, last, z, area, threshold).spans.len() ==> (
            #[trigger] grid.spec_column_sweep(work, x, last, z, area, threshold).spans[i]).span.wf(),
    decreases last - x + 1,
{
    if x <= last {
        match spec_divide_poly(work, grid.spec_column_end(x), DivisionAxis::X) {
            Err(e) => {},
            Ok((cell, rest)) => {
                lemma_column_sweep_low(grid, rest, x + 1, last, z, area, threshold);
                lemma_span_heights_low(grid, lowest(ys(cell)), highest(ys(cell)));
                let here = grid.spec_cell_spans(cell, x, z, area, threshold);
                let later = grid.spec_column_sweep(rest, x + 1, last, z, area, threshold);
                let all = grid.spec_column_sweep(work, x, last, z, area, threshold);
                assert(all.spans == here + later.spans);
                assert forall|i: int| 0 <= i < all.spans.len() implies (
                #[trigger] all.spans[i]).span.wf() by {
                    if i < here.len() {
                        assert(all.spans[i] == here[i]);
                    } else {
                        assert(all.spans[i] == later.spans[i - here.len()]);
                    }
                }
            },
        }
    }
}

proof fn lemma_row_sweep_low(
    grid: Grid,
    work: Seq<Vertex>,
    z: int,
    last: int,
    area: AreaType,
    threshold: u32,
)
    requires
        grid.wf(),
        (grid.aabb.max.y - grid.aabb.min.y) / (grid.cell_height as int) < MAX_SPAN_HEIGHT,
    ensures
        forall|i: int|
            0 <= i < grid.spec_row_sweep(work, z, last, area, threshold).spans.len() ==> (
            #[trigger] grid.spec_row_sweep(work, z, last, area, threshold).spans[i]).span.wf(),
    decreases last - z + 1,
{
    if z <= last {
        match spec_divide_poly(work, grid.spec_row_end(z), DivisionAxis::Z) {
            Err(e) => {},
            Ok((row, rest)) => {
                lemma_row_sweep_low(grid, rest, z + 1, last, area, threshold);
                let here = grid.spec_row_spans(row, z, area, threshold);
                let later = grid.spec_row_sweep(rest, z + 1, last, area, threshold);
                let all = grid.spec_row_sweep(work, z, last, area, threshold);
                lemma_column_sweep_low(
                    grid,
                    row,
                    grid.spec_first_column(lowest(xs(row))),
                    grid.spec_last_column(highest(xs(row))),
                    z,
                    area,
                    threshold,
                );
                assert forall|i: int| 0 <= i < all.spans.len() implies (
                #[trigger] all.spans[i]).span.wf() by {
                    if i < here.spans.len() {
                        assert(all.spans[i] == here.spans[i]);
                    } else {
                        assert(all.spans[i] == later.spans[i - here.spans.len()]);
                    }
                }
            },
        }
    }
}

} // verus!
