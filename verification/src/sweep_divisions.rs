//! Which divisions can fail while a triangle is swept across the grid.
//!
//! What is left of a triangle never has more than twelve vertices, so a division fails only
//! where nothing is left. Along the rows that does not happen. Along the columns of a row it
//! happens where the part of the triangle within the row ends less than a cell before the
//! grid and begins a cell or more before it.

use vstd::prelude::*;
use vstd::arithmetic::div_mod::lemma_fundamental_div_mod;
use crate::geometry::{spec_aabb, Aabb, Vertex};
use crate::heightfield::{Grid, SpanInsertionError};
use crate::polygon::{spec_divide_poly, DivisionAxis, PolygonDivisionError};
use crate::polygon_laws::{all_within, lemma_division_stays_within};
use crate::polygon_shape::{
    lemma_division_no_zigzag,
    lemma_division_sizes,
    lemma_triangle_no_zigzag,
    lemma_upper_keeps_reach,
    lemma_upper_reach_bounded,
    no_zigzag,
    no_zigzag_at,
    reaches,
};
use crate::span::{AreaType, Span, MAX_SPAN_HEIGHT};
use crate::sweep::{
    highest,
    lemma_extent,
    spec_insert_all,
    spec_outcome,
    xs,
    RasterizationError,
};
use crate::sweep_laws::{
    lemma_insertions_outcome,
    lemma_low_grid_spans_valid,
    lemma_triangle_requests_fit,
};

verus! {

/// The half of space that begins where the grid begins along `x`.
pub open spec fn not_before(grid: Grid) -> Aabb {
    Aabb {
        min: Vertex { x: grid.aabb.min.x, y: i32::MIN, z: i32::MIN },
        max: Vertex { x: i32::MAX, y: i32::MAX, z: i32::MAX },
    }
}

/// Cells that come later end later.
pub proof fn lemma_cell_ends_ordered(origin: int, cell_size: int, x: int, later: int)
    requires
        0 < cell_size,
        x <= later,
    ensures
        origin + (x + 1) * cell_size <= origin + (later + 1) * cell_size,
        origin + (x + 1 + 1) * cell_size == origin + (x + 1) * cell_size + cell_size,
{
    assert((x + 1) * cell_size <= (later + 1) * cell_size) by (nonlinear_arith)
        requires
            0 < cell_size,
            x <= later,
    ;
    assert((x + 1 + 1) * cell_size == (x + 1) * cell_size + cell_size) by (nonlinear_arith);
}

/// The last cell of a sweep up to a coordinate at or after the origin of the grid begins at
/// or before that coordinate.
proof fn lemma_last_cell_begins_before(grid: Grid, coord: int, origin: int, cells: int)
    requires
        0 < grid.cell_size,
        1 <= cells,
        origin <= coord,
    ensures
        origin + crate::sweep::spec_clamp(grid.spec_cell_index(coord, origin), 0, cells - 1)
            * grid.cell_size <= coord,
{
    let d = grid.cell_size as int;
    let n = coord - origin;
    lemma_fundamental_div_mod(n, d);
    let q = n / d;
    let last = crate::sweep::spec_clamp(q, 0, cells - 1);
    assert(0 <= q && last * d <= n) by (nonlinear_arith)
        requires
            n == d * q + n % d,
            0 <= n % d < d,
            0 <= n,
            0 < d,
            last == 0 || (0 <= last <= q),
    ;
}

proof fn lemma_column_sweep_divisions(
    grid: Grid,
    work: Seq<Vertex>,
    x: int,
    last: int,
    z: int,
    area: AreaType,
    threshold: u32,
)
    requires
        grid.wf(),
        work.len() <= 9,
        no_zigzag(work, DivisionAxis::X),
        work.filter(reaches(grid.spec_column_end(x), DivisionAxis::X)).len() <= 7,
    ensures
        grid.spec_column_sweep(work, x, last, z, area, threshold).failure matches Some(e) ==> e
            == PolygonDivisionError::NoVertices,
        (x <= last ==> exists|i: int|
            0 <= i < work.len() && (#[trigger] work[i]).x >= grid.spec_column_end(last - 1))
            ==> grid.spec_column_sweep(work, x, last, z, area, threshold).failure.is_none(),
    decreases last - x + 1,
{
    if x <= last && work.len() > 0 {
        let end = grid.spec_column_end(x);
        let axis = DivisionAxis::X;
        assert(no_zigzag_at(work, end, axis));
        lemma_division_sizes(work, end, axis);
        lemma_division_no_zigzag(work, end, axis, axis);
        lemma_cell_ends_ordered(grid.aabb.min.x as int, grid.cell_size as int, x, x);
        lemma_upper_reach_bounded(work, end, axis, grid.spec_column_end(x + 1));
        let (cell, rest) = spec_divide_poly(work, end, axis).unwrap();
        if x + 1 <= last && exists|i: int|
            0 <= i < work.len() && (#[trigger] work[i]).x >= grid.spec_column_end(last - 1) {
            let i = choose|i: int|
                0 <= i < work.len() && (#[trigger] work[i]).x >= grid.spec_column_end(last - 1);
            lemma_cell_ends_ordered(grid.aabb.min.x as int, grid.cell_size as int, x, last - 1);
            lemma_upper_keeps_reach(work, end, axis, grid.spec_column_end(last - 1), i);
            let j = choose|j: int|
                0 <= j < rest.len() && axis.spec_coordinate(#[trigger] rest[j])
                    >= grid.spec_column_end(last - 1);
            assert(rest[j].x >= grid.spec_column_end(last - 1));
        }
        lemma_column_sweep_divisions(grid, rest, x + 1, last, z, area, threshold);
    }
}

proof fn lemma_row_spans_divisions(
    grid: Grid,
    row: Seq<Vertex>,
    z: int,
    area: AreaType,
    threshold: u32,
)
    requires
        grid.wf(),
        row.len() <= 7,
        no_zigzag(row, DivisionAxis::X),
    ensures
        grid.spec_row_spans(row, z, area, threshold).failure matches Some(e) ==> e
            == PolygonDivisionError::NoVertices,
        all_within(row, not_before(grid)) ==> grid.spec_row_spans(
            row,
            z,
            area,
            threshold,
        ).failure.is_none(),
{
    let low = crate::sweep::lowest(xs(row));
    let high = highest(xs(row));
    let first = grid.spec_first_column(low);
    let last = grid.spec_last_column(high);
    row.lemma_filter_len(reaches(grid.spec_column_end(first), DivisionAxis::X));
    if row.len() >= 3 && all_within(row, not_before(grid)) {
        lemma_extent(xs(row));
        let i = choose|i: int| 0 <= i < xs(row).len() && #[trigger] xs(row)[i] == high;
        assert(not_before(grid).spec_contains(row[i]));
        assert(row[i].x == high);
        lemma_last_cell_begins_before(grid, high, grid.aabb.min.x as int, grid.width as int);
        assert(row[i].x >= grid.spec_column_end(last - 1));
    }
    lemma_column_sweep_divisions(grid, row, first, last, z, area, threshold);
}

proof fn lemma_row_sweep_divisions(
    grid: Grid,
    work: Seq<Vertex>,
    z: int,
    last: int,
    area: AreaType,
    threshold: u32,
)
    requires
        grid.wf(),
        work.len() <= 5,
        no_zigzag(work, DivisionAxis::X),
        no_zigzag(work, DivisionAxis::Z),
        work.filter(reaches(grid.spec_row_end(z), DivisionAxis::Z)).len() <= 3,
        z <= last ==> exists|i: int|
            0 <= i < work.len() && (#[trigger] work[i]).z >= grid.spec_row_end(last - 1),
    ensures
        grid.spec_row_sweep(work, z, last, area, threshold).failure matches Some(e) ==> e
            == PolygonDivisionError::NoVertices,
        all_within(work, not_before(grid)) ==> grid.spec_row_sweep(
            work,
            z,
            last,
            area,
            threshold,
        ).failure.is_none(),
    decreases last - z + 1,
{
    if z <= last {
        let end = grid.spec_row_end(z);
        let axis = DivisionAxis::Z;
        let i = choose|i: int|
            0 <= i < work.len() && (#[trigger] work[i]).z >= grid.spec_row_end(last - 1);
        assert(no_zigzag_at(work, end, axis));
        lemma_division_sizes(work, end, axis);
        lemma_division_no_zigzag(work, end, axis, DivisionAxis::X);
        lemma_division_no_zigzag(work, end, axis, DivisionAxis::Z);
        lemma_cell_ends_ordered(grid.aabb.min.z as int, grid.cell_size as int, z, z);
        lemma_upper_reach_bounded(work, end, axis, grid.spec_row_end(z + 1));
        let (row, rest) = spec_divide_poly(work, end, axis).unwrap();
        if all_within(work, not_before(grid)) {
            lemma_division_stays_within(work, end, axis, not_before(grid), work.len());
        }
        lemma_row_spans_divisions(grid, row, z, area, threshold);
        if z + 1 <= last {
            lemma_cell_ends_ordered(grid.aabb.min.z as int, grid.cell_size as int, z, last - 1);
            lemma_upper_keeps_reach(work, end, axis, grid.spec_row_end(last - 1), i);
            let j = choose|j: int|
                0 <= j < rest.len() && axis.spec_coordinate(#[trigger] rest[j])
                    >= grid.spec_row_end(last - 1);
            assert(rest[j].z >= grid.spec_row_end(last - 1));
        }
        lemma_row_sweep_divisions(grid, rest, z + 1, last, area, threshold);
    }
}

/// The sweep of a triangle never fails for a polygon of too many vertices; and it does not
/// fail at all where the triangle does not begin before the grid along `x`.
pub proof fn lemma_triangle_sweep_divisions(
    grid: Grid,
    a: Vertex,
    b: Vertex,
    c: Vertex,
    area: AreaType,
    threshold: u32,
)
    requires
        grid.wf(),
    ensures
        grid.spec_triangle_sweep(a, b, c, area, threshold).failure matches Some(e) ==> e
            == PolygonDivisionError::NoVertices,
        spec_aabb(a, b, c).min.x >= grid.aabb.min.x ==> grid.spec_triangle_sweep(
            a,
            b,
            c,
            area,
            threshold,
        ).failure.is_none(),
{
    let bounds = spec_aabb(a, b, c);
    let tri = seq![a, b, c];
    if grid.aabb.spec_intersects(bounds) {
        let first = grid.spec_first_row(bounds.min.z as int);
        let last = grid.spec_last_row(bounds.max.z as int);
        lemma_triangle_no_zigzag(tri, DivisionAxis::X);
        lemma_triangle_no_zigzag(tri, DivisionAxis::Z);
        tri.lemma_filter_len(reaches(grid.spec_row_end(first), DivisionAxis::Z));
        lemma_last_cell_begins_before(
            grid,
            bounds.max.z as int,
            grid.aabb.min.z as int,
            grid.height as int,
        );
        assert(tri[0].z == bounds.max.z || tri[1].z == bounds.max.z || tri[2].z == bounds.max.z);
        assert(exists|i: int|
            0 <= i < tri.len() && (#[trigger] tri[i]).z >= grid.spec_row_end(last - 1));
        if bounds.min.x >= grid.aabb.min.x {
            assert(all_within(tri, not_before(grid)));
        }
        lemma_row_sweep_divisions(grid, tri, first, last, area, threshold);
    }
}

impl Grid {
    /// The grid is fewer than the largest span height tall, in vertical cells.
    pub open spec fn spec_low(&self) -> bool {
        (self.aabb.max.y - self.aabb.min.y) / (self.cell_height as int) < MAX_SPAN_HEIGHT
    }
}

/// How the rasterization of a triangle can end: with success; with the refusal of a span that
/// begins at the largest span height; or with the division of what is left where nothing is
/// left. In a grid that is fewer than the largest span height tall, no span is refused; for a
/// triangle that does not begin before the grid along `x`, no division fails.
pub proof fn lemma_rasterization_outcome(
    grid: Grid,
    columns: Seq<Seq<Span>>,
    a: Vertex,
    b: Vertex,
    c: Vertex,
    area: AreaType,
    threshold: u32,
)
    requires
        grid.wf(),
    ensures
        ({
            let sweep = grid.spec_triangle_sweep(a, b, c, area, threshold);
            let outcome = spec_outcome(sweep, spec_insert_all(grid, columns, sweep.spans));
            &&& outcome matches Err(e) ==> e == RasterizationError::PolygonDivisionError(
                PolygonDivisionError::NoVertices,
            ) || e == RasterizationError::SpanInsertionError(
                SpanInsertionError::InvalidSpan { min: MAX_SPAN_HEIGHT, max: MAX_SPAN_HEIGHT },
            )
            &&& grid.spec_low() ==> !(outcome matches Err(
                RasterizationError::SpanInsertionError(_),
            ))
            &&& spec_aabb(a, b, c).min.x >= grid.aabb.min.x ==> !(outcome matches Err(
                RasterizationError::PolygonDivisionError(_),
            ))
            &&& grid.spec_low() && spec_aabb(a, b, c).min.x >= grid.aabb.min.x ==> outcome.is_ok()
        }),
{
    let sweep = grid.spec_triangle_sweep(a, b, c, area, threshold);
    lemma_triangle_sweep_divisions(grid, a, b, c, area, threshold);
    assert forall|i: int| 0 <= i < sweep.spans.len() implies crate::sweep_laws::spec_request_fits(
        grid,
        #[trigger] sweep.spans[i],
        area,
        threshold,
    ) by {
        lemma_triangle_requests_fit(grid, a, b, c, area, threshold, i);
    }
    lemma_insertions_outcome(grid, columns, sweep.spans, area, threshold);
    if grid.spec_low() {
        assert forall|i: int| 0 <= i < sweep.spans.len() implies (
        #[trigger] sweep.spans[i]).span.wf() by {
            lemma_low_grid_spans_valid(grid, a, b, c, area, threshold, i);
        }
    }
}

} // verus!
