//! The cells that a sweep is sure to reach: those that hold a corner of the triangle.

use vstd::prelude::*;
use crate::arith::lemma_div_trunc_ordered;
use crate::geometry::{spec_aabb, Vertex};
use crate::heightfield::Grid;
use crate::polygon::{spec_divide_poly, DivisionAxis};
use crate::polygon_shape::{
    lemma_lower_holds_before,
    lemma_side_of_vertex,
    lemma_upper_holds_beyond,
};
use crate::span::AreaType;
use crate::sweep::{highest, lemma_extent, lowest, xs, ys};
use crate::sweep_divisions::lemma_cell_ends_ordered;
use crate::sweep_laws::lemma_cell_index_within;

verus! {

impl Grid {
    /// The vertex lies within the footprint of cell `(x, z)` and not on its border.
    pub open spec fn spec_cell_holds_inside(&self, x: int, z: int, v: Vertex) -> bool {
        &&& self.spec_column_end(x - 1) < v.x < self.spec_column_end(x)
        &&& self.spec_row_end(z - 1) < v.z < self.spec_row_end(z)
    }
}

proof fn lemma_column_sweep_covers(
    grid: Grid,
    work: Seq<Vertex>,
    first: int,
    last: int,
    z: int,
    area: AreaType,
    threshold: u32,
    v: Vertex,
    x: int,
)
    requires
        grid.wf(),
        work.len() >= 3,
        work.contains(v),
        first <= x <= last,
        grid.spec_in_bounds(x, z),
        grid.spec_column_end(x - 1) < v.x < grid.spec_column_end(x),
        grid.aabb.min.y <= v.y <= grid.aabb.max.y,
        grid.spec_column_sweep(work, first, last, z, area, threshold).failure.is_none(),
    ensures
        exists|k: int|
            0 <= k < grid.spec_column_sweep(work, first, last, z, area, threshold).spans.len() && (
            #[trigger] grid.spec_column_sweep(work, first, last, z, area, threshold).spans[k]).x
                == x && grid.spec_column_sweep(work, first, last, z, area, threshold).spans[k].z
                == z,
    decreases x - first,
{
    let i = choose|i: int| 0 <= i < work.len() && work[i] == v;
    let end = grid.spec_column_end(first);
    let axis = DivisionAxis::X;
    let total = grid.spec_column_sweep(work, first, last, z, area, threshold);
    let (cell, rest) = spec_divide_poly(work, end, axis).unwrap();
    let here = grid.spec_cell_spans(cell, first, z, area, threshold);
    let later = grid.spec_column_sweep(rest, first + 1, last, z, area, threshold);
    assert(total.spans == here + later.spans);
    if first == x {
        lemma_lower_holds_before(work, end, axis, i);
        lemma_side_of_vertex(work, end, axis, false, i);
        let j = choose|j: int| 0 <= j < cell.len() && cell[j] == v;
        lemma_extent(ys(cell));
        assert(ys(cell)[j] == v.y);
        assert(here.len() == 1);
        assert(total.spans[0] == here[0]);
    } else {
        lemma_cell_ends_ordered(grid.aabb.min.x as int, grid.cell_size as int, first, x - 1);
        lemma_upper_holds_beyond(work, end, axis, i);
        lemma_side_of_vertex(work, end, axis, true, i);
        lemma_column_sweep_covers(grid, rest, first + 1, last, z, area, threshold, v, x);
        let k = choose|k: int|
            0 <= k < later.spans.len() && (#[trigger] later.spans[k]).x == x && later.spans[k].z
                == z;
        assert(total.spans[here.len() + k] == later.spans[k]);
    }
}

proof fn lemma_row_spans_cover(
    grid: Grid,
    row: Seq<Vertex>,
    z: int,
    area: AreaType,
    threshold: u32,
    v: Vertex,
    x: int,
)
    requires
        grid.wf(),
        row.len() >= 3,
        row.contains(v),
        grid.spec_in_bounds(x, z),
        grid.spec_column_end(x - 1) < v.x < grid.spec_column_end(x),
        grid.aabb.min.y <= v.y <= grid.aabb.max.y,
        grid.spec_row_spans(row, z, area, threshold).failure.is_none(),
    ensures
        exists|k: int|
            0 <= k < grid.spec_row_spans(row, z, area, threshold).spans.len() && (
            #[trigger] grid.spec_row_spans(row, z, area, threshold).spans[k]).x == x
                && grid.spec_row_spans(row, z, area, threshold).spans[k].z == z,
{
    let i = choose|i: int| 0 <= i < row.len() && row[i] == v;
    let origin = grid.aabb.min.x as int;
    lemma_extent(xs(row));
    assert(xs(row)[i] == v.x);
    lemma_cell_index_within(grid, v.x as int, origin, x);
    lemma_div_trunc_ordered(lowest(xs(row)) - origin, v.x - origin, grid.cell_size as int);
    lemma_div_trunc_ordered(v.x - origin, highest(xs(row)) - origin, grid.cell_size as int);
    lemma_column_sweep_covers(
        grid,
        row,
        grid.spec_first_column(lowest(xs(row))),
        grid.spec_last_column(highest(xs(row))),
        z,
        area,
        threshold,
        v,
        x,
    );
}

proof fn lemma_row_sweep_covers(
    grid: Grid,
    work: Seq<Vertex>,
    first: int,
    last: int,
    area: AreaType,
    threshold: u32,
    v: Vertex,
    x: int,
    z: int,
)
    requires
        grid.wf(),
        work.len() >= 3,
        work.contains(v),
        first <= z <= last,
        grid.spec_in_bounds(x, z),
        grid.spec_cell_holds_inside(x, z, v),
        grid.aabb.min.y <= v.y <= grid.aabb.max.y,
        grid.spec_row_sweep(work, first, last, area, threshold).failure.is_none(),
    ensures
        exists|k: int|
            0 <= k < grid.spec_row_sweep(work, first, last, area, threshold).spans.len() && (
            #[trigger] grid.spec_row_sweep(work, first, last, area, threshold).spans[k]).x == x
                && grid.spec_row_sweep(work, first, last, area, threshold).spans[k].z == z,
    decreases z - first,
{
    let i = choose|i: int| 0 <= i < work.len() && work[i] == v;
    let end = grid.spec_row_end(first);
    let axis = DivisionAxis::Z;
    let total = grid.spec_row_sweep(work, first, last, area, threshold);
    let (row, rest) = spec_divide_poly(work, end, axis).unwrap();
    let here = grid.spec_row_spans(row, first, area, threshold);
    let later = grid.spec_row_sweep(rest, first + 1, last, area, threshold);
    assert(total.spans == here.spans + later.spans);
    if first == z {
        lemma_lower_holds_before(work, end, axis, i);
        lemma_side_of_vertex(work, end, axis, false, i);
        lemma_row_spans_cover(grid, row, z, area, threshold, v, x);
        let k = choose|k: int|
            0 <= k < here.spans.len() && (#[trigger] here.spans[k]).x == x && here.spans[k].z == z;
        assert(total.spans[k] == here.spans[k]);
    } else {
        lemma_cell_ends_ordered(grid.aabb.min.z as int, grid.cell_size as int, first, z - 1);
        lemma_upper_holds_beyond(work, end, axis, i);
        lemma_side_of_vertex(work, end, axis, true, i);
        lemma_row_sweep_covers(grid, rest, first + 1, last, area, threshold, v, x, z);
        let k = choose|k: int|
            0 <= k < later.spans.len() && (#[trigger] later.spans[k]).x == x && later.spans[k].z
                == z;
        assert(total.spans[here.spans.len() + k] == later.spans[k]);
    }
}

/// Coverage of the corners. Where a corner of a triangle lies inside a cell of the grid, and
/// within the box of the grid, and no division fails, the triangle asks for a span in that
/// cell.
pub proof fn lemma_corner_is_covered(
    grid: Grid,
    a: Vertex,
    b: Vertex,
    c: Vertex,
    area: AreaType,
    threshold: u32,
    v: Vertex,
    x: int,
    z: int,
)
    requires
        grid.wf(),
        v == a || v == b || v == c,
        grid.spec_in_bounds(x, z),
        grid.spec_cell_holds_inside(x, z, v),
        grid.aabb.spec_contains(v),
        grid.spec_triangle_sweep(a, b, c, area, threshold).failure.is_none(),
    ensures
        exists|k: int|
            0 <= k < grid.spec_triangle_sweep(a, b, c, area, threshold).spans.len() && (
            #[trigger] grid.spec_triangle_sweep(a, b, c, area, threshold).spans[k]).x == x
                && grid.spec_triangle_sweep(a, b, c, area, threshold).spans[k].z == z,
{
    let tri = seq![a, b, c];
    let bounds = spec_aabb(a, b, c);
    let origin = grid.aabb.min.z as int;
    assert(tri[0] == a && tri[1] == b && tri[2] == c);
    assert(tri.contains(v));
    lemma_cell_index_within(grid, v.z as int, origin, z);
    lemma_div_trunc_ordered(bounds.min.z - origin, v.z - origin, grid.cell_size as int);
    lemma_div_trunc_ordered(v.z - origin, bounds.max.z - origin, grid.cell_size as int);
    lemma_row_sweep_covers(
        grid,
        tri,
        grid.spec_first_row(bounds.min.z as int),
        grid.spec_last_row(bounds.max.z as int),
        area,
        threshold,
        v,
        x,
        z,
    );
}

} // verus!
