//! What rasterizing a triangle means: the span insertions that a triangle asks for, cell by
//! cell, and what they make of the columns of a heightfield.

use vstd::prelude::*;
use crate::arith::{spec_div_ceil, spec_div_trunc};
use crate::geometry::{spec_aabb, Vertex};
use crate::heightfield::{spec_add_span, Grid, SpanInsertion, SpanInsertionError};
use crate::polygon::{spec_divide_poly, DivisionAxis, PolygonDivisionError};
use crate::span::{AreaType, Span, MAX_SPAN_HEIGHT};
use crate::trimesh::TrimeshedCollider;

verus! {

/// Why a triangle could not be rasterized into a heightfield.
#[derive(Clone, Copy, Debug, PartialEq, Eq, Structural)]
pub enum RasterizationError {
    /// A polygon could not be divided.
    PolygonDivisionError(PolygonDivisionError),
    /// A span could not be inserted.
    SpanInsertionError(SpanInsertionError),
}

/// The insertions that a sweep asks for, in order, and the failed division that ended it
/// early, if one did.
pub ghost struct Sweep {
    pub spans: Seq<SpanInsertion>,
    pub failure: Option<PolygonDivisionError>,
}

/// Columns after a run of insertions, and the refusal that ended the run early, if any.
pub ghost struct Filled {
    pub columns: Seq<Seq<Span>>,
    pub failure: Option<SpanInsertionError>,
}

/// The sweep that asks for nothing.
pub open spec fn spec_idle() -> Sweep {
    Sweep { spans: Seq::empty(), failure: None }
}

/// One sweep followed by another; a failed first sweep is all there is.
pub open spec fn spec_then(first: Sweep, later: Sweep) -> Sweep {
    if first.failure.is_some() {
        first
    } else {
        Sweep { spans: first.spans + later.spans, failure: later.failure }
    }
}

/// `v`, moved into the range from `low` to `high`.
pub open spec fn spec_clamp(v: int, low: int, high: int) -> int {
    if v < low {
        low
    } else if v > high {
        high
    } else {
        v
    }
}

/// The `x` coordinates of the vertices of a polygon.
pub open spec fn xs(poly: Seq<Vertex>) -> Seq<int> {
    Seq::new(poly.len(), |i: int| poly[i].x as int)
}

/// The `y` coordinates of the vertices of a polygon.
pub open spec fn ys(poly: Seq<Vertex>) -> Seq<int> {
    Seq::new(poly.len(), |i: int| poly[i].y as int)
}

/// The smallest of a non-empty list of numbers.
pub open spec fn lowest(values: Seq<int>) -> int
    decreases values.len(),
{
    if values.len() == 0 {
        0
    } else if values.len() == 1 {
        values[0]
    } else {
        vstd::math::min(lowest(values.drop_last()), values.last())
    }
}

/// The largest of a non-empty list of numbers.
pub open spec fn highest(values: Seq<int>) -> int
    decreases values.len(),
{
    if values.len() == 0 {
        0
    } else if values.len() == 1 {
        values[0]
    } else {
        vstd::math::max(highest(values.drop_last()), values.last())
    }
}

impl Grid {
    /// The number of the cell, along one axis, that holds a coordinate: the distance to the
    /// origin of the grid in cells, rounded towards zero.
    pub open spec fn spec_cell_index(&self, coord: int, origin: int) -> int {
        spec_div_trunc(coord - origin, self.cell_size as int)
    }

    /// The first row of a sweep over the rows from `min_z` on: one row before the grid at the
    /// earliest, so that what lies before the grid is cut away.
    pub open spec fn spec_first_row(&self, min_z: int) -> int {
        spec_clamp(self.spec_cell_index(min_z, self.aabb.min.z as int), -1, self.height - 1)
    }

    /// The last row of a sweep over the rows up to `max_z`.
    pub open spec fn spec_last_row(&self, max_z: int) -> int {
        spec_clamp(self.spec_cell_index(max_z, self.aabb.min.z as int), 0, self.height - 1)
    }

    /// The first column of a sweep over the columns from `min_x` on.
    pub open spec fn spec_first_column(&self, min_x: int) -> int {
        spec_clamp(self.spec_cell_index(min_x, self.aabb.min.x as int), -1, self.width - 1)
    }

    /// The last column of a sweep over the columns up to `max_x`.
    pub open spec fn spec_last_column(&self, max_x: int) -> int {
        spec_clamp(self.spec_cell_index(max_x, self.aabb.min.x as int), 0, self.width - 1)
    }

    /// The `z` coordinate at which row `z` ends and the next begins.
    pub open spec fn spec_row_end(&self, z: int) -> int {
        self.aabb.min.z + (z + 1) * self.cell_size
    }

    /// The `x` coordinate at which column `x` ends and the next begins.
    pub open spec fn spec_column_end(&self, x: int) -> int {
        self.aabb.min.x + (x + 1) * self.cell_size
    }

    /// The span, in vertical cells, of what reaches from height `low_y` to height `high_y`:
    /// nothing where that lies wholly above or wholly below the grid; otherwise the part
    /// within the grid, measured from the floor of the grid, with its lower end rounded
    /// down and its upper end rounded up to whole cells, the upper end at least one cell
    /// above the lower, and both ends at most [`MAX_SPAN_HEIGHT`].
    pub open spec fn spec_span_heights(&self, low_y: int, high_y: int) -> Option<(u16, u16)> {
        let low = low_y - self.aabb.min.y;
        let high = high_y - self.aabb.min.y;
        let top = self.aabb.max.y - self.aabb.min.y;
        if high < 0 || low > top {
            None
        } else {
            let bottom = vstd::math::min(
                vstd::math::max(low, 0) / (self.cell_height as int),
                MAX_SPAN_HEIGHT as int,
            );
            let ceiling = vstd::math::min(
                vstd::math::max(
                    spec_div_ceil(vstd::math::min(high, top), self.cell_height as int),
                    bottom + 1,
                ),
                MAX_SPAN_HEIGHT as int,
            );
            Some((bottom as u16, ceiling as u16))
        }
    }

    /// What the part of a triangle within cell `(x, z)` asks for: one span that reaches over
    /// the heights of its vertices. It asks for nothing where that part has fewer than three
    /// vertices, where the column lies before the grid, or where the heights lie wholly
    /// above or below the grid.
    pub open spec fn spec_cell_spans(
        &self,
        cell: Seq<Vertex>,
        x: int,
        z: int,
        area: AreaType,
        threshold: u32,
    ) -> Seq<SpanInsertion> {
        if cell.len() < 3 || x < 0 {
            Seq::empty()
        } else {
            match self.spec_span_heights(lowest(ys(cell)), highest(ys(cell))) {
                Some((min, max)) => seq![
                    SpanInsertion {
                        x: x as u32,
                        z: z as u32,
                        span: Span { min, max, area },
                        flag_merge_threshold: threshold,
                    },
                ],
                None => Seq::empty(),
            }
        }
    }

    /// The sweep over the columns from `x` to `last` of row `z`. At each column the polygon
    /// that is left is divided where the column ends: the lower side is the part within the
    /// column, the upper side is what is left for the columns after it.
    pub open spec fn spec_column_sweep(
        &self,
        work: Seq<Vertex>,
        x: int,
        last: int,
        z: int,
        area: AreaType,
        threshold: u32,
    ) -> Sweep
        decreases last - x + 1,
    {
        if x > last {
            spec_idle()
        } else {
            match spec_divide_poly(work, self.spec_column_end(x), DivisionAxis::X) {
                Err(e) => Sweep { spans: Seq::empty(), failure: Some(e) },
                Ok((cell, rest)) => spec_then(
                    Sweep {
                        spans: self.spec_cell_spans(cell, x, z, area, threshold),
                        failure: None,
                    },
                    self.spec_column_sweep(rest, x + 1, last, z, area, threshold),
                ),
            }
        }
    }

    /// What the part of a triangle within row `z` asks for: the sweep over the columns that
    /// its extent along `x` reaches. It asks for nothing where that part has fewer than three
    /// vertices, where the row lies before the grid, or where the extent lies wholly beside
    /// the grid.
    pub open spec fn spec_row_spans(
        &self,
        row: Seq<Vertex>,
        z: int,
        area: AreaType,
        threshold: u32,
    ) -> Sweep {
        let first = self.spec_cell_index(lowest(xs(row)), self.aabb.min.x as int);
        let last = self.spec_cell_index(highest(xs(row)), self.aabb.min.x as int);
        if row.len() < 3 || z < 0 || last < 0 || first >= self.width {
            spec_idle()
        } else {
            self.spec_column_sweep(
                row,
                self.spec_first_column(lowest(xs(row))),
                self.spec_last_column(highest(xs(row))),
                z,
                area,
                threshold,
            )
        }
    }

    /// The sweep over the rows from `z` to `last`. At each row the polygon that is left is
    /// divided where the row ends: the lower side is the part within the row, the upper side
    /// is what is left for the rows after it.
    pub open spec fn spec_row_sweep(
        &self,
        work: Seq<Vertex>,
        z: int,
        last: int,
        area: AreaType,
        threshold: u32,
    ) -> Sweep
        decreases last - z + 1,
    {
        if z > last {
            spec_idle()
        } else {
            match spec_divide_poly(work, self.spec_row_end(z), DivisionAxis::Z) {
                Err(e) => Sweep { spans: Seq::empty(), failure: Some(e) },
                Ok((row, rest)) => spec_then(
                    self.spec_row_spans(row, z, area, threshold),
                    self.spec_row_sweep(rest, z + 1, last, area, threshold),
                ),
            }
        }
    }

    /// Everything a triangle asks for. A triangle whose bounding box does not meet the box of
    /// the grid asks for nothing.
    pub open spec fn spec_triangle_sweep(
        &self,
        a: Vertex,
        b: Vertex,
        c: Vertex,
        area: AreaType,
        threshold: u32,
    ) -> Sweep {
        let bounds = spec_aabb(a, b, c);
        if !self.aabb.spec_intersects(bounds) {
            spec_idle()
        } else {
            self.spec_row_sweep(
                seq![a, b, c],
                self.spec_first_row(bounds.min.z as int),
                self.spec_last_row(bounds.max.z as int),
                area,
                threshold,
            )
        }
    }
}

/// The columns after the insertions are made one after the other. The first insertion that
/// is refused ends the run: the columns stay as they were before it.
pub open spec fn spec_insert_all(
    grid: Grid,
    columns: Seq<Seq<Span>>,
    insertions: Seq<SpanInsertion>,
) -> Filled
    decreases insertions.len(),
{
    if insertions.len() == 0 {
        Filled { columns, failure: None }
    } else {
        let before = spec_insert_all(grid, columns, insertions.drop_last());
        if before.failure.is_some() {
            before
        } else {
            match spec_add_span(grid, before.columns, insertions.last()) {
                Ok(after) => Filled { columns: after, failure: None },
                Err(e) => Filled { columns: before.columns, failure: Some(e) },
            }
        }
    }
}

/// What a rasterization returns: the refusal of an insertion, if there was one; else the
/// failed division, if there was one; else success.
pub open spec fn spec_outcome(sweep: Sweep, filled: Filled) -> Result<(), RasterizationError> {
    match filled.failure {
        Some(e) => Err(RasterizationError::SpanInsertionError(e)),
        None => match sweep.failure {
            Some(e) => Err(RasterizationError::PolygonDivisionError(e)),
            None => Ok(()),
        },
    }
}

/// Carrying out `sweep` on the columns `before` leaves the columns `after` and returns
/// `result`.
pub open spec fn spec_carried_out(
    grid: Grid,
    before: Seq<Seq<Span>>,
    sweep: Sweep,
    after: Seq<Seq<Span>>,
    result: Result<(), RasterizationError>,
) -> bool {
    let filled = spec_insert_all(grid, before, sweep.spans);
    after == filled.columns && result == spec_outcome(sweep, filled)
}

/// The smallest and the largest of a non-empty list of numbers bound all of them, and both
/// are among them.
pub proof fn lemma_extent(values: Seq<int>)
    requires
        values.len() > 0,
    ensures
        forall|i: int| 0 <= i < values.len() ==> lowest(values) <= #[trigger] values[i] <= highest(values),
        exists|i: int| 0 <= i < values.len() && #[trigger] values[i] == lowest(values),
        exists|i: int| 0 <= i < values.len() && #[trigger] values[i] == highest(values),
    decreases values.len(),
{
    if values.len() == 1 {
        assert(values[0] == lowest(values));
        assert(values[0] == highest(values));
    } else {
        let front = values.drop_last();
        lemma_extent(front);
        let i = choose|i: int| 0 <= i < front.len() && #[trigger] front[i] == lowest(front);
        let j = choose|j: int| 0 <= j < front.len() && #[trigger] front[j] == highest(front);
        assert(values[i] == front[i]);
        assert(values[j] == front[j]);
        assert(values[values.len() - 1] == values.last());
        assert forall|k: int| 0 <= k < values.len() implies lowest(values) <= #[trigger] values[k]
            <= highest(values) by {
            if k < front.len() {
                assert(values[k] == front[k]);
            }
        }
    }
}

/// A run of insertions can be made in two parts: if the first part is refused, the second is
/// never begun.
pub proof fn lemma_insert_all_in_parts(
    grid: Grid,
    columns: Seq<Seq<Span>>,
    first: Seq<SpanInsertion>,
    second: Seq<SpanInsertion>,
)
    ensures
        spec_insert_all(grid, columns, first + second) == if spec_insert_all(
            grid,
            columns,
            first,
        ).failure.is_some() {
            spec_insert_all(grid, columns, first)
        } else {
            spec_insert_all(grid, spec_insert_all(grid, columns, first).columns, second)
        },
    decreases second.len(),
{
    if second.len() == 0 {
        assert(first + second =~= first);
    } else {
        lemma_insert_all_in_parts(grid, columns, first, second.drop_last());
        assert((first + second).drop_last() =~= first + second.drop_last());
        assert((first + second).last() == second.last());
    }
}

/// A run of one insertion is that insertion.
pub proof fn lemma_insert_all_single(grid: Grid, columns: Seq<Seq<Span>>, insertion: SpanInsertion)
    ensures
        spec_insert_all(grid, columns, seq![insertion]) == match spec_add_span(
            grid,
            columns,
            insertion,
        ) {
            Ok(after) => Filled { columns: after, failure: None },
            Err(e) => Filled { columns, failure: Some(e) },
        },
{
    assert(seq![insertion].drop_last() =~= Seq::<SpanInsertion>::empty());
    assert(seq![insertion].last() == insertion);
    assert(spec_insert_all(grid, columns, Seq::<SpanInsertion>::empty()) == Filled {
        columns,
        failure: None,
    });
}

/// One step of a sweep. The insertions `done` have led from `start` to `mid` without a
/// refusal, and the step `here` has then led from `mid` to `after`. If the step succeeded,
/// its insertions count as done. If it failed, the whole sweep has been carried out, whatever
/// would have come `later`.
pub proof fn lemma_sweep_step(
    grid: Grid,
    start: Seq<Seq<Span>>,
    done: Seq<SpanInsertion>,
    mid: Seq<Seq<Span>>,
    here: Sweep,
    after: Seq<Seq<Span>>,
    result: Result<(), RasterizationError>,
    later: Sweep,
)
    requires
        spec_insert_all(grid, start, done) == (Filled { columns: mid, failure: None }),
        spec_carried_out(grid, mid, here, after, result),
    ensures
        result.is_ok() ==> spec_insert_all(grid, start, done + here.spans) == (Filled {
            columns: after,
            failure: None,
        }) && spec_then(Sweep { spans: done, failure: None }, spec_then(here, later)) == spec_then(
            Sweep { spans: done + here.spans, failure: None },
            later,
        ),
        result.is_err() ==> spec_carried_out(
            grid,
            start,
            spec_then(Sweep { spans: done, failure: None }, spec_then(here, later)),
            after,
            result,
        ),
{
    lemma_insert_all_in_parts(grid, start, done, here.spans);
    if result.is_ok() {
        assert(done + (here.spans + later.spans) =~= (done + here.spans) + later.spans);
    } else if here.failure.is_some() {
    } else {
        lemma_insert_all_in_parts(grid, start, done + here.spans, later.spans);
        assert(done + (here.spans + later.spans) =~= (done + here.spans) + later.spans);
    }
}

/// The end of a sweep: the insertions `done` were all there was to do.
pub proof fn lemma_sweep_end(
    grid: Grid,
    start: Seq<Seq<Span>>,
    done: Seq<SpanInsertion>,
    after: Seq<Seq<Span>>,
)
    requires
        spec_insert_all(grid, start, done) == (Filled { columns: after, failure: None }),
    ensures
        spec_carried_out(
            grid,
            start,
            spec_then(Sweep { spans: done, failure: None }, spec_idle()),
            after,
            Ok(()),
        ),
{
    assert(done + Seq::<SpanInsertion>::empty() =~= done);
}

/// Columns after the triangles of a mesh are rasterized, and what the run returns.
pub ghost struct Populated {
    pub columns: Seq<Seq<Span>>,
    pub result: Result<(), RasterizationError>,
}

/// The columns after the first `upto` triangles of a mesh are rasterized one after the other,
/// each with its own area tag. The first triangle that fails ends the run: what it inserted
/// before it failed stays, and its error is returned.
pub open spec fn spec_populate(
    grid: Grid,
    columns: Seq<Seq<Span>>,
    mesh: TrimeshedCollider,
    upto: nat,
    threshold: u32,
) -> Populated
    decreases upto,
{
    if upto == 0 {
        Populated { columns, result: Ok(()) }
    } else {
        let before = spec_populate(grid, columns, mesh, (upto - 1) as nat, threshold);
        if before.result.is_err() {
            before
        } else {
            let (a, b, c) = mesh.spec_triangle(upto - 1);
            let sweep = grid.spec_triangle_sweep(a, b, c, mesh.area_types@[upto - 1], threshold);
            let filled = spec_insert_all(grid, before.columns, sweep.spans);
            Populated { columns: filled.columns, result: spec_outcome(sweep, filled) }
        }
    }
}

/// Once a triangle has failed, the triangles after it change nothing.
pub proof fn lemma_populate_stops(
    grid: Grid,
    columns: Seq<Seq<Span>>,
    mesh: TrimeshedCollider,
    failed: nat,
    upto: nat,
    threshold: u32,
)
    requires
        failed <= upto,
        spec_populate(grid, columns, mesh, failed, threshold).result.is_err(),
    ensures
        spec_populate(grid, columns, mesh, upto, threshold) == spec_populate(
            grid,
            columns,
            mesh,
            failed,
            threshold,
        ),
    decreases upto,
{
    if upto > failed {
        lemma_populate_stops(grid, columns, mesh, failed, (upto - 1) as nat, threshold);
    }
}

} // verus!
