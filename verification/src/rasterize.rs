//! Rasterization of triangles into a heightfield.

use vstd::prelude::*;
use crate::arith::{div_ceil, div_trunc};
use crate::geometry::{aabb, spec_aabb, Vertex};
use crate::heightfield::{Grid, Heightfield, SpanInsertion};
use crate::polygon::{divide_poly, DivisionAxis, Polygon};
use crate::span::{AreaType, Span, MAX_SPAN_HEIGHT};
use crate::sweep_divisions::lemma_rasterization_outcome;
use crate::trimesh::TrimeshedCollider;
use crate::sweep::{
    highest,
    lemma_insert_all_single,
    lemma_sweep_end,
    lemma_populate_stops,
    lemma_sweep_step,
    lowest,
    spec_carried_out,
    spec_clamp,
    spec_idle,
    spec_insert_all,
    spec_outcome,
    spec_populate,
    spec_then,
    xs,
    ys,
    Filled,
    Populated,
    RasterizationError,
    Sweep,
};

verus! {

fn clamp(v: i64, low: i64, high: i64) -> (r: i64)
    ensures
        r == spec_clamp(v as int, low as int, high as int),
{
    if v < low {
        low
    } else if v > high {
        high
    } else {
        v
    }
}

/// The coordinate at which the cell with the given number ends, along one axis.
fn cell_end(origin: i32, index: i64, cell_size: i32) -> (r: i64)
    requires
        -1 <= index < 65535,
        0 < cell_size,
    ensures
        r == origin + (index + 1) * cell_size,
{
    assert(0 <= (index + 1) * cell_size <= 65535 * 0x8000_0000) by (nonlinear_arith)
        requires
            0 <= index + 1 <= 65535,
            0 < cell_size <= 0x8000_0000,
    ;
    origin as i64 + (index + 1) * cell_size as i64
}

/// The smallest and the largest `x` coordinate among the vertices of a polygon.
pub fn x_extent(poly: &Polygon) -> (r: (i32, i32))
    requires
        poly@.len() >= 1,
    ensures
        r.0 == lowest(xs(poly@)),
        r.1 == highest(xs(poly@)),
{
    let n = poly.len();
    let mut low = poly.get(0).x;
    let mut high = low;
    let mut i: usize = 1;
    while i < n
        invariant
            n == poly@.len(),
            1 <= i <= n,
            low == lowest(xs(poly@).take(i as int)),
            high == highest(xs(poly@).take(i as int)),
        decreases n - i,
    {
        let x = poly.get(i).x;
        proof {
            assert(xs(poly@).take(i + 1).drop_last() =~= xs(poly@).take(i as int));
            assert(xs(poly@).take(i + 1).last() == x);
        }
        if x < low {
            low = x;
        }
        if x > high {
            high = x;
        }
        i = i + 1;
    }
    proof {
        assert(xs(poly@).take(n as int) =~= xs(poly@));
    }
    (low, high)
}

/// The smallest and the largest `y` coordinate among the vertices of a polygon.
pub fn y_extent(poly: &Polygon) -> (r: (i32, i32))
    requires
        poly@.len() >= 1,
    ensures
        r.0 == lowest(ys(poly@)),
        r.1 == highest(ys(poly@)),
{
    let n = poly.len();
    let mut low = poly.get(0).y;
    let mut high = low;
    let mut i: usize = 1;
    while i < n
        invariant
            n == poly@.len(),
            1 <= i <= n,
            low == lowest(ys(poly@).take(i as int)),
            high == highest(ys(poly@).take(i as int)),
        decreases n - i,
    {
        let y = poly.get(i).y;
        proof {
            assert(ys(poly@).take(i + 1).drop_last() =~= ys(poly@).take(i as int));
            assert(ys(poly@).take(i + 1).last() == y);
        }
        if y < low {
            low = y;
        }
        if y > high {
            high = y;
        }
        i = i + 1;
    }
    proof {
        assert(ys(poly@).take(n as int) =~= ys(poly@));
    }
    (low, high)
}

impl Grid {
    /// The number of the cell, along one axis, that holds a coordinate.
    pub fn cell_index(&self, coord: i32, origin: i32) -> (r: i64)
        requires
            self.cell_size > 0,
        ensures
            r == self.spec_cell_index(coord as int, origin as int),
    {
        div_trunc(coord as i64 - origin as i64, self.cell_size as i64)
    }

    /// The span, in vertical cells, of what reaches from height `low_y` to height `high_y`.
    /// A span that comes back is valid unless its lower end is at the largest span height.
    pub fn span_heights(&self, low_y: i32, high_y: i32) -> (r: Option<(u16, u16)>)
        requires
            self.wf(),
        ensures
            r == self.spec_span_heights(low_y as int, high_y as int),
            r matches Some((min, max)) ==> min <= max <= MAX_SPAN_HEIGHT && (min < MAX_SPAN_HEIGHT
                ==> min < max),
    {
        let low: i64 = low_y as i64 - self.aabb.min.y as i64;
        let high: i64 = high_y as i64 - self.aabb.min.y as i64;
        let top: i64 = self.aabb.max.y as i64 - self.aabb.min.y as i64;
        if high < 0 || low > top {
            return None;
        }
        let low: i64 = if low < 0 {
            0
        } else {
            low
        };
        let high: i64 = if high > top {
            top
        } else {
            high
        };
        let limit: i64 = MAX_SPAN_HEIGHT as i64;
        let bottom: i64 = clamp(low / self.cell_height as i64, 0, limit);
        let ceiling: i64 = clamp(div_ceil(high, self.cell_height as i64), bottom + 1, limit);
        let ceiling: i64 = if ceiling > limit {
            limit
        } else {
            ceiling
        };
        Some((bottom as u16, ceiling as u16))
    }
}

impl Heightfield {
    /// Rasterizes the part of a triangle that lies within row `z`: sweeps it across the
    /// columns that it reaches and inserts one span for each cell that it covers.
    pub fn rasterize_row(&mut self, row: &Polygon, z: i64, area: AreaType, threshold: u32) -> (r:
        Result<(), RasterizationError>)
        requires
            old(self).wf(),
            z < old(self).grid.height,
        ensures
            final(self).wf(),
            final(self).grid == old(self).grid,
            spec_carried_out(
                old(self).grid,
                old(self)@,
                old(self).grid.spec_row_spans(row@, z as int, area, threshold),
                final(self)@,
                r,
            ),
    {
        let ghost grid = self.grid;
        let ghost start = self@;
        if row.len() < 3 || z < 0 {
            return Ok(());
        }
        let (min_x, max_x) = x_extent(row);
        let first = self.grid.cell_index(min_x, self.grid.aabb.min.x);
        let last = self.grid.cell_index(max_x, self.grid.aabb.min.x);
        let w: i64 = self.grid.width as i64;
        if last < 0 || first >= w {
            return Ok(());
        }
        let x0 = clamp(first, -1, w - 1);
        let x1 = clamp(last, 0, w - 1);
        let mut work: Polygon = *row;
        let mut x: i64 = x0;
        let ghost total = grid.spec_column_sweep(row@, x0 as int, x1 as int, z as int, area, threshold);
        let ghost mut done: Seq<SpanInsertion> = Seq::empty();
        while x <= x1
            invariant
                self.wf(),
                self.grid == grid,
                grid == old(self).grid,
                start == old(self)@,
                w == grid.width,
                0 <= z < grid.height,
                -1 <= x,
                x1 <= w - 1,
                total == grid.spec_row_spans(row@, z as int, area, threshold),
                total == spec_then(
                    Sweep { spans: done, failure: None },
                    grid.spec_column_sweep(work@, x as int, x1 as int, z as int, area, threshold),
                ),
                spec_insert_all(grid, start, done) == (Filled { columns: self@, failure: None }),
            decreases x1 - x + 1,
        {
            let plane: i64 = cell_end(self.grid.aabb.min.x, x, self.grid.cell_size);
            let ghost mid = self@;
            match divide_poly(&work, plane, DivisionAxis::X) {
                Err(e) => {
                    proof {
                        let here = Sweep { spans: Seq::empty(), failure: Some(e) };
                        lemma_sweep_step(
                            grid,
                            start,
                            done,
                            mid,
                            here,
                            mid,
                            Err(RasterizationError::PolygonDivisionError(e)),
                            spec_idle(),
                        );
                    }
                    return Err(RasterizationError::PolygonDivisionError(e));
                },
                Ok((cell, rest)) => {
                    let ghost here = Sweep {
                        spans: grid.spec_cell_spans(cell@, x as int, z as int, area, threshold),
                        failure: None,
                    };
                    let ghost later = grid.spec_column_sweep(
                        rest@,
                        x + 1,
                        x1 as int,
                        z as int,
                        area,
                        threshold,
                    );
                    let mut result: Result<(), RasterizationError> = Ok(());
                    if cell.len() >= 3 && x >= 0 {
                        let (low_y, high_y) = y_extent(&cell);
                        match self.grid.span_heights(low_y, high_y) {
                            Some((min, max)) => {
                                let insertion = SpanInsertion {
                                    x: x as u32,
                                    z: z as u32,
                                    span: Span { min, max, area },
                                    flag_merge_threshold: threshold,
                                };
                                proof {
                                    lemma_insert_all_single(grid, mid, insertion);
                                }
                                match self.add_span(insertion) {
                                    Ok(()) => {},
                                    Err(e) => {
                                        result = Err(RasterizationError::SpanInsertionError(e));
                                    },
                                }
                            },
                            None => {},
                        }
                    }
                    proof {
                        lemma_sweep_step(grid, start, done, mid, here, self@, result, later);
                        done = done + here.spans;
                    }
                    if result.is_err() {
                        return result;
                    }
                    work = rest;
                },
            }
            x = x + 1;
        }
        proof {
            lemma_sweep_end(grid, start, done, self@);
        }
        Ok(())
    }

    /// Rasterizes one triangle: sweeps it across the rows of the grid that its bounding box
    /// reaches, each row across its columns, and inserts one span for each cell that the
    /// triangle covers, tagged with `area_type`.
    ///
    /// A triangle whose bounding box does not meet the box of the grid leaves the heightfield
    /// as it is. The first division or insertion that fails ends the rasterization; the spans
    /// inserted before it stay. No division fails for a triangle that does not begin before
    /// the grid along `x`, and no insertion is refused in a grid that is fewer than
    /// [`MAX_SPAN_HEIGHT`] cells tall.
    pub fn rasterize_triangle(
        &mut self,
        triangle: [Vertex; 3],
        area_type: AreaType,
        flag_merge_threshold: u32,
    ) -> (r: Result<(), RasterizationError>)
        requires
            old(self).wf(),
        ensures
            final(self).wf(),
            final(self).grid == old(self).grid,
            spec_carried_out(
                old(self).grid,
                old(self)@,
                old(self).grid.spec_triangle_sweep(
                    triangle[0],
                    triangle[1],
                    triangle[2],
                    area_type,
                    flag_merge_threshold,
                ),
                final(self)@,
                r,
            ),
            !old(self).grid.aabb.spec_intersects(spec_aabb(triangle[0], triangle[1], triangle[2]))
                ==> r.is_ok() && final(self)@ == old(self)@,
            old(self).grid.spec_low() && spec_aabb(triangle[0], triangle[1], triangle[2]).min.x
                >= old(self).grid.aabb.min.x ==> r.is_ok(),
    {
        let ghost grid = self.grid;
        let ghost start = self@;
        proof {
            lemma_rasterization_outcome(
                grid,
                start,
                triangle[0],
                triangle[1],
                triangle[2],
                area_type,
                flag_merge_threshold,
            );
        }
        let bounds = aabb(&triangle);
        if !self.grid.aabb.intersects(&bounds) {
            return Ok(());
        }
        let h: i64 = self.grid.height as i64;
        let z0 = clamp(self.grid.cell_index(bounds.min.z, self.grid.aabb.min.z), -1, h - 1);
        let z1 = clamp(self.grid.cell_index(bounds.max.z, self.grid.aabb.min.z), 0, h - 1);
        let mut work = Polygon::from_triangle(&triangle);
        let mut z: i64 = z0;
        let ghost total = grid.spec_row_sweep(
            work@,
            z0 as int,
            z1 as int,
            area_type,
            flag_merge_threshold,
        );
        let ghost mut done: Seq<SpanInsertion> = Seq::empty();
        while z <= z1
            invariant
                self.wf(),
                self.grid == grid,
                grid == old(self).grid,
                start == old(self)@,
                h == grid.height,
                -1 <= z,
                z1 <= h - 1,
                grid.aabb.spec_intersects(spec_aabb(triangle[0], triangle[1], triangle[2])),
                total == grid.spec_triangle_sweep(
                    triangle[0],
                    triangle[1],
                    triangle[2],
                    area_type,
                    flag_merge_threshold,
                ),
                grid.spec_low() && spec_aabb(triangle[0], triangle[1], triangle[2]).min.x
                    >= grid.aabb.min.x ==> spec_outcome(
                    total,
                    spec_insert_all(grid, start, total.spans),
                ).is_ok(),
                total == spec_then(
                    Sweep { spans: done, failure: None },
                    grid.spec_row_sweep(
                        work@,
                        z as int,
                        z1 as int,
                        area_type,
                        flag_merge_threshold,
                    ),
                ),
                spec_insert_all(grid, start, done) == (Filled { columns: self@, failure: None }),
            decreases z1 - z + 1,
        {
            let plane: i64 = cell_end(self.grid.aabb.min.z, z, self.grid.cell_size);
            let ghost mid = self@;
            match divide_poly(&work, plane, DivisionAxis::Z) {
                Err(e) => {
                    proof {
                        let here = Sweep { spans: Seq::empty(), failure: Some(e) };
                        lemma_sweep_step(
                            grid,
                            start,
                            done,
                            mid,
                            here,
                            mid,
                            Err(RasterizationError::PolygonDivisionError(e)),
                            spec_idle(),
                        );
                    }
                    return Err(RasterizationError::PolygonDivisionError(e));
                },
                Ok((row, rest)) => {
                    let ghost here = grid.spec_row_spans(
                        row@,
                        z as int,
                        area_type,
                        flag_merge_threshold,
                    );
                    let ghost later = grid.spec_row_sweep(
                        rest@,
                        z + 1,
                        z1 as int,
                        area_type,
                        flag_merge_threshold,
                    );
                    let result = self.rasterize_row(&row, z, area_type, flag_merge_threshold);
                    proof {
                        lemma_sweep_step(grid, start, done, mid, here, self@, result, later);
                        done = done + here.spans;
                    }
                    if result.is_err() {
                        return result;
                    }
                    work = rest;
                },
            }
            z = z + 1;
        }
        proof {
            lemma_sweep_end(grid, start, done, self@);
        }
        Ok(())
    }

    /// Rasterizes the triangles of a mesh, in their order, each with its own area tag.
    ///
    /// The first triangle that fails ends the run, and its error is returned; what was
    /// inserted until then stays in the heightfield. No triangle fails where the mesh does not
    /// begin before the grid along `x` and the grid is fewer than [`MAX_SPAN_HEIGHT`] cells
    /// tall.
    pub fn populate_from_trimesh(&mut self, trimesh: TrimeshedCollider, flag_merge_threshold: u32)
        -> (r: Result<(), RasterizationError>)
        requires
            old(self).wf(),
            trimesh.wf(),
        ensures
            final(self).wf(),
            final(self).grid == old(self).grid,
            spec_populate(
                old(self).grid,
                old(self)@,
                trimesh,
                trimesh.indices@.len(),
                flag_merge_threshold,
            ) == (Populated { columns: final(self)@, result: r }),
            old(self).grid.spec_low() && (forall|i: int|
                0 <= i < trimesh.vertices@.len() ==> (#[trigger] trimesh.vertices@[i]).x >= old(
                    self,
                ).grid.aabb.min.x) ==> r.is_ok(),
    {
        let ghost grid = self.grid;
        let ghost start = self@;
        let ghost safe = grid.spec_low() && forall|i: int|
            0 <= i < trimesh.vertices@.len() ==> (#[trigger] trimesh.vertices@[i]).x
                >= grid.aabb.min.x;
        let n = trimesh.indices.len();
        let mut i: usize = 0;
        while i < n
            invariant
                self.wf(),
                trimesh.wf(),
                safe ==> grid.spec_low() && forall|i: int|
                    0 <= i < trimesh.vertices@.len() ==> (#[trigger] trimesh.vertices@[i]).x
                        >= grid.aabb.min.x,
                old(self).grid.spec_low() && (forall|i: int|
                    0 <= i < trimesh.vertices@.len() ==> (#[trigger] trimesh.vertices@[i]).x
                        >= old(self).grid.aabb.min.x) ==> safe,
                self.grid == grid,
                grid == old(self).grid,
                start == old(self)@,
                n == trimesh.indices@.len(),
                i <= n,
                spec_populate(grid, start, trimesh, i as nat, flag_merge_threshold) == (Populated {
                    columns: self@,
                    result: Ok(()),
                }),
            decreases n - i,
        {
            let triangle = trimesh.triangle(i);
            let area_type = trimesh.area_types[i];
            proof {
                if safe {
                    assert(trimesh.indices@[i as int][0] < trimesh.vertices@.len());
                    assert(trimesh.indices@[i as int][1] < trimesh.vertices@.len());
                    assert(trimesh.indices@[i as int][2] < trimesh.vertices@.len());
                    assert(triangle[0].x >= grid.aabb.min.x);
                    assert(triangle[1].x >= grid.aabb.min.x);
                    assert(triangle[2].x >= grid.aabb.min.x);
                }
            }
            let result = self.rasterize_triangle(triangle, area_type, flag_merge_threshold);
            if result.is_err() {
                proof {
                    lemma_populate_stops(
                        grid,
                        start,
                        trimesh,
                        (i + 1) as nat,
                        n as nat,
                        flag_merge_threshold,
                    );
                }
                return result;
            }
            i = i + 1;
        }
        Ok(())
    }
}

} // verus!
