//! The voxel grid: a rectangle of columns, each an ordered list of spans.

use vstd::prelude::*;
use crate::geometry::Aabb;
use crate::span::{column_is_valid, column_wf, insert_span, lemma_insert_wf, spec_insert, Span};

verus! {

/// The geometry of a heightfield: where it lies, how large its cells are, and how many of
/// them there are along `x` (width) and along `z` (height).
#[derive(Clone, Copy, Debug, PartialEq, Eq, Structural)]
pub struct Grid {
    pub aabb: Aabb,
    pub cell_size: i32,
    pub cell_height: i32,
    pub width: u16,
    pub height: u16,
}

/// The number of cells of size `cell_size` along an extent: the quotient, rounded to the
/// nearest whole number, halves up.
pub open spec fn spec_cell_count(extent: int, cell_size: int) -> int {
    (2 * extent + cell_size) / (2 * cell_size)
}

fn cell_count(low: i32, high: i32, cell_size: i32) -> (n: i64)
    requires
        low <= high,
        0 < cell_size,
    ensures
        n == spec_cell_count(high - low, cell_size as int),
{
    let extent: i64 = high as i64 - low as i64;
    (2 * extent + cell_size as i64) / (2 * cell_size as i64)
}

impl Grid {
    /// The box is well-formed, the cells have a positive size, and there is at least one
    /// cell along either axis.
    pub open spec fn wf(&self) -> bool {
        &&& self.aabb.wf()
        &&& self.cell_size > 0
        &&& self.cell_height > 0
        &&& self.width >= 1
        &&& self.height >= 1
    }

    /// Tests whether the box is well-formed, the cells have a positive size, and there is at
    /// least one cell along either axis.
    pub fn is_valid(&self) -> (r: bool)
        ensures
            r == self.wf(),
    {
        self.aabb.min.x <= self.aabb.max.x && self.aabb.min.y <= self.aabb.max.y
            && self.aabb.min.z <= self.aabb.max.z && self.cell_size > 0 && self.cell_height > 0
            && self.width >= 1 && self.height >= 1
    }

    /// The cell `(x, z)` belongs to the grid.
    pub open spec fn spec_in_bounds(&self, x: int, z: int) -> bool {
        0 <= x < self.width && 0 <= z < self.height
    }

    /// The position of the column of cell `(x, z)` in the list of columns.
    pub open spec fn spec_column_index(&self, x: int, z: int) -> int {
        x + z * self.width
    }

    /// The grid over a box, with its numbers of cells derived from the extent of the box;
    /// nothing where the box or a cell size is degenerate, or where a number of cells is
    /// zero or above 65535.
    pub open spec fn spec_new(aabb: Aabb, cell_size: i32, cell_height: i32) -> Option<Grid> {
        let width = spec_cell_count(aabb.max.x - aabb.min.x, cell_size as int);
        let height = spec_cell_count(aabb.max.z - aabb.min.z, cell_size as int);
        if aabb.wf() && cell_size > 0 && cell_height > 0 && 1 <= width <= u16::MAX && 1 <= height
            <= u16::MAX {
            Some(Grid { aabb, cell_size, cell_height, width: width as u16, height: height as u16 })
        } else {
            None
        }
    }

    /// Lays a grid over a box.
    pub fn new(aabb: Aabb, cell_size: i32, cell_height: i32) -> (r: Option<Grid>)
        ensures
            r == Grid::spec_new(aabb, cell_size, cell_height),
            r matches Some(g) ==> g.wf(),
    {
        if !(aabb.min.x <= aabb.max.x && aabb.min.y <= aabb.max.y && aabb.min.z <= aabb.max.z) {
            return None;
        }
        if cell_size <= 0 || cell_height <= 0 {
            return None;
        }
        let width = cell_count(aabb.min.x, aabb.max.x, cell_size);
        let height = cell_count(aabb.min.z, aabb.max.z, cell_size);
        if width < 1 || width > 65535 || height < 1 || height > 65535 {
            return None;
        }
        Some(Grid { aabb, cell_size, cell_height, width: width as u16, height: height as u16 })
    }
}

/// A request to insert a span into the column of cell `(x, z)`.
#[derive(Clone, Copy, Debug, PartialEq, Eq, Structural)]
pub struct SpanInsertion {
    pub x: u32,
    pub z: u32,
    pub span: Span,
    /// The largest difference between the tops of two merged spans at which their area tags
    /// are merged too.
    pub flag_merge_threshold: u32,
}

/// Why a span was not inserted.
#[derive(Clone, Copy, Debug, PartialEq, Eq, Structural)]
pub enum SpanInsertionError {
    /// The cell does not belong to the grid.
    ColumnOutOfBounds { x: u32, z: u32 },
    /// The interval is empty or ends above the largest span height.
    InvalidSpan { min: u16, max: u16 },
}

/// A grid together with the spans of each of its columns. The column of cell `(x, z)` is at
/// position `x + z * width`.
#[derive(Debug)]
pub struct Heightfield {
    pub grid: Grid,
    pub columns: Vec<Vec<Span>>,
}

impl View for Heightfield {
    type V = Seq<Seq<Span>>;

    open spec fn view(&self) -> Seq<Seq<Span>> {
        Seq::new(self.columns@.len(), |i: int| self.columns@[i]@)
    }
}

/// Every column is well-formed.
pub open spec fn columns_wf(columns: Seq<Seq<Span>>) -> bool {
    forall|i: int| 0 <= i < columns.len() ==> column_wf(#[trigger] columns[i])
}

/// What a heightfield with the given grid and columns turns into when a span is inserted, or
/// the reason why the insertion is refused.
pub open spec fn spec_add_span(grid: Grid, columns: Seq<Seq<Span>>, insertion: SpanInsertion)
    -> Result<Seq<Seq<Span>>, SpanInsertionError> {
    if !grid.spec_in_bounds(insertion.x as int, insertion.z as int) {
        Err(SpanInsertionError::ColumnOutOfBounds { x: insertion.x, z: insertion.z })
    } else if !insertion.span.wf() {
        Err(SpanInsertionError::InvalidSpan { min: insertion.span.min, max: insertion.span.max })
    } else {
        let index = grid.spec_column_index(insertion.x as int, insertion.z as int);
        Ok(
            columns.update(
                index,
                spec_insert(columns[index], insertion.span, insertion.flag_merge_threshold),
            ),
        )
    }
}

/// The position of an in-bounds cell's column lies within the list of columns.
pub proof fn lemma_column_index_in_range(grid: Grid, x: int, z: int)
    requires
        grid.spec_in_bounds(x, z),
    ensures
        0 <= grid.spec_column_index(x, z) < grid.width * grid.height,
        grid.width * grid.height <= 65535 * 65535,
{
    let w = grid.width as int;
    let h = grid.height as int;
    assert(0 <= z * w && x + z * w < w * h && w * h <= 65535 * 65535) by (nonlinear_arith)
        requires
            0 <= x < w,
            0 <= z < h,
            w <= 65535,
            h <= 65535,
    ;
}

impl Heightfield {
    /// The grid is well-formed, there is one column for each of its cells, and every column
    /// is well-formed.
    pub open spec fn wf(&self) -> bool {
        &&& self.grid.wf()
        &&& self@.len() == self.grid.width * self.grid.height
        &&& columns_wf(self@)
    }

    /// The spans of the column of cell `(x, z)`.
    pub open spec fn spec_column(&self, x: int, z: int) -> Seq<Span> {
        self@[self.grid.spec_column_index(x, z)]
    }

    /// Creates a heightfield without spans over a box. There is none where there is no grid
    /// over that box.
    pub fn new(aabb: Aabb, cell_size: i32, cell_height: i32) -> (r: Option<Heightfield>)
        ensures
            match r {
                Some(hf) => {
                    &&& Grid::spec_new(aabb, cell_size, cell_height) == Some(hf.grid)
                    &&& hf.wf()
                    &&& forall|i: int| 0 <= i < hf@.len() ==> (#[trigger] hf@[i]).len() == 0
                },
                None => Grid::spec_new(aabb, cell_size, cell_height).is_none(),
            },
    {
        let grid = match Grid::new(aabb, cell_size, cell_height) {
            Some(grid) => grid,
            None => {
                return None;
            },
        };
        proof {
            lemma_column_index_in_range(grid, 0, 0);
        }
        let total: usize = grid.width as usize * grid.height as usize;
        let mut columns: Vec<Vec<Span>> = Vec::new();
        let mut i: usize = 0;
        while i < total
            invariant
                i <= total,
                columns@.len() == i,
                forall|k: int| 0 <= k < i ==> (#[trigger] columns@[k])@.len() == 0,
            decreases total - i,
        {
            columns.push(Vec::new());
            i = i + 1;
        }
        let hf = Heightfield { grid, columns };
        assert forall|k: int| 0 <= k < hf@.len() implies column_wf(#[trigger] hf@[k]) by {
            assert(hf@[k] == hf.columns@[k]@);
        }
        Some(hf)
    }

    /// Tests whether the grid is well-formed, there is one column for each of its cells, and
    /// every column is well-formed.
    pub fn is_valid(&self) -> (r: bool)
        ensures
            r == self.wf(),
    {
        if !self.grid.is_valid() {
            return false;
        }
        proof {
            lemma_column_index_in_range(self.grid, 0, 0);
        }
        let n = self.columns.len();
        if n != self.grid.width as usize * self.grid.height as usize {
            return false;
        }
        let mut i: usize = 0;
        while i < n
            invariant
                n == self.columns@.len(),
                i <= n,
                forall|k: int| 0 <= k < i ==> column_wf(#[trigger] self@[k]),
            decreases n - i,
        {
            if !column_is_valid(&self.columns[i]) {
                assert(!column_wf(self@[i as int]));
                return false;
            }
            assert(self@[i as int] == self.columns@[i as int]@);
            i = i + 1;
        }
        true
    }

    /// The column of cell `(x, z)`, if the cell belongs to the grid.
    pub fn column(&self, x: u32, z: u32) -> (r: Option<&Vec<Span>>)
        requires
            self.wf(),
        ensures
            match r {
                Some(col) => self.grid.spec_in_bounds(x as int, z as int) && col@
                    == self.spec_column(x as int, z as int),
                None => !self.grid.spec_in_bounds(x as int, z as int),
            },
    {
        if x >= self.grid.width as u32 || z >= self.grid.height as u32 {
            return None;
        }
        proof {
            lemma_column_index_in_range(self.grid, x as int, z as int);
        }
        let index = x as usize + z as usize * self.grid.width as usize;
        Some(&self.columns[index])
    }

    /// Inserts a span into the column of a cell, merging it with the spans of that column
    /// that it overlaps or touches. A request for a cell outside the grid, or for an invalid
    /// span, is refused and leaves the heightfield as it was.
    pub fn add_span(&mut self, insertion: SpanInsertion) -> (r: Result<(), SpanInsertionError>)
        requires
            old(self).wf(),
        ensures
            final(self).wf(),
            final(self).grid == old(self).grid,
            match r {
                Ok(()) => spec_add_span(old(self).grid, old(self)@, insertion) == Ok::<
                    Seq<Seq<Span>>,
                    SpanInsertionError,
                >(final(self)@),
                Err(e) => spec_add_span(old(self).grid, old(self)@, insertion) == Err::<
                    Seq<Seq<Span>>,
                    SpanInsertionError,
                >(e) && final(self)@ == old(self)@,
            },
    {
        if insertion.x >= self.grid.width as u32 || insertion.z >= self.grid.height as u32 {
            return Err(SpanInsertionError::ColumnOutOfBounds { x: insertion.x, z: insertion.z });
        }
        if !insertion.span.is_valid() {
            return Err(
                SpanInsertionError::InvalidSpan {
                    min: insertion.span.min,
                    max: insertion.span.max,
                },
            );
        }
        proof {
            lemma_column_index_in_range(self.grid, insertion.x as int, insertion.z as int);
        }
        let index = insertion.x as usize + insertion.z as usize * self.grid.width as usize;
        let merged = insert_span(
            &self.columns[index],
            insertion.span,
            insertion.flag_merge_threshold,
        );
        proof {
            assert(self@[index as int] == self.columns@[index as int]@);
            lemma_insert_wf(
                self@[index as int],
                insertion.span,
                insertion.flag_merge_threshold,
                -1,
            );
        }
        self.columns[index] = merged;
        proof {
            assert(self@ =~= old(self)@.update(index as int, merged@));
            assert forall|k: int| 0 <= k < self@.len() implies column_wf(#[trigger] self@[k]) by {
                if k != index {
                    assert(self@[k] == old(self)@[k]);
                }
            }
        }
        Ok(())
    }
}

} // verus!
