//! Voxelization of triangle meshes into a heightfield: the first stage of building a
//! navigation mesh.
//!
//! All coordinates are whole numbers of fixed-point units; the vertical axis is `y`. A
//! [`Heightfield`] lays a grid of square cells over the `x`-`z` plane and keeps, for each
//! cell, the vertical spans that are solid. [`Heightfield::rasterize_triangle`] sweeps a
//! triangle across the rows of the grid and each row across its columns, dividing what is
//! left of the triangle where a row or a column ends, and inserts one span for each cell
//! that the triangle covers.
//!
//! Where an edge passes through a cell boundary, the meeting point is rounded to the nearest
//! whole unit. Choose the unit well below the cell size.
//!
//! The modules whose names end in `_laws`, and `polygon_shape`, `sweep_coverage` and
//! `sweep_divisions`, hold what is proved of every division and of every rasterization.

pub mod arith;
pub mod geometry;
pub mod heightfield;
pub mod polygon;
pub mod polygon_laws;
pub mod polygon_shape;
pub mod rasterize;
pub mod region;
pub mod span;
pub mod sweep;
pub mod sweep_coverage;
pub mod sweep_divisions;
pub mod sweep_laws;
pub mod trimesh;

pub use heightfield::{Grid, Heightfield, SpanInsertion, SpanInsertionError};
pub use polygon::PolygonDivisionError;
pub use region::RegionId;
pub use sweep::RasterizationError;
pub use trimesh::TrimeshedCollider;
