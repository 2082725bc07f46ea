use navmesh::geometry::{Aabb, Vertex};
use navmesh::heightfield::{Heightfield, SpanInsertionError};
use navmesh::polygon::{Polygon, PolygonDivisionError};
use navmesh::rasterize::{x_extent, y_extent};
use navmesh::span::{AreaType, Span, MAX_SPAN_HEIGHT};
use navmesh::sweep::RasterizationError;
use navmesh::trimesh::TrimeshedCollider;

fn v(x: i32, y: i32, z: i32) -> Vertex {
    Vertex { x, y, z }
}

fn field(max_x: i32, max_y: i32, max_z: i32, cell_size: i32, cell_height: i32) -> Heightfield {
    Heightfield::new(
        Aabb { min: v(0, 0, 0), max: v(max_x, max_y, max_z) },
        cell_size,
        cell_height,
    )
    .expect("a grid over a proper box")
}

fn walkable(min: u16, max: u16) -> Span {
    Span { min, max, area: AreaType::Walkable }
}

fn filled_cells(hf: &Heightfield) -> Vec<(u32, u32)> {
    let mut cells = Vec::new();
    for z in 0..hf.grid.height as u32 {
        for x in 0..hf.grid.width as u32 {
            if !hf.column(x, z).unwrap().is_empty() {
                cells.push((x, z));
            }
        }
    }
    cells
}

/// The area that a triangle in the plane shares with a rectangle, by clipping in floating
/// point.
fn shared_area(tri: &[Vertex; 3], x0: f64, z0: f64, x1: f64, z1: f64) -> f64 {
    let mut poly: Vec<(f64, f64)> = tri.iter().map(|p| (p.x as f64, p.z as f64)).collect();
    // Each entry: (axis, bound, keep what is at or above the bound).
    for (axis, bound, keep_above) in [(0, x0, true), (0, x1, false), (1, z0, true), (1, z1, false)] {
        let mut out = Vec::new();
        for i in 0..poly.len() {
            let a = poly[i];
            let b = poly[(i + poly.len() - 1) % poly.len()];
            let da = if axis == 0 { a.0 - bound } else { a.1 - bound };
            let db = if axis == 0 { b.0 - bound } else { b.1 - bound };
            let (da, db) = if keep_above { (da, db) } else { (-da, -db) };
            if (da >= 0.0) != (db >= 0.0) {
                let t = db / (db - da);
                out.push((b.0 + (a.0 - b.0) * t, b.1 + (a.1 - b.1) * t));
            }
            if da >= 0.0 {
                out.push(a);
            }
        }
        poly = out;
        if poly.is_empty() {
            return 0.0;
        }
    }
    let mut twice = 0.0;
    for i in 0..poly.len() {
        let a = poly[i];
        let b = poly[(i + 1) % poly.len()];
        twice += a.0 * b.1 - b.0 * a.1;
    }
    twice.abs() / 2.0
}

/// Rasterizes a triangle and holds the cells that got a span against the area that each
/// cell shares with the triangle. Every crossing is rounded to a whole unit, so a cell may
/// differ from the exact answer where the triangle reaches less than about a unit into it.
fn assert_covers_what_it_overlaps(tri: [Vertex; 3], cells: u16, cell_size: i32) {
    let extent = cells as i32 * cell_size;
    let mut hf = field(extent, 10, extent, cell_size, 1);
    assert_eq!(hf.grid.width, cells);
    assert_eq!(hf.rasterize_triangle(tri, AreaType::Walkable, 1), Ok(()));
    let size = cell_size as f64;
    for z in 0..cells as u32 {
        for x in 0..cells as u32 {
            let (x0, z0) = (x as f64 * size, z as f64 * size);
            let within = shared_area(&tri, x0, z0, x0 + size, z0 + size);
            let around = shared_area(&tri, x0 - 1.5, z0 - 1.5, x0 + size + 1.5, z0 + size + 1.5);
            let has_span = !hf.column(x, z).unwrap().is_empty();
            if within > 2.0 {
                assert!(has_span, "cell ({x}, {z}) shares {within} and has no span");
            }
            if has_span {
                assert!(around > 1e-9, "cell ({x}, {z}) has a span and is not near the triangle");
            }
        }
    }
}

#[test]
fn horizontal_triangle_fills_one_cell() {
    let mut hf = field(2, 1, 2, 1, 1);
    assert_eq!(hf.grid.width, 2);
    assert_eq!(hf.grid.height, 2);
    let r = hf.rasterize_triangle([v(0, 0, 0), v(1, 0, 0), v(0, 0, 1)], AreaType::Walkable, 1);
    assert_eq!(r, Ok(()));
    assert_eq!(hf.column(0, 0).unwrap(), &vec![walkable(0, 1)]);
    assert!(hf.column(1, 0).unwrap().is_empty());
    assert!(hf.column(0, 1).unwrap().is_empty());
    assert!(hf.column(1, 1).unwrap().is_empty());
}

#[test]
fn extents_of_a_polygon() {
    let mut p = Polygon::new();
    for q in [v(3, -4, 0), v(-2, 9, 1), v(7, 0, 2), v(1, 1, 3)] {
        p.push(q);
    }
    assert_eq!(x_extent(&p), (-2, 7));
    assert_eq!(y_extent(&p), (-4, 9));
    let mut one = Polygon::new();
    one.push(v(5, 6, 7));
    assert_eq!(x_extent(&one), (5, 5));
    assert_eq!(y_extent(&one), (6, 6));
}

#[test]
fn cell_index_rounds_towards_zero() {
    let hf = field(100, 10, 100, 10, 1);
    assert_eq!(hf.grid.cell_index(25, 0), 2);
    assert_eq!(hf.grid.cell_index(30, 0), 3);
    assert_eq!(hf.grid.cell_index(-5, 0), 0);
    assert_eq!(hf.grid.cell_index(-10, 0), -1);
    assert_eq!(hf.grid.cell_index(-15, 0), -1);
    assert_eq!(hf.grid.cell_index(5, 20), -1);
    assert_eq!(hf.grid.cell_index(i32::MAX, i32::MIN), 429496729);
}

#[test]
fn span_heights_are_floored_and_ceiled() {
    let hf = field(10, 50, 10, 1, 4);
    assert_eq!(hf.grid.span_heights(0, 0), Some((0, 1)));
    assert_eq!(hf.grid.span_heights(3, 4), Some((0, 1)));
    assert_eq!(hf.grid.span_heights(3, 5), Some((0, 2)));
    assert_eq!(hf.grid.span_heights(4, 4), Some((1, 2)));
    assert_eq!(hf.grid.span_heights(7, 21), Some((1, 6)));
    // Clamped into the grid.
    assert_eq!(hf.grid.span_heights(-9, 5), Some((0, 2)));
    assert_eq!(hf.grid.span_heights(45, 90), Some((11, 13)));
    assert_eq!(hf.grid.span_heights(-9, 90), Some((0, 13)));
    assert_eq!(hf.grid.span_heights(50, 50), Some((12, 13)));
    assert_eq!(hf.grid.span_heights(-9, 0), Some((0, 1)));
    // Wholly outside.
    assert_eq!(hf.grid.span_heights(-9, -1), None);
    assert_eq!(hf.grid.span_heights(51, 60), None);
}

#[test]
fn span_heights_stop_at_the_largest_height() {
    let hf = field(10, 20000, 10, 1, 1);
    assert_eq!(hf.grid.span_heights(8000, 8190), Some((8000, 8190)));
    assert_eq!(hf.grid.span_heights(8000, 9000), Some((8000, MAX_SPAN_HEIGHT)));
    assert_eq!(hf.grid.span_heights(8190, 8190), Some((8190, MAX_SPAN_HEIGHT)));
    assert_eq!(hf.grid.span_heights(9000, 9500), Some((MAX_SPAN_HEIGHT, MAX_SPAN_HEIGHT)));
}

#[test]
fn triangle_within_one_cell_inserts_one_span() {
    let mut hf = field(100, 50, 100, 10, 4);
    let tri = [v(31, 9, 72), v(39, 22, 70), v(30, 13, 79)];
    assert_eq!(hf.rasterize_triangle(tri, AreaType::NotWalkable, 1), Ok(()));
    assert_eq!(filled_cells(&hf), vec![(3, 7)]);
    // 9 / 4 rounded down, 22 / 4 rounded up.
    assert_eq!(
        hf.column(3, 7).unwrap(),
        &vec![Span { min: 2, max: 6, area: AreaType::NotWalkable }]
    );
}

#[test]
fn triangle_apart_from_the_grid_changes_nothing() {
    let mut hf = field(100, 50, 100, 10, 4);
    for tri in [
        [v(101, 0, 0), v(120, 0, 0), v(101, 0, 50)],
        [v(0, 51, 0), v(50, 60, 0), v(0, 51, 50)],
        [v(0, -9, 0), v(50, -1, 0), v(0, -1, 50)],
        [v(0, 0, -50), v(50, 0, -1), v(0, 0, -1)],
        [v(-50, 0, 0), v(-1, 0, 0), v(-1, 0, 50)],
    ] {
        assert_eq!(hf.rasterize_triangle(tri, AreaType::Walkable, 1), Ok(()));
        assert!(filled_cells(&hf).is_empty());
    }
}

#[test]
fn spans_stay_within_bounds() {
    let mut hf = field(64, 20000, 64, 8, 3);
    let tris = [
        [v(0, 0, 0), v(64, 300, 0), v(0, 9000, 64)],
        [v(-20, 19000, -30), v(90, 5, 10), v(10, 24000, 80)],
        [v(5, 7, 60), v(60, 8, 5), v(61, 20000, 61)],
    ];
    for tri in tris {
        assert_eq!(hf.rasterize_triangle(tri, AreaType::Walkable, 1), Ok(()));
    }
    assert!(!filled_cells(&hf).is_empty());
    for column in &hf.columns {
        for span in column {
            assert!(span.min < span.max && span.max <= MAX_SPAN_HEIGHT);
        }
        for pair in column.windows(2) {
            assert!(pair[0].max < pair[1].min);
        }
    }
}

#[test]
fn span_at_the_largest_height_is_refused() {
    let mut hf = field(10, 20000, 10, 1, 1);
    let r = hf.rasterize_triangle([v(1, 9000, 1), v(2, 9000, 1), v(1, 9000, 2)], AreaType::Walkable, 1);
    assert_eq!(
        r,
        Err(RasterizationError::SpanInsertionError(SpanInsertionError::InvalidSpan {
            min: MAX_SPAN_HEIGHT,
            max: MAX_SPAN_HEIGHT,
        }))
    );
    assert!(filled_cells(&hf).is_empty());
}

#[test]
fn right_triangle_covers_the_cells_under_its_diagonal() {
    let mut hf = field(4, 1, 4, 1, 1);
    let r = hf.rasterize_triangle([v(0, 0, 0), v(4, 0, 0), v(0, 0, 4)], AreaType::Walkable, 1);
    assert_eq!(r, Ok(()));
    let expected: Vec<(u32, u32)> =
        (0..4).flat_map(|z| (0..4).map(move |x| (x, z))).filter(|(x, z)| x + z <= 3).collect();
    assert_eq!(filled_cells(&hf), expected);
    for (x, z) in expected {
        assert_eq!(hf.column(x, z).unwrap(), &vec![walkable(0, 1)]);
    }
}

#[test]
fn axis_aligned_triangle_covers_what_it_overlaps() {
    assert_covers_what_it_overlaps([v(8, 0, 8), v(40, 0, 8), v(8, 0, 56)], 8, 8);
    assert_covers_what_it_overlaps([v(0, 0, 0), v(64, 0, 0), v(64, 0, 64)], 8, 8);
    assert_covers_what_it_overlaps([v(100, 0, 100), v(900, 0, 100), v(100, 0, 700)], 10, 100);
}

#[test]
fn diagonal_triangle_covers_what_it_overlaps() {
    assert_covers_what_it_overlaps([v(4, 0, 12), v(60, 0, 28), v(20, 0, 60)], 8, 8);
    assert_covers_what_it_overlaps([v(36, 0, 4), v(4, 0, 36), v(60, 0, 60)], 8, 8);
    assert_covers_what_it_overlaps([v(-300, 0, 450), v(1200, 0, -80), v(731, 0, 1333)], 10, 100);
}

#[test]
fn sliver_triangle_covers_what_it_overlaps() {
    assert_covers_what_it_overlaps([v(4, 0, 4), v(60, 0, 12), v(60, 0, 4)], 8, 8);
    assert_covers_what_it_overlaps([v(12, 0, 4), v(20, 0, 60), v(12, 0, 60)], 8, 8);
    assert_covers_what_it_overlaps([v(3, 0, 3), v(997, 0, 499), v(997, 0, 503)], 10, 100);
}

#[test]
fn triangle_larger_than_the_grid_covers_every_cell() {
    let mut hf = field(40, 10, 40, 10, 1);
    let tri = [v(-200, 3, -200), v(400, 3, -200), v(-200, 3, 400)];
    assert_eq!(hf.rasterize_triangle(tri, AreaType::Walkable, 1), Ok(()));
    assert_eq!(filled_cells(&hf).len(), 16);
    for column in &hf.columns {
        assert_eq!(column, &vec![walkable(3, 4)]);
    }
}

#[test]
fn what_lies_a_cell_before_the_grid_is_cut_away() {
    let mut hf = field(40, 100, 40, 10, 1);
    // The height rises with z: 0 at z = -20, 20 at z = 0, 25 at z = 5.
    let tri = [v(0, 0, -20), v(8, 0, -20), v(0, 25, 5)];
    assert_eq!(hf.rasterize_triangle(tri, AreaType::Walkable, 1), Ok(()));
    assert_eq!(filled_cells(&hf), vec![(0, 0)]);
    assert_eq!(hf.column(0, 0).unwrap(), &vec![walkable(20, 25)]);
}

#[test]
fn what_lies_less_than_a_cell_before_the_grid_counts_for_the_first_row() {
    let mut hf = field(40, 100, 40, 10, 1);
    let tri = [v(0, 0, -5), v(8, 0, -5), v(0, 25, 5)];
    assert_eq!(hf.rasterize_triangle(tri, AreaType::Walkable, 1), Ok(()));
    assert_eq!(filled_cells(&hf), vec![(0, 0)]);
    assert_eq!(hf.column(0, 0).unwrap(), &vec![walkable(0, 25)]);
}

#[test]
fn cells_above_the_grid_are_skipped() {
    let mut hf = field(40, 5, 10, 10, 1);
    // The height is the x coordinate.
    let tri = [v(0, 0, 1), v(40, 40, 1), v(40, 40, 9)];
    assert_eq!(hf.rasterize_triangle(tri, AreaType::Walkable, 1), Ok(()));
    assert_eq!(filled_cells(&hf), vec![(0, 0)]);
    assert_eq!(hf.column(0, 0).unwrap(), &vec![walkable(0, 5)]);
}

#[test]
fn second_triangle_merges_into_the_first() {
    let mut hf = field(10, 50, 10, 10, 1);
    let low = [v(1, 2, 1), v(8, 4, 1), v(1, 2, 8)];
    let high = [v(1, 4, 1), v(8, 9, 1), v(1, 4, 8)];
    let apart = [v(1, 20, 1), v(8, 20, 1), v(1, 20, 8)];
    assert_eq!(hf.rasterize_triangle(low, AreaType::NotWalkable, 1), Ok(()));
    assert_eq!(hf.rasterize_triangle(apart, AreaType::NotWalkable, 1), Ok(()));
    assert_eq!(hf.rasterize_triangle(high, AreaType::Walkable, 1), Ok(()));
    assert_eq!(
        hf.column(0, 0).unwrap(),
        &vec![walkable(2, 9), Span { min: 20, max: 21, area: AreaType::NotWalkable }]
    );
}

#[test]
fn populate_rasterizes_every_triangle_with_its_area() {
    let mut hf = field(40, 10, 40, 10, 1);
    let mesh = TrimeshedCollider {
        vertices: vec![v(1, 0, 1), v(9, 0, 1), v(1, 0, 9), v(31, 5, 31), v(39, 5, 31), v(31, 6, 39)],
        indices: vec![[0, 1, 2], [3, 4, 5]],
        area_types: vec![AreaType::Walkable, AreaType::NotWalkable],
    };
    assert!(mesh.is_valid());
    assert_eq!(hf.populate_from_trimesh(mesh, 1), Ok(()));
    assert_eq!(filled_cells(&hf), vec![(0, 0), (3, 3)]);
    assert_eq!(hf.column(0, 0).unwrap(), &vec![walkable(0, 1)]);
    assert_eq!(
        hf.column(3, 3).unwrap(),
        &vec![Span { min: 5, max: 6, area: AreaType::NotWalkable }]
    );
}

#[test]
fn populate_of_an_empty_mesh_changes_nothing() {
    let mut hf = field(40, 10, 40, 10, 1);
    let mesh = TrimeshedCollider { vertices: vec![], indices: vec![], area_types: vec![] };
    assert_eq!(hf.populate_from_trimesh(mesh, 1), Ok(()));
    assert!(filled_cells(&hf).is_empty());
}

#[test]
fn populate_stops_at_the_first_failure() {
    let mut hf = field(40, 20000, 40, 10, 1);
    let mesh = TrimeshedCollider {
        vertices: vec![
            v(1, 0, 1),
            v(9, 0, 1),
            v(1, 0, 9),
            v(11, 9000, 1),
            v(19, 9000, 1),
            v(11, 9000, 9),
            v(31, 5, 31),
            v(39, 5, 31),
            v(31, 6, 39),
        ],
        indices: vec![[0, 1, 2], [3, 4, 5], [6, 7, 8]],
        area_types: vec![AreaType::Walkable, AreaType::Walkable, AreaType::Walkable],
    };
    let r = hf.populate_from_trimesh(mesh, 1);
    assert_eq!(
        r,
        Err(RasterizationError::SpanInsertionError(SpanInsertionError::InvalidSpan {
            min: MAX_SPAN_HEIGHT,
            max: MAX_SPAN_HEIGHT,
        }))
    );
    // The first triangle stays, the third was never begun.
    assert_eq!(filled_cells(&hf), vec![(0, 0)]);
}

#[test]
fn slice_just_before_the_first_column_fails_the_division() {
    let mut hf = field(40, 10, 100, 10, 1);
    // Within the first row the triangle reaches from fifteen to four units before the grid:
    // the sweep begins a column before the grid, and nothing is left for the first column.
    let tri = [v(-15, 0, 5), v(-5, 0, 5), v(20, 0, 95)];
    let r = hf.rasterize_triangle(tri, AreaType::Walkable, 1);
    assert_eq!(r, Err(RasterizationError::PolygonDivisionError(PolygonDivisionError::NoVertices)));
    assert!(filled_cells(&hf).is_empty());
}

/// A small generator of numbers that look random.
fn scramble(state: &mut u64) -> i32 {
    *state = state.wrapping_mul(6364136223846793005).wrapping_add(1442695040888963407);
    (*state >> 33) as i32
}

#[test]
fn triangles_that_do_not_begin_before_the_grid_are_rasterized() {
    let mut state = 7u64;
    for _ in 0..300 {
        let mut hf = field(640, 2000, 640, 20, 3);
        let mut corner = || {
            let x = scramble(&mut state).rem_euclid(900);
            let y = scramble(&mut state).rem_euclid(3000) - 500;
            let z = scramble(&mut state).rem_euclid(1100) - 250;
            v(x, y, z)
        };
        let tri = [corner(), corner(), corner()];
        assert_eq!(hf.rasterize_triangle(tri, AreaType::Walkable, 1), Ok(()), "{tri:?}");
        let min_x = tri.iter().map(|p| p.x).min().unwrap() / 20;
        let max_x = tri.iter().map(|p| p.x).max().unwrap() / 20;
        let min_z = tri.iter().map(|p| p.z).min().unwrap() / 20;
        let max_z = tri.iter().map(|p| p.z).max().unwrap() / 20;
        for p in tri {
            let inside_cell = p.x % 20 != 0 && p.z % 20 != 0;
            let inside_grid = p.x < 640 && 0 <= p.z && p.z < 640 && 0 <= p.y && p.y <= 2000;
            if inside_cell && inside_grid {
                let column = hf.column((p.x / 20) as u32, (p.z / 20) as u32).unwrap();
                assert_eq!(column.len(), 1, "{tri:?} leaves the cell of {p:?} empty");
                assert!(3 * column[0].min as i32 <= p.y && p.y <= 3 * column[0].max as i32);
            }
        }
        for (x, z) in filled_cells(&hf) {
            assert!(min_x <= x as i32 && x as i32 <= max_x, "{tri:?} fills column {x}");
            assert!(min_z <= z as i32 && z as i32 <= max_z, "{tri:?} fills row {z}");
            let column = hf.column(x, z).unwrap();
            assert_eq!(column.len(), 1);
            assert!(column[0].min < column[0].max && column[0].max <= 667);
        }
    }
}

#[test]
fn triangles_anywhere_fail_only_where_nothing_is_left() {
    let mut state = 11u64;
    let mut failures = 0;
    for _ in 0..2000 {
        let mut hf = field(200, 100, 200, 20, 3);
        let mut corner = || {
            let x = scramble(&mut state).rem_euclid(400) - 100;
            let y = scramble(&mut state).rem_euclid(100);
            let z = scramble(&mut state).rem_euclid(400) - 100;
            v(x, y, z)
        };
        let tri = [corner(), corner(), corner()];
        match hf.rasterize_triangle(tri, AreaType::Walkable, 1) {
            Ok(()) => {}
            Err(e) => {
                assert_eq!(
                    e,
                    RasterizationError::PolygonDivisionError(PolygonDivisionError::NoVertices)
                );
                assert!(tri.iter().any(|p| p.x < 0));
                failures += 1;
            }
        }
    }
    assert!(failures > 0);
}
