use navmesh::geometry::{aabb, Aabb, Vertex};
use navmesh::heightfield::{Grid, Heightfield, SpanInsertion, SpanInsertionError};
use navmesh::span::{AreaType, Span};

fn v(x: i32, y: i32, z: i32) -> Vertex {
    Vertex { x, y, z }
}

fn bounds(max_x: i32, max_y: i32, max_z: i32) -> Aabb {
    Aabb { min: v(0, 0, 0), max: v(max_x, max_y, max_z) }
}

fn insertion(x: u32, z: u32, min: u16, max: u16) -> SpanInsertion {
    SpanInsertion {
        x,
        z,
        span: Span { min, max, area: AreaType::Walkable },
        flag_merge_threshold: 1,
    }
}

#[test]
fn triangle_bounding_box() {
    let b = aabb(&[v(3, -2, 7), v(-1, 5, 7), v(2, 0, -9)]);
    assert_eq!(b, Aabb { min: v(-1, -2, -9), max: v(3, 5, 7) });
}

#[test]
fn boxes_that_touch_intersect() {
    let a = bounds(2, 2, 2);
    assert!(a.intersects(&Aabb { min: v(2, 2, 2), max: v(3, 3, 3) }));
    assert!(a.intersects(&Aabb { min: v(-5, -5, -5), max: v(9, 9, 9) }));
    assert!(a.intersects(&Aabb { min: v(1, 1, 1), max: v(1, 1, 1) }));
    assert!(!a.intersects(&Aabb { min: v(3, 0, 0), max: v(4, 2, 2) }));
    assert!(!a.intersects(&Aabb { min: v(0, -4, 0), max: v(2, -1, 2) }));
    assert!(!a.intersects(&Aabb { min: v(0, 0, 3), max: v(2, 2, 3) }));
}

#[test]
fn grid_size_is_rounded_to_the_nearest_cell() {
    let g = Grid::new(bounds(10, 5, 7), 2, 1).unwrap();
    assert_eq!((g.width, g.height), (5, 4));
    let g = Grid::new(bounds(10, 5, 7), 3, 1).unwrap();
    assert_eq!((g.width, g.height), (3, 2));
    let g = Grid::new(bounds(10, 5, 7), 4, 1).unwrap();
    assert_eq!((g.width, g.height), (3, 2));
    let g = Grid::new(bounds(2, 1, 2), 1, 1).unwrap();
    assert_eq!((g.width, g.height), (2, 2));
    assert_eq!(g.cell_size, 1);
    assert_eq!(g.cell_height, 1);
    assert_eq!(g.aabb, bounds(2, 1, 2));
}

#[test]
fn degenerate_grids_are_refused() {
    assert_eq!(Grid::new(bounds(10, 5, 7), 0, 1), None);
    assert_eq!(Grid::new(bounds(10, 5, 7), -2, 1), None);
    assert_eq!(Grid::new(bounds(10, 5, 7), 2, 0), None);
    assert_eq!(Grid::new(Aabb { min: v(1, 0, 0), max: v(0, 5, 7) }, 1, 1), None);
    assert_eq!(Grid::new(Aabb { min: v(0, 6, 0), max: v(10, 5, 7) }, 1, 1), None);
    // No cell along x.
    assert_eq!(Grid::new(bounds(0, 5, 7), 2, 1), None);
    assert_eq!(Grid::new(bounds(10, 5, 7), 21, 1), None);
    // Too many cells along z.
    assert_eq!(Grid::new(bounds(10, 5, 70000), 1, 1), None);
    assert!(Grid::new(bounds(10, 5, 65535), 1, 1).is_some());
    assert!(Heightfield::new(bounds(0, 5, 7), 2, 1).is_none());
}

#[test]
fn widest_box_has_a_grid() {
    let wide = Aabb { min: v(i32::MIN, 0, i32::MIN), max: v(i32::MAX, 1, i32::MAX) };
    let g = Grid::new(wide, 65537, 1).unwrap();
    assert_eq!((g.width, g.height), (65535, 65535));
}

#[test]
fn new_heightfield_is_empty() {
    let hf = Heightfield::new(bounds(10, 5, 7), 2, 1).unwrap();
    assert_eq!(hf.columns.len(), 20);
    for z in 0..4 {
        for x in 0..5 {
            assert!(hf.column(x, z).unwrap().is_empty());
        }
    }
    assert!(hf.column(5, 0).is_none());
    assert!(hf.column(0, 4).is_none());
}

#[test]
fn add_span_fills_the_column_of_its_cell() {
    let mut hf = Heightfield::new(bounds(10, 5, 7), 2, 1).unwrap();
    assert_eq!(hf.add_span(insertion(3, 2, 1, 4)), Ok(()));
    assert_eq!(hf.columns[3 + 2 * 5], vec![Span { min: 1, max: 4, area: AreaType::Walkable }]);
    assert_eq!(hf.column(3, 2).unwrap().len(), 1);
    let filled = hf.columns.iter().filter(|c| !c.is_empty()).count();
    assert_eq!(filled, 1);
    assert_eq!(hf.add_span(insertion(3, 2, 4, 6)), Ok(()));
    assert_eq!(hf.column(3, 2).unwrap(), &vec![Span { min: 1, max: 6, area: AreaType::Walkable }]);
}

#[test]
fn add_span_refuses_cells_outside_the_grid() {
    let mut hf = Heightfield::new(bounds(10, 5, 7), 2, 1).unwrap();
    assert_eq!(
        hf.add_span(insertion(5, 0, 1, 4)),
        Err(SpanInsertionError::ColumnOutOfBounds { x: 5, z: 0 })
    );
    assert_eq!(
        hf.add_span(insertion(0, 4, 1, 4)),
        Err(SpanInsertionError::ColumnOutOfBounds { x: 0, z: 4 })
    );
    assert!(hf.columns.iter().all(|c| c.is_empty()));
}

#[test]
fn add_span_refuses_invalid_spans() {
    let mut hf = Heightfield::new(bounds(10, 5, 7), 2, 1).unwrap();
    assert_eq!(
        hf.add_span(insertion(0, 0, 4, 4)),
        Err(SpanInsertionError::InvalidSpan { min: 4, max: 4 })
    );
    assert_eq!(
        hf.add_span(insertion(0, 0, 0, 8192)),
        Err(SpanInsertionError::InvalidSpan { min: 0, max: 8192 })
    );
    assert!(hf.columns.iter().all(|c| c.is_empty()));
}

#[test]
fn heightfield_validity() {
    let mut hf = Heightfield::new(bounds(10, 5, 7), 2, 1).unwrap();
    assert!(hf.grid.is_valid());
    assert!(hf.is_valid());
    assert_eq!(hf.add_span(insertion(1, 1, 2, 4)), Ok(()));
    assert_eq!(hf.add_span(insertion(1, 1, 6, 8)), Ok(()));
    assert!(hf.is_valid());
    // Spans out of order.
    hf.columns[0] = vec![
        Span { min: 5, max: 6, area: AreaType::Walkable },
        Span { min: 1, max: 2, area: AreaType::Walkable },
    ];
    assert!(!hf.is_valid());
    // Spans that touch.
    hf.columns[0] = vec![
        Span { min: 1, max: 2, area: AreaType::Walkable },
        Span { min: 2, max: 3, area: AreaType::Walkable },
    ];
    assert!(!hf.is_valid());
    hf.columns[0] = vec![Span { min: 3, max: 3, area: AreaType::Walkable }];
    assert!(!hf.is_valid());
    hf.columns[0] = vec![];
    assert!(hf.is_valid());
    hf.columns.pop();
    assert!(!hf.is_valid());
    hf.columns.push(vec![]);
    hf.grid.cell_size = 0;
    assert!(!hf.grid.is_valid());
    assert!(!hf.is_valid());
}
