use navmesh::geometry::Vertex;
use navmesh::polygon::{divide_poly, DivisionAxis, Polygon, PolygonDivisionError};

fn v(x: i32, y: i32, z: i32) -> Vertex {
    Vertex { x, y, z }
}

fn polygon(vertices: &[Vertex]) -> Polygon {
    let mut p = Polygon::new();
    for vertex in vertices {
        p.push(*vertex);
    }
    p
}

fn vertices(p: &Polygon) -> Vec<Vertex> {
    (0..p.len()).map(|i| p.get(i)).collect()
}

#[test]
fn new_polygon_is_empty() {
    assert_eq!(Polygon::new().len(), 0);
}

#[test]
fn from_triangle_keeps_the_order() {
    let p = Polygon::from_triangle(&[v(1, 2, 3), v(4, 5, 6), v(7, 8, 9)]);
    assert_eq!(vertices(&p), vec![v(1, 2, 3), v(4, 5, 6), v(7, 8, 9)]);
}

#[test]
fn coordinate_reads_the_axis() {
    assert_eq!(DivisionAxis::X.coordinate(&v(1, 2, 3)), 1);
    assert_eq!(DivisionAxis::Z.coordinate(&v(1, 2, 3)), 3);
}

#[test]
fn divide_triangle_across_x() {
    let a = v(0, 0, 0);
    let b = v(4, 8, 0);
    let c = v(0, 0, 4);
    let (lower, upper) = divide_poly(&polygon(&[a, b, c]), 2, DivisionAxis::X).unwrap();
    assert_eq!(vertices(&lower), vec![a, v(2, 4, 0), v(2, 4, 2), c]);
    assert_eq!(vertices(&upper), vec![v(2, 4, 0), b, v(2, 4, 2)]);
}

#[test]
fn divide_triangle_across_z() {
    let a = v(0, 0, 0);
    let b = v(0, 6, 6);
    let c = v(6, 0, 0);
    let (lower, upper) = divide_poly(&polygon(&[a, b, c]), 2, DivisionAxis::Z).unwrap();
    assert_eq!(vertices(&lower), vec![a, v(0, 2, 2), v(4, 2, 2), c]);
    assert_eq!(vertices(&upper), vec![v(0, 2, 2), b, v(4, 2, 2)]);
}

#[test]
fn crossing_is_rounded_to_the_nearest_unit() {
    let a = v(0, 0, 0);
    let b = v(2, 1, 0);
    let c = v(2, -1, 0);
    let (lower, upper) = divide_poly(&polygon(&[a, b, c]), 1, DivisionAxis::X).unwrap();
    // Half way from `a` to `b` the height is 1/2, half way from `c` to `a` it is -1/2.
    assert_eq!(vertices(&lower), vec![v(1, 0, 0), a, v(1, 1, 0)]);
    assert_eq!(vertices(&upper), vec![v(1, 0, 0), v(1, 1, 0), b, c]);
    let b = v(3, 2, 0);
    let c = v(3, -2, 0);
    let (lower, _) = divide_poly(&polygon(&[a, b, c]), 1, DivisionAxis::X).unwrap();
    // A third of the way the heights are 2/3 and -2/3.
    assert_eq!(vertices(&lower), vec![v(1, -1, 0), a, v(1, 1, 0)]);
    let (lower, _) = divide_poly(&polygon(&[a, b, c]), 2, DivisionAxis::X).unwrap();
    // Two thirds of the way they are 4/3 and -4/3.
    assert_eq!(vertices(&lower), vec![v(2, -1, 0), a, v(2, 1, 0)]);
}

#[test]
fn crossing_does_not_depend_on_direction() {
    let low = v(0, 0, 0);
    let high = v(3, 1, 7);
    let far = v(0, 0, 9);
    let (forward, _) = divide_poly(&polygon(&[low, high, far]), 1, DivisionAxis::X).unwrap();
    let (backward, _) = divide_poly(&polygon(&[high, low, far]), 1, DivisionAxis::X).unwrap();
    let crossing = v(1, 0, 2);
    assert!(vertices(&forward).contains(&crossing));
    assert!(vertices(&backward).contains(&crossing));
}

#[test]
fn vertex_on_the_plane_goes_to_both_sides() {
    let a = v(0, 0, 0);
    let b = v(2, 0, 0);
    let c = v(0, 0, 2);
    let (lower, upper) = divide_poly(&polygon(&[a, b, c]), 2, DivisionAxis::X).unwrap();
    assert_eq!(vertices(&lower), vec![a, b, c]);
    assert_eq!(vertices(&upper), vec![b]);
}

#[test]
fn vertex_on_the_plane_after_a_crossing_is_not_repeated() {
    // The edge from `a` to `b` ends on the plane, coming from above it.
    let a = v(4, 0, 0);
    let b = v(2, 5, 0);
    let c = v(0, 0, 0);
    let (lower, upper) = divide_poly(&polygon(&[a, b, c]), 2, DivisionAxis::X).unwrap();
    assert_eq!(vertices(&lower), vec![v(2, 0, 0), b, c]);
    assert_eq!(vertices(&upper), vec![v(2, 0, 0), a, b]);
}

#[test]
fn polygon_below_the_plane_stays_whole() {
    let tri = [v(0, 0, 0), v(1, 0, 0), v(0, 0, 1)];
    let (lower, upper) = divide_poly(&polygon(&tri), 5, DivisionAxis::Z).unwrap();
    assert_eq!(vertices(&lower), tri.to_vec());
    assert_eq!(upper.len(), 0);
}

#[test]
fn polygon_above_the_plane_stays_whole() {
    let tri = [v(0, 0, 0), v(1, 0, 0), v(0, 0, 1)];
    let (lower, upper) = divide_poly(&polygon(&tri), -1, DivisionAxis::Z).unwrap();
    assert_eq!(lower.len(), 0);
    assert_eq!(vertices(&upper), tri.to_vec());
}

#[test]
fn single_vertex_is_divided() {
    let (lower, upper) = divide_poly(&polygon(&[v(3, 0, 0)]), 3, DivisionAxis::X).unwrap();
    assert_eq!(vertices(&lower), vec![v(3, 0, 0)]);
    assert_eq!(vertices(&upper), vec![v(3, 0, 0)]);
}

#[test]
fn empty_polygon_is_refused() {
    let r = divide_poly(&Polygon::new(), 0, DivisionAxis::X);
    assert_eq!(r.err(), Some(PolygonDivisionError::NoVertices));
}

#[test]
fn thirteen_vertices_are_refused() {
    let many: Vec<Vertex> = (0..13).map(|i| v(i, 0, 0)).collect();
    let r = divide_poly(&polygon(&many), 0, DivisionAxis::X);
    assert_eq!(r.err(), Some(PolygonDivisionError::TooManyVertices(13)));
}

#[test]
fn twelve_vertices_are_divided() {
    // A zigzag that passes through the plane at every edge fills both sides.
    let zigzag: Vec<Vertex> = (0..12).map(|i| v(if i % 2 == 0 { 0 } else { 2 }, 0, i)).collect();
    let (lower, upper) = divide_poly(&polygon(&zigzag), 1, DivisionAxis::X).unwrap();
    assert_eq!(lower.len(), 18);
    assert_eq!(upper.len(), 18);
}

#[test]
fn extreme_coordinates_do_not_overflow() {
    let a = v(i32::MIN, i32::MIN, 0);
    let b = v(i32::MAX, i32::MAX, 0);
    let c = v(i32::MIN, i32::MAX, 5);
    let (lower, upper) = divide_poly(&polygon(&[a, b, c]), 0, DivisionAxis::X).unwrap();
    assert_eq!(vertices(&lower), vec![a, v(0, 0, 0), v(0, i32::MAX, 2), c]);
    assert_eq!(vertices(&upper), vec![v(0, 0, 0), b, v(0, i32::MAX, 2)]);
    let far = divide_poly(&polygon(&[a, b, c]), i64::MAX, DivisionAxis::X).unwrap();
    assert_eq!(vertices(&far.0), vec![a, b, c]);
    assert_eq!(far.1.len(), 0);
}

#[test]
fn division_conserves_the_vertices() {
    let poly = [v(0, 0, 0), v(6, 2, 1), v(9, 0, 5), v(4, 7, 9), v(4, 1, 2), v(-3, 3, 4)];
    for offset in -4..11 {
        let (lower, upper) = divide_poly(&polygon(&poly), offset, DivisionAxis::X).unwrap();
        let lower = vertices(&lower);
        let upper = vertices(&upper);
        let offset = offset as i32;
        let below: Vec<Vertex> = poly.iter().copied().filter(|p| p.x < offset).collect();
        let above: Vec<Vertex> = poly.iter().copied().filter(|p| p.x > offset).collect();
        let lower_off: Vec<Vertex> = lower.iter().copied().filter(|p| p.x != offset).collect();
        let upper_off: Vec<Vertex> = upper.iter().copied().filter(|p| p.x != offset).collect();
        let lower_on: Vec<Vertex> = lower.iter().copied().filter(|p| p.x == offset).collect();
        let upper_on: Vec<Vertex> = upper.iter().copied().filter(|p| p.x == offset).collect();
        assert_eq!(lower_off, below);
        assert_eq!(upper_off, above);
        assert_eq!(lower_on, upper_on);
        for p in lower.iter().chain(upper.iter()) {
            assert!(-3 <= p.x && p.x <= 9 && 0 <= p.y && p.y <= 7 && 0 <= p.z && p.z <= 9);
        }
    }
}
