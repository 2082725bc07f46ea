use navmesh::geometry::Vertex;
use navmesh::span::AreaType;
use navmesh::trimesh::{
    edges_bounded, is_walkable_slope, normal, Normal, SlopeThreshold, TrimeshedCollider,
    MAX_EDGE_EXTENT,
};

fn v(x: i32, y: i32, z: i32) -> Vertex {
    Vertex { x, y, z }
}

fn cos_squared(num: u32, den: u32) -> SlopeThreshold {
    SlopeThreshold { cos_squared_num: num, cos_squared_den: den }
}

fn single(a: Vertex, b: Vertex, c: Vertex, area: AreaType) -> TrimeshedCollider {
    TrimeshedCollider { vertices: vec![a, b, c], indices: vec![[0, 1, 2]], area_types: vec![area] }
}

fn marked(a: Vertex, b: Vertex, c: Vertex, threshold: SlopeThreshold) -> AreaType {
    let mut mesh = single(a, b, c, AreaType::NotWalkable);
    assert!(mesh.is_valid() && mesh.all_edges_bounded());
    mesh.mark_walkable_triangles(threshold);
    mesh.area_types[0]
}

#[test]
fn mesh_validity() {
    let mut mesh = single(v(0, 0, 0), v(1, 0, 0), v(0, 0, 1), AreaType::Walkable);
    assert!(mesh.is_valid());
    mesh.indices.push([0, 1, 3]);
    assert!(!mesh.is_valid());
    mesh.indices[1] = [2, 1, 0];
    assert!(!mesh.is_valid());
    mesh.area_types.push(AreaType::NotWalkable);
    assert!(mesh.is_valid());
    assert_eq!(mesh.triangle(1), [v(0, 0, 1), v(1, 0, 0), v(0, 0, 0)]);
}

#[test]
fn normal_is_the_cross_product() {
    assert_eq!(normal(&v(0, 0, 0), &v(0, 0, 1), &v(1, 0, 0)), Normal { x: 0, y: 1, z: 0 });
    assert_eq!(normal(&v(0, 0, 0), &v(1, 0, 0), &v(0, 0, 1)), Normal { x: 0, y: -1, z: 0 });
    assert_eq!(normal(&v(1, 2, 3), &v(3, 5, 7), &v(0, 9, 4)), Normal { x: -25, y: -6, z: 17 });
    assert_eq!(normal(&v(5, 5, 5), &v(5, 5, 5), &v(5, 5, 5)), Normal { x: 0, y: 0, z: 0 });
}

#[test]
fn normal_of_the_largest_triangle() {
    let e = MAX_EDGE_EXTENT as i32;
    let n = normal(&v(0, 0, 0), &v(e, -e, e), &v(-e, e, e));
    let square = MAX_EDGE_EXTENT * MAX_EDGE_EXTENT;
    assert_eq!(n, Normal { x: -2 * square, y: -2 * square, z: 0 });
    assert!(!is_walkable_slope(&n, &cos_squared(1, 2)));
    let up = Normal { x: 2 * square, y: 2 * square, z: 2 * square };
    // Its squared cosine is a third, and `u32::MAX` is a multiple of three.
    assert!(is_walkable_slope(&up, &cos_squared(u32::MAX / 3 - 1, u32::MAX)));
    assert!(!is_walkable_slope(&up, &cos_squared(u32::MAX / 3, u32::MAX)));
}

#[test]
fn edge_extent_is_limited() {
    let e = MAX_EDGE_EXTENT as i32;
    assert!(edges_bounded(&v(0, 0, 0), &v(e, -e, e), &v(-e, e, e)));
    assert!(!edges_bounded(&v(0, 0, 0), &v(e + 1, 0, 0), &v(0, 0, 1)));
    assert!(!edges_bounded(&v(0, 0, 0), &v(1, 0, 0), &v(0, -e - 1, 1)));
    assert!(!edges_bounded(&v(i32::MIN, 0, 0), &v(i32::MAX, 0, 0), &v(0, 0, 1)));
    let mut mesh = single(v(0, 0, 0), v(e, 0, 0), v(0, 0, e), AreaType::Walkable);
    assert!(mesh.all_edges_bounded());
    mesh.vertices[1].x = e + 1;
    assert!(!mesh.all_edges_bounded());
}

#[test]
fn level_triangle_is_walkable_below_ninety_degrees() {
    let (a, b, c) = (v(0, 7, 0), v(0, 7, 5), v(5, 7, 0));
    assert_eq!(normal(&a, &b, &c), Normal { x: 0, y: 25, z: 0 });
    // 90, 60, 45, 30 and just above 0 degrees.
    for threshold in [cos_squared(0, 1), cos_squared(1, 4), cos_squared(1, 2), cos_squared(3, 4), cos_squared(u32::MAX - 1, u32::MAX)] {
        assert_eq!(marked(a, b, c, threshold), AreaType::Walkable);
    }
    // At 0 degrees nothing is steep enough.
    assert_eq!(marked(a, b, c, cos_squared(1, 1)), AreaType::NotWalkable);
}

#[test]
fn level_triangle_that_faces_down_is_not_walkable() {
    let (a, b, c) = (v(0, 7, 0), v(5, 7, 0), v(0, 7, 5));
    assert_eq!(marked(a, b, c, cos_squared(0, 1)), AreaType::NotWalkable);
    assert_eq!(marked(a, b, c, cos_squared(1, 2)), AreaType::NotWalkable);
}

#[test]
fn upright_triangle_is_never_walkable() {
    // Its normal is (1, 0, 0) scaled.
    let (a, b, c) = (v(3, 0, 0), v(3, 5, 0), v(3, 0, 5));
    assert_eq!(normal(&a, &b, &c), Normal { x: 25, y: 0, z: 0 });
    for threshold in [cos_squared(0, 1), cos_squared(1, 4), cos_squared(1, 2), cos_squared(3, 4), cos_squared(1, 1)] {
        assert_eq!(marked(a, b, c, threshold), AreaType::NotWalkable);
    }
}

#[test]
fn degenerate_triangle_is_never_walkable() {
    let p = v(1, 2, 3);
    assert_eq!(marked(p, p, p, cos_squared(0, 1)), AreaType::NotWalkable);
    assert_eq!(marked(v(0, 0, 0), v(1, 1, 1), v(2, 2, 2), cos_squared(0, 1)), AreaType::NotWalkable);
}

#[test]
fn slope_at_the_threshold_is_not_walkable() {
    // The normal (1, 1, 0) is at 45 degrees.
    let (a, b, c) = (v(0, 0, 0), v(0, 0, 1), v(1, -1, 0));
    assert_eq!(normal(&a, &b, &c), Normal { x: 1, y: 1, z: 0 });
    assert_eq!(marked(a, b, c, cos_squared(1, 2)), AreaType::NotWalkable);
    assert_eq!(marked(a, b, c, cos_squared(499, 1000)), AreaType::Walkable);
    assert_eq!(marked(a, b, c, cos_squared(501, 1000)), AreaType::NotWalkable);
    // The normal (1, 2, 0) is a little less steep: its squared cosine is 4/5.
    assert!(is_walkable_slope(&Normal { x: 1, y: 2, z: 0 }, &cos_squared(1, 2)));
    assert!(is_walkable_slope(&Normal { x: 1, y: 2, z: 0 }, &cos_squared(799, 1000)));
    assert!(!is_walkable_slope(&Normal { x: 1, y: 2, z: 0 }, &cos_squared(4, 5)));
}

#[test]
fn marking_never_takes_a_tag_back() {
    let mut mesh = TrimeshedCollider {
        vertices: vec![v(3, 0, 0), v(3, 5, 0), v(3, 0, 5), v(0, 7, 0), v(0, 7, 5), v(5, 7, 0)],
        indices: vec![[0, 1, 2], [3, 4, 5], [0, 1, 2], [5, 4, 3]],
        area_types: vec![
            AreaType::Walkable,
            AreaType::NotWalkable,
            AreaType::NotWalkable,
            AreaType::NotWalkable,
        ],
    };
    mesh.mark_walkable_triangles(cos_squared(1, 2));
    assert_eq!(
        mesh.area_types,
        vec![
            AreaType::Walkable,
            AreaType::Walkable,
            AreaType::NotWalkable,
            AreaType::NotWalkable,
        ]
    );
    assert_eq!(mesh.vertices.len(), 6);
    assert_eq!(mesh.indices, vec![[0, 1, 2], [3, 4, 5], [0, 1, 2], [5, 4, 3]]);
}
