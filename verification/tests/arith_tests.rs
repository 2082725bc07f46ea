use navmesh::arith::{div_ceil, div_trunc};

#[test]
fn div_trunc_rounds_towards_zero() {
    assert_eq!(div_trunc(7, 2), 3);
    assert_eq!(div_trunc(-7, 2), -3);
    assert_eq!(div_trunc(-1, 10), 0);
    assert_eq!(div_trunc(-10, 10), -1);
    assert_eq!(div_trunc(0, 3), 0);
    assert_eq!(div_trunc(i64::MIN, 1), i64::MIN);
    assert_eq!(div_trunc(i64::MAX, 1), i64::MAX);
}

#[test]
fn div_ceil_rounds_up() {
    assert_eq!(div_ceil(0, 4), 0);
    assert_eq!(div_ceil(1, 4), 1);
    assert_eq!(div_ceil(4, 4), 1);
    assert_eq!(div_ceil(5, 4), 2);
    assert_eq!(div_ceil(i64::MAX, i64::MAX), 1);
    assert_eq!(div_ceil(i64::MAX, 1), i64::MAX);
}
