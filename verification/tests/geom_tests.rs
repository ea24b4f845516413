use geoindex::geom::{abs_area, bbox_of_ring, ring_area2_exec, ring_contains_point, GeoPoint};

const D: i64 = 1_000_000_000;

fn p(lat_deg: i64, lon_deg: i64) -> GeoPoint {
    GeoPoint { lat: lat_deg * D, lon: lon_deg * D }
}

fn square() -> Vec<GeoPoint> {
    vec![p(40, -3), p(40, 7), p(50, 7), p(50, -3), p(40, -3)]
}

#[test]
fn bbox_of_square_is_tight() {
    let ring = square();
    let b = bbox_of_ring(&ring);
    assert_eq!(b.min_lat, 40 * D);
    assert_eq!(b.max_lat, 50 * D);
    assert_eq!(b.min_lon, -3 * D);
    assert_eq!(b.max_lon, 7 * D);
}

#[test]
fn point_inside_square() {
    let ring = square();
    assert!(ring_contains_point(&ring, p(45, 2)));
}

#[test]
fn point_outside_square() {
    let ring = square();
    assert!(!ring_contains_point(&ring, p(0, 0)));
    assert!(!ring_contains_point(&ring, p(45, 9)));
    assert!(!ring_contains_point(&ring, p(45, -5)));
    assert!(!ring_contains_point(&ring, p(55, 2)));
    assert!(!ring_contains_point(&ring, p(39, 2)));
}

#[test]
fn square_signed_area_exact() {
    let ring = square();
    // shoelace of the 10 x 10 degree square, twice the area, counterclockwise
    assert_eq!(ring_area2_exec(&ring), 200 * (D as i128) * (D as i128));
}

#[test]
fn clockwise_square_has_negative_area() {
    let ring = vec![p(40, -3), p(50, -3), p(50, 7), p(40, 7), p(40, -3)];
    assert_eq!(ring_area2_exec(&ring), -200 * (D as i128) * (D as i128));
}

#[test]
fn abs_area_folds_sign() {
    assert_eq!(abs_area(-5), 5);
    assert_eq!(abs_area(5), 5);
    assert_eq!(abs_area(0), 0);
}

#[test]
fn concave_ring_containment() {
    // an L-shaped ring: (0,0)-(0,4)-(2,4)-(2,2)-(4,2)-(4,0)-(0,0)
    let ring = vec![p(0, 0), p(0, 4), p(2, 4), p(2, 2), p(4, 2), p(4, 0), p(0, 0)];
    assert!(ring_contains_point(&ring, p(1, 3)));
    assert!(ring_contains_point(&ring, p(3, 1)));
    assert!(!ring_contains_point(&ring, p(3, 3)));
}
