use geoindex::geom::GeoPoint;
use geoindex::index::{Boundary, GeoIndex};

const D: i64 = 1_000_000_000;

fn p(lat_deg: i64, lon_deg: i64) -> GeoPoint {
    GeoPoint { lat: lat_deg * D, lon: lon_deg * D }
}

fn big_box() -> Vec<GeoPoint> {
    vec![p(40, -3), p(40, 7), p(50, 7), p(50, -3), p(40, -3)]
}

fn small_box() -> Vec<GeoPoint> {
    vec![p(44, 1), p(44, 3), p(46, 3), p(46, 1), p(44, 1)]
}

#[test]
fn find_single_boundary() {
    // one boundary covering a 10 x 10 degree box; a point inside resolves
    let mut ix = GeoIndex::new();
    ix.add_boundary(Boundary::new("Francia".to_string(), big_box(), Vec::new()));
    assert_eq!(ix.find(45 * D, 2 * D), Some("Francia".to_string()));
}

#[test]
fn find_no_boundary_is_none() {
    let mut ix = GeoIndex::new();
    ix.add_boundary(Boundary::new("Francia".to_string(), big_box(), Vec::new()));
    assert_eq!(ix.find(0, 0), None);
}

#[test]
fn find_empty_index_is_none() {
    let ix = GeoIndex::new();
    assert_eq!(ix.find(45 * D, 2 * D), None);
}

#[test]
fn find_is_deterministic() {
    let mut ix = GeoIndex::new();
    ix.add_boundary(Boundary::new("Francia".to_string(), big_box(), Vec::new()));
    ix.add_boundary(Boundary::new("Ville".to_string(), small_box(), Vec::new()));
    let a = ix.find(45 * D, 2 * D);
    let b = ix.find(45 * D, 2 * D);
    assert_eq!(a, b);
}

#[test]
fn find_prefers_smaller_area() {
    // nested boundaries: the smaller (more specific) one wins
    let mut ix = GeoIndex::new();
    ix.add_boundary(Boundary::new("Francia".to_string(), big_box(), Vec::new()));
    ix.add_boundary(Boundary::new("Ville".to_string(), small_box(), Vec::new()));
    assert_eq!(ix.find(45 * D, 2 * D), Some("Ville".to_string()));
    // outside the small box, the big one answers
    assert_eq!(ix.find(48 * D, 6 * D), Some("Francia".to_string()));
}

#[test]
fn find_prefers_smaller_area_order_independent() {
    let mut ix = GeoIndex::new();
    ix.add_boundary(Boundary::new("Ville".to_string(), small_box(), Vec::new()));
    ix.add_boundary(Boundary::new("Francia".to_string(), big_box(), Vec::new()));
    assert_eq!(ix.find(45 * D, 2 * D), Some("Ville".to_string()));
}

#[test]
fn equal_area_tie_first_inserted_wins() {
    let mut ix = GeoIndex::new();
    ix.add_boundary(Boundary::new("First".to_string(), big_box(), Vec::new()));
    ix.add_boundary(Boundary::new("Second".to_string(), big_box(), Vec::new()));
    assert_eq!(ix.find(45 * D, 2 * D), Some("First".to_string()));
}

#[test]
fn hole_subtracts_containment() {
    // a point inside the outer ring but inside a hole is not contained
    let b = Boundary::new("Francia".to_string(), big_box(), vec![small_box()]);
    assert!(!b.contains_point(p(45, 2)));
    assert!(b.contains_point(p(48, 6)));
}

#[test]
fn find_point_in_hole_is_none() {
    let mut ix = GeoIndex::new();
    ix.add_boundary(Boundary::new("Francia".to_string(), big_box(), vec![small_box()]));
    assert_eq!(ix.find(45 * D, 2 * D), None);
    assert_eq!(ix.find(48 * D, 6 * D), Some("Francia".to_string()));
}

#[test]
fn find_point_in_hole_falls_to_enclosing() {
    // the hole of the inner boundary exposes the enclosing one
    let mut ix = GeoIndex::new();
    ix.add_boundary(Boundary::new("Outer".to_string(), big_box(), Vec::new()));
    ix.add_boundary(Boundary::new("Inner".to_string(), small_box(), vec![vec![
        p(44, 1),
        p(45, 1),
        p(45, 2),
        p(44, 2),
        p(44, 1),
    ]]));
    // inside Inner's hole: only Outer contains the point
    let q_lat = 44 * D + D / 2;
    let q_lon = D + D / 2;
    assert_eq!(ix.find(q_lat, q_lon), Some("Outer".to_string()));
    // inside Inner but outside its hole
    assert_eq!(ix.find(45 * D + D / 2, 2 * D + D / 2), Some("Inner".to_string()));
}

#[test]
fn candidates_cover_bbox_hits() {
    let mut ix = GeoIndex::new();
    ix.add_boundary(Boundary::new("Francia".to_string(), big_box(), Vec::new()));
    ix.add_boundary(Boundary::new("Ville".to_string(), small_box(), Vec::new()));
    let c = ix.candidates(p(45, 2));
    assert_eq!(c, vec![0, 1]);
    let c2 = ix.candidates(p(48, 6));
    assert_eq!(c2, vec![0]);
    let c3 = ix.candidates(p(0, 0));
    assert!(c3.is_empty());
}

#[test]
fn out_of_range_query_is_none() {
    let mut ix = GeoIndex::new();
    ix.add_boundary(Boundary::new("Francia".to_string(), big_box(), Vec::new()));
    assert_eq!(ix.find(200 * D, 2 * D), None);
    assert_eq!(ix.find(45 * D, 400 * D), None);
}
