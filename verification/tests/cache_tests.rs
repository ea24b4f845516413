use geoindex::cache::{decode_index, encode_index, CacheError};
use geoindex::geom::GeoPoint;
use geoindex::index::{Boundary, GeoIndex};

const D: i64 = 1_000_000_000;

fn p(lat_deg: i64, lon_deg: i64) -> GeoPoint {
    GeoPoint { lat: lat_deg * D, lon: lon_deg * D }
}

fn sample_index() -> GeoIndex {
    let big = vec![p(40, -3), p(40, 7), p(50, 7), p(50, -3), p(40, -3)];
    let small = vec![p(44, 1), p(44, 3), p(46, 3), p(46, 1), p(44, 1)];
    let mut ix = GeoIndex::new();
    ix.add_boundary(Boundary::new("Francia".to_string(), big.clone(), vec![small.clone()]));
    ix.add_boundary(Boundary::new("Ville".to_string(), small, Vec::new()));
    ix
}

#[test]
fn round_trip_preserves_content() {
    let ix = sample_index();
    let bytes = encode_index(&ix);
    let back = decode_index(&bytes).expect("decode must succeed");
    assert_eq!(back.boundaries.len(), ix.boundaries.len());
    for (a, b) in ix.boundaries.iter().zip(back.boundaries.iter()) {
        assert_eq!(a.reference, b.reference);
        assert_eq!(a.outer, b.outer);
        assert_eq!(a.holes, b.holes);
        assert_eq!(a.bbox, b.bbox);
        assert_eq!(a.area2, b.area2);
    }
}

#[test]
fn round_trip_answers_queries_identically() {
    let ix = sample_index();
    let bytes = encode_index(&ix);
    let back = decode_index(&bytes).expect("decode must succeed");
    assert_eq!(back.find(45 * D, 2 * D), ix.find(45 * D, 2 * D));
    assert_eq!(back.find(48 * D, 6 * D), Some("Francia".to_string()));
    assert_eq!(back.find(0, 0), None);
}

#[test]
fn round_trip_empty_index() {
    let ix = GeoIndex::new();
    let bytes = encode_index(&ix);
    let back = decode_index(&bytes).expect("decode must succeed");
    assert_eq!(back.boundaries.len(), 0);
}

#[test]
fn wrong_version_tag_is_version_mismatch() {
    let ix = sample_index();
    let mut bytes = encode_index(&ix);
    bytes[3] = 0x02;
    assert!(matches!(decode_index(&bytes), Err(CacheError::VersionMismatch)));
}

#[test]
fn short_artifact_is_version_mismatch() {
    let bytes = vec![0x47u8, 0x49];
    assert!(matches!(decode_index(&bytes), Err(CacheError::VersionMismatch)));
}

#[test]
fn truncated_artifact_is_corrupt() {
    let ix = sample_index();
    let mut bytes = encode_index(&ix);
    bytes.truncate(bytes.len() - 5);
    assert!(matches!(decode_index(&bytes), Err(CacheError::Corrupt)));
}

#[test]
fn trailing_bytes_are_corrupt() {
    let ix = sample_index();
    let mut bytes = encode_index(&ix);
    bytes.push(0);
    assert!(matches!(decode_index(&bytes), Err(CacheError::Corrupt)));
}

#[test]
fn flipped_payload_byte_is_rejected() {
    let ix = sample_index();
    let mut bytes = encode_index(&ix);
    // damage the boundary count so the artifact no longer parses cleanly
    let k = bytes.len() - 1;
    bytes[4] = 0xff;
    bytes[k] = bytes[k].wrapping_add(1);
    assert!(decode_index(&bytes).is_err());
}
