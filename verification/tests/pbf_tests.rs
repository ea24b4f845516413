use geoindex::assemble::Node;
use geoindex::geom::GeoPoint;
use geoindex::pbf::{build_index, decode_extract, dense_nodes_from_columns, DecodeError};

const D: i64 = 1_000_000_000;
// raw coordinate units per degree at the default granularity of 100 nanodegrees
const RAW_DEG: i64 = 10_000_000;

fn vi(mut x: u64, out: &mut Vec<u8>) {
    loop {
        let b = (x & 0x7f) as u8;
        x >>= 7;
        if x == 0 {
            out.push(b);
            break;
        }
        out.push(b | 0x80);
    }
}

fn zz(x: i64) -> u64 {
    ((x << 1) ^ (x >> 63)) as u64
}

fn len_field(field: u32, payload: &[u8], out: &mut Vec<u8>) {
    vi(((field << 3) | 2) as u64, out);
    vi(payload.len() as u64, out);
    out.extend_from_slice(payload);
}

fn varint_field(field: u32, value: u64, out: &mut Vec<u8>) {
    vi(((field << 3) | 0) as u64, out);
    vi(value, out);
}

fn packed(values: &[u64]) -> Vec<u8> {
    let mut out = Vec::new();
    for &v in values {
        vi(v, &mut out);
    }
    out
}

fn string_table(strings: &[&[u8]]) -> Vec<u8> {
    let mut st = Vec::new();
    for s in strings {
        len_field(1, s, &mut st);
    }
    st
}

/// Dense nodes with given ids and degree coordinates, delta/zigzag coded.
fn dense_nodes(entries: &[(i64, i64, i64)]) -> Vec<u8> {
    let mut ids = Vec::new();
    let mut lats = Vec::new();
    let mut lons = Vec::new();
    let (mut pid, mut plat, mut plon) = (0i64, 0i64, 0i64);
    for &(id, lat_deg, lon_deg) in entries {
        let lat = lat_deg * RAW_DEG;
        let lon = lon_deg * RAW_DEG;
        ids.push(zz(id - pid));
        lats.push(zz(lat - plat));
        lons.push(zz(lon - plon));
        pid = id;
        plat = lat;
        plon = lon;
    }
    let mut dense = Vec::new();
    len_field(1, &packed(&ids), &mut dense);
    len_field(8, &packed(&lats), &mut dense);
    len_field(9, &packed(&lons), &mut dense);
    dense
}

fn way_msg(id: u64, keys: &[u64], vals: &[u64], refs: &[i64]) -> Vec<u8> {
    let mut w = Vec::new();
    varint_field(1, id, &mut w);
    if !keys.is_empty() {
        len_field(2, &packed(keys), &mut w);
        len_field(3, &packed(vals), &mut w);
    }
    let mut deltas = Vec::new();
    let mut prev = 0i64;
    for &r in refs {
        deltas.push(zz(r - prev));
        prev = r;
    }
    len_field(8, &packed(&deltas), &mut w);
    w
}

fn primitive_block(strings: &[&[u8]], dense: Option<Vec<u8>>, ways: &[Vec<u8>]) -> Vec<u8> {
    let mut block = Vec::new();
    len_field(1, &string_table(strings), &mut block);
    let mut group = Vec::new();
    if let Some(d) = dense {
        len_field(2, &d, &mut group);
    }
    for w in ways {
        len_field(3, w, &mut group);
    }
    len_field(2, &group, &mut block);
    block
}

fn frame(kind: &[u8], blob: &[u8]) -> Vec<u8> {
    let mut header = Vec::new();
    len_field(1, kind, &mut header);
    varint_field(3, blob.len() as u64, &mut header);
    let mut out = Vec::new();
    out.extend_from_slice(&(header.len() as u32).to_be_bytes());
    out.extend_from_slice(&header);
    out.extend_from_slice(blob);
    out
}

fn raw_blob(payload: &[u8]) -> Vec<u8> {
    let mut blob = Vec::new();
    len_field(1, payload, &mut blob);
    blob
}

fn zlib_blob(payload: &[u8]) -> Vec<u8> {
    let compressed = miniz_oxide::deflate::compress_to_vec_zlib(payload, 6);
    let mut blob = Vec::new();
    varint_field(2, payload.len() as u64, &mut blob);
    len_field(3, &compressed, &mut blob);
    blob
}

fn square_block(reference: &[u8]) -> Vec<u8> {
    let strings: [&[u8]; 3] = [b"", b"wikipedia", reference];
    let dense = dense_nodes(&[(1, 40, -3), (2, 40, 7), (3, 50, 7), (4, 50, -3)]);
    let way = way_msg(100, &[1], &[2], &[1, 2, 3, 4, 1]);
    primitive_block(&strings, Some(dense), &[way])
}

#[test]
fn decode_raw_extract_and_query() {
    let block = square_block(b"Francia");
    let extract = frame(b"OSMData", &raw_blob(&block));
    let (ix, warnings) = build_index(&extract).expect("extract must decode");
    assert_eq!(warnings, 0);
    assert_eq!(ix.len(), 1);
    assert_eq!(ix.find(45 * D, 2 * D), Some("Francia".to_string()));
    assert_eq!(ix.find(0, 0), None);
}

#[test]
fn decode_zlib_extract_matches_raw() {
    let block = square_block(b"Francia");
    let raw_extract = frame(b"OSMData", &raw_blob(&block));
    let zlib_extract = frame(b"OSMData", &zlib_blob(&block));
    let (a, _) = build_index(&raw_extract).expect("raw extract must decode");
    let (b, _) = build_index(&zlib_extract).expect("zlib extract must decode");
    assert_eq!(a.len(), b.len());
    assert_eq!(a.find(45 * D, 2 * D), b.find(45 * D, 2 * D));
    assert_eq!(b.find(45 * D, 2 * D), Some("Francia".to_string()));
}

#[test]
fn header_block_is_skipped() {
    let mut extract = frame(b"OSMHeader", &raw_blob(&[0u8; 0]));
    extract.extend_from_slice(&frame(b"OSMData", &raw_blob(&square_block(b"Francia"))));
    let (ix, _) = build_index(&extract).expect("extract must decode");
    assert_eq!(ix.find(45 * D, 2 * D), Some("Francia".to_string()));
}

#[test]
fn truncated_frame_is_bad_frame() {
    let block = square_block(b"Francia");
    let mut extract = frame(b"OSMData", &raw_blob(&block));
    extract.truncate(extract.len() - 3);
    assert!(matches!(decode_extract(&extract), Err(DecodeError::BadFrame)));
}

#[test]
fn garbage_compression_is_bad_compression() {
    let mut blob = Vec::new();
    let garbage = [0x13u8, 0x37, 0x00, 0xff, 0x21];
    len_field(3, &garbage, &mut blob);
    let extract = frame(b"OSMData", &blob);
    assert!(matches!(decode_extract(&extract), Err(DecodeError::BadCompression)));
}

#[test]
fn invalid_utf8_tag_counts_as_absent() {
    // the reference value is not valid UTF-8: the way is treated untagged
    let block = square_block(&[0xff, 0xfe, 0x41]);
    let extract = frame(b"OSMData", &raw_blob(&block));
    let (ix, warnings) = build_index(&extract).expect("extract must decode");
    assert_eq!(ix.len(), 0);
    assert_eq!(warnings, 0);
    assert_eq!(ix.find(45 * D, 2 * D), None);
}

#[test]
fn dense_columns_decode_exactly() {
    // two nodes, delta-coded; the third's latitude lands out of range and
    // is dropped
    let ids = vec![zz(5), zz(2), zz(1)];
    let lats = vec![zz(40 * RAW_DEG), zz(10 * RAW_DEG), zz(100 * RAW_DEG)];
    let lons = vec![zz(-3 * RAW_DEG), zz(10 * RAW_DEG), zz(0)];
    let mut nodes: Vec<Node> = Vec::new();
    dense_nodes_from_columns(&ids, &lats, &lons, 100, 0, 0, &mut nodes);
    assert_eq!(nodes.len(), 2);
    assert_eq!(nodes[0], Node { id: 5, point: GeoPoint { lat: 40 * D, lon: -3 * D } });
    assert_eq!(nodes[1], Node { id: 7, point: GeoPoint { lat: 50 * D, lon: 7 * D } });
}

#[test]
fn empty_extract_decodes_to_empty_index() {
    let extract: Vec<u8> = Vec::new();
    let (ix, warnings) = build_index(&extract).expect("empty extract is valid");
    assert_eq!(warnings, 0);
    assert_eq!(ix.len(), 0);
}
