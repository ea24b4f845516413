//! Primitive decoder for the block-structured binary map extract.
//!
//! The extract is a sequence of frames: a 4-byte big-endian length, a block
//! header naming the block kind and the size of the payload blob, then the
//! blob itself, holding the payload raw or zlib-compressed. Each data
//! payload is a primitive block: a string table, coordinate granularity and
//! offsets, and groups of dense nodes, ways and relations, all encoded as
//! protobuf fields with varint, fixed and length-delimited wire types.
//! Structural damage to a frame is a fatal `DecodeError`; an individual tag
//! string that fails to decode is treated as "tag absent".

use vstd::prelude::*;

use crate::assemble::{MemberKind, MemberRole, Node, RelMember, Relation, Way};
use crate::geom::{GeoPoint, LAT_LIMIT, LON_LIMIT};
use crate::index::GeoIndex;

verus! {

/// The extract is structurally invalid; the build attempt fails.
#[derive(Clone, Copy, PartialEq, Eq, Structural, Debug)]
pub enum DecodeError {
    /// A frame header or length field is truncated or inconsistent.
    BadFrame,
    /// A blob failed compression validation.
    BadCompression,
    /// A primitive block's fields do not parse.
    BadBlock,
}

/// What a compressed blob inflates to: a function of the bytes alone.
pub uninterp spec fn zlib_inflate(b: Seq<u8>) -> Option<Seq<u8>>;

/// Relies on miniz_oxide::inflate::decompress_to_vec_zlib: whether it
/// succeeds and what it returns depend on the input bytes alone.
#[verifier::external_body]
fn inflate_zlib(b: &Vec<u8>) -> (r: Option<Vec<u8>>)
    ensures
        r matches Some(v) ==> zlib_inflate(b@) == Some(v@),
        r is None ==> zlib_inflate(b@) is None,
{
    miniz_oxide::inflate::decompress_to_vec_zlib(b.as_slice()).ok()
}

/// Base-128 varint starting at `s[0]`, accumulating from bit `shift`:
/// the decoded word and the remaining bytes, or `None` when the input ends
/// or the value would overflow 64 bits.
pub open spec fn svarint_at(s: Seq<u8>, shift: u64) -> Option<(u64, Seq<u8>)>
    decreases s.len(),
{
    if s.len() == 0 || shift >= 64 {
        None
    } else {
        let b = s[0];
        let low = ((b & 0x7f) as u64) << shift;
        if b < 0x80 {
            Some((low, s.drop_first()))
        } else {
            match svarint_at(s.drop_first(), (shift + 7) as u64) {
                None => None,
                Some((hi, r)) => Some((low | hi, r)),
            }
        }
    }
}

/// Base-128 varint at the head of `s`.
pub open spec fn svarint(s: Seq<u8>) -> Option<(u64, Seq<u8>)> {
    svarint_at(s, 0)
}

/// Zigzag decoding: even words are non-negative, odd words negative.
pub open spec fn zigzag(n: u64) -> i64 {
    if n & 1 == 0 {
        (n >> 1) as i64
    } else {
        (-((n >> 1) as i64) - 1) as i64
    }
}

fn read_varint_at(buf: &Vec<u8>, pos: usize, shift: u64) -> (r: Option<(u64, usize)>)
    requires
        pos <= buf@.len(),
    ensures
        match r {
            None => svarint_at(buf@.skip(pos as int), shift) is None,
            Some((x, np)) => pos < np <= buf@.len() && svarint_at(buf@.skip(pos as int), shift)
                == Some((x, buf@.skip(np as int))),
        },
    decreases buf@.len() - pos,
{
    if pos >= buf.len() || shift >= 64 {
        return None;
    }
    let b = buf[pos];
    proof {
        assert(buf@.skip(pos as int)[0] == buf@[pos as int]);
        assert(buf@.skip(pos as int).drop_first() =~= buf@.skip(pos as int + 1));
    }
    let low = ((b & 0x7f) as u64) << shift;
    if b < 0x80 {
        Some((low, pos + 1))
    } else {
        match read_varint_at(buf, pos + 1, shift + 7) {
            None => None,
            Some((hi, np)) => Some((low | hi, np)),
        }
    }
}

/// Reads one varint, exactly as `svarint` describes.
fn read_varint(buf: &Vec<u8>, pos: usize) -> (r: Option<(u64, usize)>)
    requires
        pos <= buf@.len(),
    ensures
        match r {
            None => svarint(buf@.skip(pos as int)) is None,
            Some((x, np)) => pos < np <= buf@.len() && svarint(buf@.skip(pos as int)) == Some(
                (x, buf@.skip(np as int)),
            ),
        },
{
    read_varint_at(buf, pos, 0)
}

/// Zigzag decoding, exactly as `zigzag` describes.
fn decode_zigzag(n: u64) -> (r: i64)
    ensures
        r == zigzag(n),
{
    if n & 1 == 0 {
        (n >> 1) as i64
    } else {
        proof {
            assert((n >> 1) < 0x8000_0000_0000_0000u64) by (bit_vector);
        }
        -((n >> 1) as i64) - 1
    }
}

/// Skips one protobuf field of the given wire type; `None` on a malformed
/// or truncated field, or an unsupported wire type.
fn skip_field(buf: &Vec<u8>, pos: usize, end: usize, wire: u64) -> (r: Option<usize>)
    requires
        pos <= end,
        end <= buf@.len(),
    ensures
        r matches Some(np) ==> pos <= np <= end,
{
    if wire == 0 {
        match read_varint(buf, pos) {
            None => None,
            Some((_x, np)) => if np <= end {
                Some(np)
            } else {
                None
            },
        }
    } else if wire == 1 {
        if end - pos >= 8 {
            Some(pos + 8)
        } else {
            None
        }
    } else if wire == 2 {
        match read_varint(buf, pos) {
            None => None,
            Some((len, np)) => if np <= end && len <= (end - np) as u64 {
                Some(np + len as usize)
            } else {
                None
            },
        }
    } else if wire == 5 {
        if end - pos >= 4 {
            Some(pos + 4)
        } else {
            None
        }
    } else {
        None
    }
}

/// Reads a length-delimited field's payload range; `None` when truncated.
fn read_len_range(buf: &Vec<u8>, pos: usize, end: usize) -> (r: Option<(usize, usize)>)
    requires
        pos <= end,
        end <= buf@.len(),
    ensures
        r matches Some((s, e)) ==> pos < s <= e <= end,
{
    match read_varint(buf, pos) {
        None => None,
        Some((len, np)) => if np <= end && len <= (end - np) as u64 {
            Some((np, np + len as usize))
        } else {
            None
        },
    }
}

/// All varints of a packed field payload.
fn parse_packed(buf: &Vec<u8>, start: usize, end: usize) -> (r: Option<Vec<u64>>)
    requires
        start <= end,
        end <= buf@.len(),
{
    let mut out: Vec<u64> = Vec::new();
    let mut pos = start;
    while pos < end
        invariant
            start <= pos <= end,
            end <= buf@.len(),
        decreases end - pos,
    {
        match read_varint(buf, pos) {
            None => { return None },
            Some((x, np)) => {
                if np > end {
                    return None;
                }
                out.push(x);
                pos = np;
            },
        }
    }
    Some(out)
}

/// Copies `buf[start..end]` into a fresh vector.
fn copy_range(buf: &Vec<u8>, start: usize, end: usize) -> (r: Vec<u8>)
    requires
        start <= end,
        end <= buf@.len(),
    ensures
        r@ == buf@.subrange(start as int, end as int),
{
    let mut out: Vec<u8> = Vec::new();
    let mut i = start;
    while i < end
        invariant
            start <= i <= end,
            end <= buf@.len(),
            out@ == buf@.subrange(start as int, i as int),
        decreases end - i,
    {
        out.push(buf[i]);
        proof {
            assert(out@ =~= buf@.subrange(start as int, i as int + 1));
        }
        i = i + 1;
    }
    out
}

fn bytes_is(v: &Vec<u8>, w: &Vec<u8>) -> (r: bool)
    ensures
        r == (v@ == w@),
{
    if v.len() != w.len() {
        return false;
    }
    let mut i: usize = 0;
    while i < v.len()
        invariant
            0 <= i <= v@.len(),
            v@.len() == w@.len(),
            forall|j: int| 0 <= j < i ==> v@[j] == w@[j],
        decreases v@.len() - i,
    {
        if v[i] != w[i] {
            return false;
        }
        i = i + 1;
    }
    proof {
        assert(v@ =~= w@);
    }
    true
}

fn lit_wikipedia() -> Vec<u8> {
    let mut v: Vec<u8> = Vec::new();
    v.push(119);  // w
    v.push(105);  // i
    v.push(107);  // k
    v.push(105);  // i
    v.push(112);  // p
    v.push(101);  // e
    v.push(100);  // d
    v.push(105);  // i
    v.push(97);  // a
    v
}

fn lit_outer() -> Vec<u8> {
    let mut v: Vec<u8> = Vec::new();
    v.push(111);  // o
    v.push(117);  // u
    v.push(116);  // t
    v.push(101);  // e
    v.push(114);  // r
    v
}

fn lit_inner() -> Vec<u8> {
    let mut v: Vec<u8> = Vec::new();
    v.push(105);  // i
    v.push(110);  // n
    v.push(110);  // n
    v.push(101);  // e
    v.push(114);  // r
    v
}

fn lit_osmdata() -> Vec<u8> {
    let mut v: Vec<u8> = Vec::new();
    v.push(79);  // O
    v.push(83);  // S
    v.push(77);  // M
    v.push(68);  // D
    v.push(97);  // a
    v.push(116);  // t
    v.push(97);  // a
    v
}

/// Looks up the reference tag value among a way's or relation's key/value
/// string-table indexes: the value string for the first key spelling
/// "wikipedia", decoded as UTF-8; an undecodable value counts as absent.
fn reference_of(keys: &Vec<u64>, vals: &Vec<u64>, strings: &Vec<Vec<u8>>) -> (r: Option<String>)
{
    let wiki = lit_wikipedia();
    let mut i: usize = 0;
    let n = if keys.len() < vals.len() {
        keys.len()
    } else {
        vals.len()
    };
    while i < n
        invariant
            0 <= i <= n,
            n <= keys@.len(),
            n <= vals@.len(),
        decreases n - i,
    {
        let k = keys[i];
        if k < strings.len() as u64 {
            if bytes_is(&strings[k as usize], &wiki) {
                let v = vals[i];
                if v < strings.len() as u64 {
                    let bytes = copy_range(
                        &strings[v as usize],
                        0,
                        strings[v as usize].len(),
                    );
                    match crate::cache::string_from_utf8(bytes) {
                        None => { return None },
                        Some(s) => {
                            if s.as_str().is_empty() {
                                return None;
                            }
                            return Some(s);
                        },
                    }
                }
                return None;
            }
        }
        i = i + 1;
    }
    None
}

/// The string table of a primitive block: repeated byte strings.
fn parse_string_table(buf: &Vec<u8>, start: usize, end: usize) -> (r: Option<Vec<Vec<u8>>>)
    requires
        start <= end,
        end <= buf@.len(),
{
    let mut out: Vec<Vec<u8>> = Vec::new();
    let mut pos = start;
    while pos < end
        invariant
            start <= pos <= end,
            end <= buf@.len(),
        decreases end - pos,
    {
        match read_varint(buf, pos) {
            None => { return None },
            Some((key, np)) => {
                if np > end {
                    return None;
                }
                let field = key >> 3;
                let wire = key & 7;
                if field == 1 && wire == 2 {
                    match read_len_range(buf, np, end) {
                        None => { return None },
                        Some((s, e)) => {
                            out.push(copy_range(buf, s, e));
                            pos = e;
                        },
                    }
                } else {
                    match skip_field(buf, np, end, wire) {
                        None => { return None },
                        Some(p2) => {
                            if p2 <= pos {
                                return None;
                            }
                            pos = p2;
                        },
                    }
                }
            },
        }
    }
    Some(out)
}

/// Converts a delta-decoded raw coordinate to nanodegrees and range-checks
/// it: `offset + granularity * raw`, computed exactly.
fn coord_nano(offset: i64, granularity: i64, raw: i64) -> (r: Option<i64>)
    ensures
        r is Some <==> -LON_LIMIT <= offset + granularity * raw <= LON_LIMIT,
        r matches Some(v) ==> v == offset + granularity * raw,
{
    proof {
        crate::geom::lemma_mul_bound(
            granularity as int,
            raw as int,
            0x8000_0000_0000_0000,
            0x8000_0000_0000_0000,
        );
    }
    let wide: i128 = offset as i128 + granularity as i128 * raw as i128;
    if -LON_LIMIT as i128 <= wide && wide <= LON_LIMIT as i128 {
        Some(wide as i64)
    } else {
        None
    }
}

/// Dense node group: packed delta-coded ids, latitudes and longitudes.
/// A node whose coordinates fall outside the legal range is dropped.
fn parse_dense(
    buf: &Vec<u8>,
    start: usize,
    end: usize,
    granularity: i64,
    lat_offset: i64,
    lon_offset: i64,
    nodes: &mut Vec<Node>,
) -> (ok: bool)
    requires
        start <= end,
        end <= buf@.len(),
        forall|i: int| 0 <= i < old(nodes)@.len() ==> (#[trigger] old(nodes)@[i]).point.in_range(),
    ensures
        forall|i: int| 0 <= i < final(nodes)@.len() ==> (#[trigger] final(nodes)@[i]).point.in_range(),
{
    let mut ids: Vec<u64> = Vec::new();
    let mut lats: Vec<u64> = Vec::new();
    let mut lons: Vec<u64> = Vec::new();
    let mut pos = start;
    while pos < end
        invariant
            start <= pos <= end,
            end <= buf@.len(),
            forall|k: int| 0 <= k < nodes@.len() ==> (#[trigger] nodes@[k]).point.in_range(),
        decreases end - pos,
    {
        match read_varint(buf, pos) {
            None => { return false },
            Some((key, np)) => {
                if np > end {
                    return false;
                }
                let field = key >> 3;
                let wire = key & 7;
                if wire == 2 && (field == 1 || field == 8 || field == 9) {
                    match read_len_range(buf, np, end) {
                        None => { return false },
                        Some((s, e)) => {
                            match parse_packed(buf, s, e) {
                                None => { return false },
                                Some(v) => {
                                    if field == 1 {
                                        ids = v;
                                    } else if field == 8 {
                                        lats = v;
                                    } else {
                                        lons = v;
                                    }
                                },
                            }
                            pos = e;
                        },
                    }
                } else {
                    match skip_field(buf, np, end, wire) {
                        None => { return false },
                        Some(p2) => {
                            if p2 <= pos {
                                return false;
                            }
                            pos = p2;
                        },
                    }
                }
            },
        }
    }
    let ghost nodes_before = nodes@;
    dense_nodes_from_columns(&ids, &lats, &lons, granularity, lat_offset, lon_offset, nodes);
    proof {
        lemma_spec_dense_nodes_in_range(
            ids@,
            lats@,
            lons@,
            granularity,
            lat_offset,
            lon_offset,
            spec_dense_len(ids@, lats@, lons@),
        );
    }
    true
}

/// Number of complete (id, latitude, longitude) column triples.
pub open spec fn spec_dense_len(ids: Seq<u64>, lats: Seq<u64>, lons: Seq<u64>) -> int {
    vstd::math::min(ids.len() as int, vstd::math::min(lats.len() as int, lons.len() as int))
}

/// Running sum of the zigzag-decoded deltas of the first `n` words, with
/// wrapping addition: the `n`-th raw value of a delta-coded column.
pub open spec fn spec_delta_sum(xs: Seq<u64>, n: int) -> i64
    decreases n,
{
    if n <= 0 {
        0
    } else {
        vstd::wrapping::i64_specs::wrapping_add(spec_delta_sum(xs, n - 1), zigzag(xs[n - 1]))
    }
}

/// The nodes the first `n` dense column triples yield: delta-decoded id,
/// raw coordinates scaled by granularity and shifted by the offsets; a
/// position whose point falls outside the legal coordinate range is
/// dropped.
pub open spec fn spec_dense_nodes(
    ids: Seq<u64>,
    lats: Seq<u64>,
    lons: Seq<u64>,
    granularity: i64,
    lat_offset: i64,
    lon_offset: i64,
    n: int,
) -> Seq<Node>
    decreases n,
{
    if n <= 0 {
        Seq::<Node>::empty()
    } else {
        let p = spec_dense_nodes(ids, lats, lons, granularity, lat_offset, lon_offset, n - 1);
        let la = lat_offset + granularity * spec_delta_sum(lats, n);
        let lo = lon_offset + granularity * spec_delta_sum(lons, n);
        if -LAT_LIMIT <= la <= LAT_LIMIT && -LON_LIMIT <= lo <= LON_LIMIT {
            p.push(
                Node {
                    id: spec_delta_sum(ids, n),
                    point: GeoPoint { lat: la as i64, lon: lo as i64 },
                },
            )
        } else {
            p
        }
    }
}

proof fn lemma_spec_dense_nodes_in_range(
    ids: Seq<u64>,
    lats: Seq<u64>,
    lons: Seq<u64>,
    granularity: i64,
    lat_offset: i64,
    lon_offset: i64,
    n: int,
)
    ensures
        forall|k: int|
            0 <= k < spec_dense_nodes(ids, lats, lons, granularity, lat_offset, lon_offset, n).len()
                ==> (#[trigger] spec_dense_nodes(
                ids,
                lats,
                lons,
                granularity,
                lat_offset,
                lon_offset,
                n,
            )[k]).point.in_range(),
    decreases n,
{
    if n > 0 {
        lemma_spec_dense_nodes_in_range(ids, lats, lons, granularity, lat_offset, lon_offset, n - 1);
        let p = spec_dense_nodes(ids, lats, lons, granularity, lat_offset, lon_offset, n - 1);
        let cur = spec_dense_nodes(ids, lats, lons, granularity, lat_offset, lon_offset, n);
        assert forall|k: int| 0 <= k < cur.len() implies (#[trigger] cur[k]).point.in_range() by {
            if k < p.len() {
                assert(cur[k] == p[k]);
            }
        }
    }
}

/// Combines a dense group's delta-coded columns into nodes, exactly as
/// `spec_dense_nodes` describes.
pub fn dense_nodes_from_columns(
    ids: &Vec<u64>,
    lats: &Vec<u64>,
    lons: &Vec<u64>,
    granularity: i64,
    lat_offset: i64,
    lon_offset: i64,
    nodes: &mut Vec<Node>,
)
    ensures
        final(nodes)@ == old(nodes)@ + spec_dense_nodes(
            ids@,
            lats@,
            lons@,
            granularity,
            lat_offset,
            lon_offset,
            spec_dense_len(ids@, lats@, lons@),
        ),
{
    let n = if ids.len() < lats.len() {
        if ids.len() < lons.len() {
            ids.len()
        } else {
            lons.len()
        }
    } else {
        if lats.len() < lons.len() {
            lats.len()
        } else {
            lons.len()
        }
    };
    proof {
        assert(n as int == spec_dense_len(ids@, lats@, lons@));
    }
    let mut id_acc: i64 = 0;
    let mut lat_acc: i64 = 0;
    let mut lon_acc: i64 = 0;
    let mut i: usize = 0;
    while i < n
        invariant
            0 <= i <= n,
            n <= ids@.len(),
            n <= lats@.len(),
            n <= lons@.len(),
            id_acc == spec_delta_sum(ids@, i as int),
            lat_acc == spec_delta_sum(lats@, i as int),
            lon_acc == spec_delta_sum(lons@, i as int),
            nodes@ == old(nodes)@ + spec_dense_nodes(
                ids@,
                lats@,
                lons@,
                granularity,
                lat_offset,
                lon_offset,
                i as int,
            ),
        decreases n - i,
    {
        id_acc = id_acc.wrapping_add(decode_zigzag(ids[i]));
        lat_acc = lat_acc.wrapping_add(decode_zigzag(lats[i]));
        lon_acc = lon_acc.wrapping_add(decode_zigzag(lons[i]));
        let lat = coord_nano(lat_offset, granularity, lat_acc);
        let lon = coord_nano(lon_offset, granularity, lon_acc);
        match (lat, lon) {
            (Some(la), Some(lo)) => {
                if -LAT_LIMIT <= la && la <= LAT_LIMIT {
                    nodes.push(Node { id: id_acc, point: GeoPoint { lat: la, lon: lo } });
                }
            },
            _ => {},
        }
        proof {
            assert(nodes@ =~= old(nodes)@ + spec_dense_nodes(
                ids@,
                lats@,
                lons@,
                granularity,
                lat_offset,
                lon_offset,
                i as int + 1,
            ));
        }
        i = i + 1;
    }
}

/// One way message: id, tag key/value indexes, delta-coded node refs.
fn parse_way(
    buf: &Vec<u8>,
    start: usize,
    end: usize,
    strings: &Vec<Vec<u8>>,
) -> (r: Option<Way>)
    requires
        start <= end,
        end <= buf@.len(),
{
    let mut id: i64 = 0;
    let mut keys: Vec<u64> = Vec::new();
    let mut vals: Vec<u64> = Vec::new();
    let mut refs: Vec<u64> = Vec::new();
    let mut pos = start;
    while pos < end
        invariant
            start <= pos <= end,
            end <= buf@.len(),
        decreases end - pos,
    {
        match read_varint(buf, pos) {
            None => { return None },
            Some((key, np)) => {
                if np > end {
                    return None;
                }
                let field = key >> 3;
                let wire = key & 7;
                if field == 1 && wire == 0 {
                    match read_varint(buf, np) {
                        None => { return None },
                        Some((x, p2)) => {
                            if p2 > end {
                                return None;
                            }
                            id = x as i64;
                            pos = p2;
                        },
                    }
                } else if wire == 2 && (field == 2 || field == 3 || field == 8) {
                    match read_len_range(buf, np, end) {
                        None => { return None },
                        Some((s, e)) => {
                            match parse_packed(buf, s, e) {
                                None => { return None },
                                Some(v) => {
                                    if field == 2 {
                                        keys = v;
                                    } else if field == 3 {
                                        vals = v;
                                    } else {
                                        refs = v;
                                    }
                                },
                            }
                            pos = e;
                        },
                    }
                } else {
                    match skip_field(buf, np, end, wire) {
                        None => { return None },
                        Some(p2) => {
                            if p2 <= pos {
                                return None;
                            }
                            pos = p2;
                        },
                    }
                }
            },
        }
    }
    let reference = reference_of(&keys, &vals, strings);
    let mut node_ids: Vec<i64> = Vec::new();
    let mut acc: i64 = 0;
    let mut i: usize = 0;
    while i < refs.len()
        invariant
            0 <= i <= refs@.len(),
        decreases refs@.len() - i,
    {
        acc = acc.wrapping_add(decode_zigzag(refs[i]));
        node_ids.push(acc);
        i = i + 1;
    }
    Some(Way { id, node_ids, reference })
}

/// One relation message: id, tags, member roles, delta-coded member ids,
/// member kinds.
fn parse_relation(
    buf: &Vec<u8>,
    start: usize,
    end: usize,
    strings: &Vec<Vec<u8>>,
) -> (r: Option<Relation>)
    requires
        start <= end,
        end <= buf@.len(),
{
    let mut id: i64 = 0;
    let mut keys: Vec<u64> = Vec::new();
    let mut vals: Vec<u64> = Vec::new();
    let mut roles: Vec<u64> = Vec::new();
    let mut memids: Vec<u64> = Vec::new();
    let mut types: Vec<u64> = Vec::new();
    let mut pos = start;
    while pos < end
        invariant
            start <= pos <= end,
            end <= buf@.len(),
        decreases end - pos,
    {
        match read_varint(buf, pos) {
            None => { return None },
            Some((key, np)) => {
                if np > end {
                    return None;
                }
                let field = key >> 3;
                let wire = key & 7;
                if field == 1 && wire == 0 {
                    match read_varint(buf, np) {
                        None => { return None },
                        Some((x, p2)) => {
                            if p2 > end {
                                return None;
                            }
                            id = x as i64;
                            pos = p2;
                        },
                    }
                } else if wire == 2 && (field == 2 || field == 3 || field == 8 || field == 9
                    || field == 10) {
                    match read_len_range(buf, np, end) {
                        None => { return None },
                        Some((s, e)) => {
                            match parse_packed(buf, s, e) {
                                None => { return None },
                                Some(v) => {
                                    if field == 2 {
                                        keys = v;
                                    } else if field == 3 {
                                        vals = v;
                                    } else if field == 8 {
                                        roles = v;
                                    } else if field == 9 {
                                        memids = v;
                                    } else {
                                        types = v;
                                    }
                                },
                            }
                            pos = e;
                        },
                    }
                } else {
                    match skip_field(buf, np, end, wire) {
                        None => { return None },
                        Some(p2) => {
                            if p2 <= pos {
                                return None;
                            }
                            pos = p2;
                        },
                    }
                }
            },
        }
    }
    let reference = reference_of(&keys, &vals, strings);
    let outer_lit = lit_outer();
    let inner_lit = lit_inner();
    let mut members: Vec<RelMember> = Vec::new();
    let n = if roles.len() < memids.len() {
        if roles.len() < types.len() {
            roles.len()
        } else {
            types.len()
        }
    } else {
        if memids.len() < types.len() {
            memids.len()
        } else {
            types.len()
        }
    };
    let mut acc: i64 = 0;
    let mut i: usize = 0;
    while i < n
        invariant
            0 <= i <= n,
            n <= roles@.len(),
            n <= memids@.len(),
            n <= types@.len(),
        decreases n - i,
    {
        acc = acc.wrapping_add(decode_zigzag(memids[i]));
        let role_idx = roles[i];
        let role = if role_idx < strings.len() as u64 {
            if bytes_is(&strings[role_idx as usize], &outer_lit) {
                MemberRole::Outer
            } else if bytes_is(&strings[role_idx as usize], &inner_lit) {
                MemberRole::Inner
            } else {
                MemberRole::Other
            }
        } else {
            MemberRole::Other
        };
        let t = types[i];
        let kind = if t == 0 {
            MemberKind::NodeRef
        } else if t == 1 {
            MemberKind::WayRef
        } else {
            MemberKind::RelationRef
        };
        members.push(RelMember { id: acc, kind, role });
        i = i + 1;
    }
    Some(Relation { id, members, reference })
}

/// One primitive block: string table, granularity and offsets, then the
/// primitive groups of dense nodes, ways and relations. Every decoded
/// node's point is in the legal coordinate range.
pub(crate) fn parse_primitive_block(
    buf: &Vec<u8>,
    nodes: &mut Vec<Node>,
    ways: &mut Vec<Way>,
    relations: &mut Vec<Relation>,
) -> (ok: bool)
    requires
        forall|i: int| 0 <= i < old(nodes)@.len() ==> (#[trigger] old(nodes)@[i]).point.in_range(),
    ensures
        forall|i: int| 0 <= i < final(nodes)@.len() ==> (#[trigger] final(nodes)@[i]).point.in_range(),
{
    let end = buf.len();
    let mut strings: Vec<Vec<u8>> = Vec::new();
    let mut granularity: i64 = 100;
    let mut lat_offset: i64 = 0;
    let mut lon_offset: i64 = 0;
    let mut groups: Vec<(usize, usize)> = Vec::new();
    let mut pos: usize = 0;
    // first pass: scalars, string table, group ranges
    while pos < end
        invariant
            0 <= pos <= end,
            end == buf@.len(),
            forall|g: int|
                0 <= g < groups@.len() ==> (#[trigger] groups@[g]).0 <= groups@[g].1
                    && groups@[g].1 <= end,
            forall|i: int| 0 <= i < nodes@.len() ==> (#[trigger] nodes@[i]).point.in_range(),
        decreases end - pos,
    {
        match read_varint(buf, pos) {
            None => { return false },
            Some((key, np)) => {
                if np > end {
                    return false;
                }
                let field = key >> 3;
                let wire = key & 7;
                if field == 1 && wire == 2 {
                    match read_len_range(buf, np, end) {
                        None => { return false },
                        Some((s, e)) => {
                            match parse_string_table(buf, s, e) {
                                None => { return false },
                                Some(t) => {
                                    strings = t;
                                },
                            }
                            pos = e;
                        },
                    }
                } else if field == 2 && wire == 2 {
                    match read_len_range(buf, np, end) {
                        None => { return false },
                        Some((s, e)) => {
                            groups.push((s, e));
                            pos = e;
                        },
                    }
                } else if wire == 0 && (field == 17 || field == 19 || field == 20) {
                    match read_varint(buf, np) {
                        None => { return false },
                        Some((x, p2)) => {
                            if p2 > end {
                                return false;
                            }
                            if field == 17 {
                                granularity = x as i64;
                            } else if field == 19 {
                                lat_offset = x as i64;
                            } else {
                                lon_offset = x as i64;
                            }
                            pos = p2;
                        },
                    }
                } else {
                    match skip_field(buf, np, end, wire) {
                        None => { return false },
                        Some(p2) => {
                            if p2 <= pos {
                                return false;
                            }
                            pos = p2;
                        },
                    }
                }
            },
        }
    }
    // second pass: the groups, now that granularity and offsets are known
    let mut g: usize = 0;
    while g < groups.len()
        invariant
            0 <= g <= groups@.len(),
            end == buf@.len(),
            forall|q: int|
                0 <= q < groups@.len() ==> (#[trigger] groups@[q]).0 <= groups@[q].1
                    && groups@[q].1 <= end,
            forall|i: int| 0 <= i < nodes@.len() ==> (#[trigger] nodes@[i]).point.in_range(),
        decreases groups@.len() - g,
    {
        let (gs, ge) = groups[g];
        let mut pos = gs;
        while pos < ge
            invariant
                gs <= pos <= ge,
                ge <= end,
                end == buf@.len(),
                forall|i: int| 0 <= i < nodes@.len() ==> (#[trigger] nodes@[i]).point.in_range(),
            decreases ge - pos,
        {
            match read_varint(buf, pos) {
                None => { return false },
                Some((key, np)) => {
                    if np > ge {
                        return false;
                    }
                    let field = key >> 3;
                    let wire = key & 7;
                    if wire == 2 && (field == 2 || field == 3 || field == 4) {
                        match read_len_range(buf, np, ge) {
                            None => { return false },
                            Some((s, e)) => {
                                if field == 2 {
                                    if !parse_dense(
                                        buf,
                                        s,
                                        e,
                                        granularity,
                                        lat_offset,
                                        lon_offset,
                                        nodes,
                                    ) {
                                        return false;
                                    }
                                } else if field == 3 {
                                    match parse_way(buf, s, e, &strings) {
                                        None => { return false },
                                        Some(w) => {
                                            ways.push(w);
                                        },
                                    }
                                } else {
                                    match parse_relation(buf, s, e, &strings) {
                                        None => { return false },
                                        Some(rel) => {
                                            relations.push(rel);
                                        },
                                    }
                                }
                                pos = e;
                            },
                        }
                    } else {
                        match skip_field(buf, np, ge, wire) {
                            None => { return false },
                            Some(p2) => {
                                if p2 <= pos {
                                    return false;
                                }
                                pos = p2;
                            },
                        }
                    }
                },
            }
        }
        g = g + 1;
    }
    true
}

/// Whether a frame's block header names a data block, and the blob size.
fn parse_blob_header(buf: &Vec<u8>, start: usize, end: usize) -> (r: Option<(bool, u64)>)
    requires
        start <= end,
        end <= buf@.len(),
{
    let osmdata = lit_osmdata();
    let mut is_data = false;
    let mut datasize: u64 = 0;
    let mut pos = start;
    while pos < end
        invariant
            start <= pos <= end,
            end <= buf@.len(),
        decreases end - pos,
    {
        match read_varint(buf, pos) {
            None => { return None },
            Some((key, np)) => {
                if np > end {
                    return None;
                }
                let field = key >> 3;
                let wire = key & 7;
                if field == 1 && wire == 2 {
                    match read_len_range(buf, np, end) {
                        None => { return None },
                        Some((s, e)) => {
                            let t = copy_range(buf, s, e);
                            is_data = bytes_is(&t, &osmdata);
                            pos = e;
                        },
                    }
                } else if field == 3 && wire == 0 {
                    match read_varint(buf, np) {
                        None => { return None },
                        Some((x, p2)) => {
                            if p2 > end {
                                return None;
                            }
                            datasize = x;
                            pos = p2;
                        },
                    }
                } else {
                    match skip_field(buf, np, end, wire) {
                        None => { return None },
                        Some(p2) => {
                            if p2 <= pos {
                                return None;
                            }
                            pos = p2;
                        },
                    }
                }
            },
        }
    }
    Some((is_data, datasize))
}

/// A blob's payload, decompressed if it was zlib-compressed; `None` when
/// the blob is malformed or fails compression validation.
fn parse_blob(buf: &Vec<u8>, start: usize, end: usize) -> (r: Option<Vec<u8>>)
    requires
        start <= end,
        end <= buf@.len(),
{
    let mut pos = start;
    while pos < end
        invariant
            start <= pos <= end,
            end <= buf@.len(),
        decreases end - pos,
    {
        match read_varint(buf, pos) {
            None => { return None },
            Some((key, np)) => {
                if np > end {
                    return None;
                }
                let field = key >> 3;
                let wire = key & 7;
                if field == 1 && wire == 2 {
                    // raw payload
                    match read_len_range(buf, np, end) {
                        None => { return None },
                        Some((s, e)) => { return Some(copy_range(buf, s, e)) },
                    }
                } else if field == 3 && wire == 2 {
                    // zlib payload
                    match read_len_range(buf, np, end) {
                        None => { return None },
                        Some((s, e)) => {
                            let compressed = copy_range(buf, s, e);
                            return inflate_zlib(&compressed);
                        },
                    }
                } else {
                    match skip_field(buf, np, end, wire) {
                        None => { return None },
                        Some(p2) => {
                            if p2 <= pos {
                                return None;
                            }
                            pos = p2;
                        },
                    }
                }
            },
        }
    }
    None
}

/// Decodes the whole extract, frame by frame: every decoded node's point
/// is in the legal coordinate range; a structurally damaged frame fails
/// the whole decode.
pub fn decode_extract(buf: &Vec<u8>) -> (r: Result<(Vec<Node>, Vec<Way>, Vec<Relation>),
    DecodeError>)
    ensures
        r matches Ok(t) ==> forall|i: int|
            0 <= i < t.0@.len() ==> (#[trigger] t.0@[i]).point.in_range(),
        buf@.len() == 0 ==> (r matches Ok(t) && t.0@.len() == 0 && t.1@.len() == 0 && t.2@.len()
            == 0),
        0 < buf@.len() < 4 ==> r == Err::<(Vec<Node>, Vec<Way>, Vec<Relation>), DecodeError>(
            DecodeError::BadFrame,
        ),
{
    let mut nodes: Vec<Node> = Vec::new();
    let mut ways: Vec<Way> = Vec::new();
    let mut relations: Vec<Relation> = Vec::new();
    let len = buf.len();
    let mut pos: usize = 0;
    while pos < len
        invariant
            0 <= pos <= len,
            len == buf@.len(),
            forall|i: int| 0 <= i < nodes@.len() ==> (#[trigger] nodes@[i]).point.in_range(),
            len == 0 ==> nodes@.len() == 0 && ways@.len() == 0 && relations@.len() == 0,
            0 < len < 4 ==> pos == 0,
        decreases len - pos,
    {
        if len - pos < 4 {
            return Err(DecodeError::BadFrame);
        }
        let header_len: u64 = ((buf[pos] as u64) << 24) | ((buf[pos + 1] as u64) << 16) | ((
        buf[pos + 2] as u64) << 8) | (buf[pos + 3] as u64);
        let pos1 = pos + 4;
        if header_len == 0 || header_len > (len - pos1) as u64 {
            return Err(DecodeError::BadFrame);
        }
        let header_end = pos1 + header_len as usize;
        let (is_data, datasize) = match parse_blob_header(buf, pos1, header_end) {
            None => { return Err(DecodeError::BadFrame) },
            Some(t) => t,
        };
        if datasize > (len - header_end) as u64 {
            return Err(DecodeError::BadFrame);
        }
        let blob_end = header_end + datasize as usize;
        if is_data {
            let payload = match parse_blob(buf, header_end, blob_end) {
                None => { return Err(DecodeError::BadCompression) },
                Some(p) => p,
            };
            if !parse_primitive_block(&payload, &mut nodes, &mut ways, &mut relations) {
                return Err(DecodeError::BadBlock);
            }
        }
        if blob_end <= pos {
            return Err(DecodeError::BadFrame);
        }
        pos = blob_end;
    }
    Ok((nodes, ways, relations))
}

/// Builds the index over an already-decoded primitive set: the assembly
/// guarantees carry over to the index's boundaries — every way that
/// assembles, and every boundary owed by a directly-assembling relation,
/// stands in the index. The second result is the count of dropped members
/// and unclosable geometries.
pub fn index_from_primitives(
    nodes: &Vec<Node>,
    ways: &Vec<Way>,
    relations: &Vec<Relation>,
) -> (r: (GeoIndex, u64))
    ensures
        r.0.wf(),
        forall|j: int|
            0 <= j < ways@.len() && crate::assemble::spec_way_assembles(
                #[trigger] ways@[j],
                nodes@,
            ) ==> crate::assemble::way_content_in(r.0.boundaries@, ways@[j], nodes@),
        forall|j: int|
            0 <= j < relations@.len() && crate::assemble::spec_relation_assembles_directly(
                #[trigger] relations@[j],
                ways@,
                nodes@,
            ) ==> crate::assemble::relation_content_in(
                r.0.boundaries@,
                relations@[j],
                ways@,
                nodes@,
            ),
        ways@.len() == 0 && relations@.len() == 0 ==> r.0.boundaries@.len() == 0,
{
    let (bs, warnings) = crate::assemble::assemble_boundaries(nodes, ways, relations);
    (GeoIndex::from_boundaries(bs), warnings)
}

/// The full build path: decode the extract, assemble boundaries, build the
/// index. The second result is the count of dropped members and
/// unclosable geometries.
pub fn build_index(extract: &Vec<u8>) -> (r: Result<(GeoIndex, u64), DecodeError>)
    ensures
        r matches Ok(t) ==> t.0.wf(),
        extract@.len() == 0 ==> (r matches Ok(t) && t.0.boundaries@.len() == 0),
{
    match decode_extract(extract) {
        Err(e) => Err(e),
        Ok((nodes, ways, relations)) => {
            let (ix, warnings) = index_from_primitives(&nodes, &ways, &relations);
            Ok((ix, warnings))
        },
    }
}

} // verus!
