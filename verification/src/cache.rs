//! Versioned binary cache artifact for a built index.
//!
//! `encode_index` lays the full boundary set out as bytes behind a
//! format-version tag; `decode_index` reads them back, rejecting artifacts
//! with a foreign tag or any structural corruption. Reading and writing the
//! artifact file, and the atomic publish of a freshly written artifact, are
//! the caller's concern: this module is a pure bytes-to-values codec.

use vstd::prelude::*;

use vstd::utf8::{decode_utf8, encode_utf8, encode_utf8_decode_utf8, encode_utf8_valid_utf8,
    valid_utf8};

use crate::geom::{ring_wf, GeoPoint, MAX_RING_LEN};
use crate::index::{Boundary, GeoIndex};

verus! {

/// Why a cache artifact was rejected.
#[derive(Clone, Copy, PartialEq, Eq, Structural, Debug)]
pub enum CacheError {
    /// The artifact does not begin with the expected format-version tag.
    VersionMismatch,
    /// The artifact is truncated or structurally inconsistent.
    Corrupt,
}

/// The format-version tag opening every cache artifact.
pub open spec fn version_tag() -> Seq<u8> {
    seq![0x47u8, 0x49u8, 0x58u8, 0x01u8]
}

// ---------------------------------------------------------------------------
// Spec-level encoders (value to bytes).
// ---------------------------------------------------------------------------

/// Little-endian 8-byte layout of a 64-bit word.
pub open spec fn enc_u64(x: u64) -> Seq<u8> {
    seq![
        (x & 0xff) as u8,
        ((x >> 8) & 0xff) as u8,
        ((x >> 16) & 0xff) as u8,
        ((x >> 24) & 0xff) as u8,
        ((x >> 32) & 0xff) as u8,
        ((x >> 40) & 0xff) as u8,
        ((x >> 48) & 0xff) as u8,
        ((x >> 56) & 0xff) as u8,
    ]
}

/// A point is its latitude then longitude, each as a 64-bit word.
pub open spec fn enc_point(p: GeoPoint) -> Seq<u8> {
    enc_u64(p.lat as u64) + enc_u64(p.lon as u64)
}

/// The points of a ring, in order.
pub open spec fn enc_points(ring: Seq<GeoPoint>) -> Seq<u8>
    decreases ring.len(),
{
    if ring.len() == 0 {
        Seq::<u8>::empty()
    } else {
        enc_point(ring[0]) + enc_points(ring.drop_first())
    }
}

/// A ring is its point count followed by its points.
pub open spec fn enc_ring(ring: Seq<GeoPoint>) -> Seq<u8> {
    enc_u64(ring.len() as u64) + enc_points(ring)
}

/// A sequence of rings, in order.
pub open spec fn enc_rings(rs: Seq<Seq<GeoPoint>>) -> Seq<u8>
    decreases rs.len(),
{
    if rs.len() == 0 {
        Seq::<u8>::empty()
    } else {
        enc_ring(rs[0]) + enc_rings(rs.drop_first())
    }
}

/// A string is its UTF-8 byte count followed by its UTF-8 bytes.
pub open spec fn enc_str(s: Seq<char>) -> Seq<u8> {
    enc_u64(encode_utf8(s).len() as u64) + encode_utf8(s)
}

/// The hole rings of a boundary, as plain point sequences.
pub open spec fn holes_views(b: Boundary) -> Seq<Seq<GeoPoint>> {
    b.holes@.map_values(|v: Vec<GeoPoint>| v@)
}

/// A boundary is its reference string, outer ring, hole count and holes.
/// The bounding box and area are not stored: they are a function of the
/// outer ring and are recomputed on decode.
pub open spec fn enc_boundary(b: Boundary) -> Seq<u8> {
    enc_str(b.reference@) + enc_ring(b.outer@) + enc_u64(b.holes@.len() as u64) + enc_rings(
        holes_views(b),
    )
}

/// A sequence of boundaries, in insertion order.
pub open spec fn enc_boundaries(bs: Seq<Boundary>) -> Seq<u8>
    decreases bs.len(),
{
    if bs.len() == 0 {
        Seq::<u8>::empty()
    } else {
        enc_boundary(bs[0]) + enc_boundaries(bs.drop_first())
    }
}

/// The whole artifact: version tag, boundary count, boundaries.
pub open spec fn enc_index(bs: Seq<Boundary>) -> Seq<u8> {
    version_tag() + enc_u64(bs.len() as u64) + enc_boundaries(bs)
}

/// The encoder stores every count as one 64-bit word.
pub open spec fn enc_sizes_ok(b: Boundary) -> bool {
    &&& encode_utf8(b.reference@).len() <= u64::MAX
    &&& b.holes@.len() <= u64::MAX
}

// ---------------------------------------------------------------------------
// Spec-level decoders (bytes to value plus remaining bytes).
// ---------------------------------------------------------------------------

/// The content of one decoded boundary: reference characters, outer ring,
/// hole rings.
pub type BoundaryContent = (Seq<char>, Seq<GeoPoint>, Seq<Seq<GeoPoint>>);

/// Little-endian read of a 64-bit word from an 8-byte prefix.
pub open spec fn dec_u64(s: Seq<u8>) -> u64
    recommends
        s.len() >= 8,
{
    (s[0] as u64) | ((s[1] as u64) << 8) | ((s[2] as u64) << 16) | ((s[3] as u64) << 24) | ((
    s[4] as u64) << 32) | ((s[5] as u64) << 40) | ((s[6] as u64) << 48) | ((s[7] as u64) << 56)
}

pub open spec fn sdec_u64(s: Seq<u8>) -> Option<(u64, Seq<u8>)> {
    if s.len() >= 8 {
        Some((dec_u64(s.take(8)), s.skip(8)))
    } else {
        None
    }
}

pub open spec fn sdec_point(s: Seq<u8>) -> Option<(GeoPoint, Seq<u8>)> {
    match sdec_u64(s) {
        None => None,
        Some((a, r1)) => match sdec_u64(r1) {
            None => None,
            Some((b, r2)) => Some((GeoPoint { lat: a as i64, lon: b as i64 }, r2)),
        },
    }
}

pub open spec fn sdec_points(s: Seq<u8>, n: nat) -> Option<(Seq<GeoPoint>, Seq<u8>)>
    decreases n,
{
    if n == 0 {
        Some((Seq::<GeoPoint>::empty(), s))
    } else {
        match sdec_point(s) {
            None => None,
            Some((p, r)) => match sdec_points(r, (n - 1) as nat) {
                None => None,
                Some((ps, r2)) => Some((seq![p] + ps, r2)),
            },
        }
    }
}

/// A ring decodes only when its point sequence is a well-formed closed ring.
pub open spec fn sdec_ring(s: Seq<u8>) -> Option<(Seq<GeoPoint>, Seq<u8>)> {
    match sdec_u64(s) {
        None => None,
        Some((n, r)) => if n > MAX_RING_LEN as u64 {
            None
        } else {
            match sdec_points(r, n as nat) {
                None => None,
                Some((ps, r2)) => if ring_wf(ps) {
                    Some((ps, r2))
                } else {
                    None
                },
            }
        },
    }
}

pub open spec fn sdec_rings(s: Seq<u8>, n: nat) -> Option<(Seq<Seq<GeoPoint>>, Seq<u8>)>
    decreases n,
{
    if n == 0 {
        Some((Seq::<Seq<GeoPoint>>::empty(), s))
    } else {
        match sdec_ring(s) {
            None => None,
            Some((ring, r)) => match sdec_rings(r, (n - 1) as nat) {
                None => None,
                Some((rs, r2)) => Some((seq![ring] + rs, r2)),
            },
        }
    }
}

/// A string decodes only when its bytes are valid UTF-8.
pub open spec fn sdec_str(s: Seq<u8>) -> Option<(Seq<char>, Seq<u8>)> {
    match sdec_u64(s) {
        None => None,
        Some((n, r)) => if r.len() < n {
            None
        } else {
            if valid_utf8(r.take(n as int)) {
                Some((decode_utf8(r.take(n as int)), r.skip(n as int)))
            } else {
                None
            }
        },
    }
}

/// A boundary decodes only with a non-empty reference and well-formed rings.
pub open spec fn sdec_boundary(s: Seq<u8>) -> Option<(BoundaryContent, Seq<u8>)> {
    match sdec_str(s) {
        None => None,
        Some((name, r1)) => if name.len() == 0 {
            None
        } else {
            match sdec_ring(r1) {
                None => None,
                Some((outer, r2)) => match sdec_u64(r2) {
                    None => None,
                    Some((hn, r3)) => match sdec_rings(r3, hn as nat) {
                        None => None,
                        Some((holes, r4)) => Some(((name, outer, holes), r4)),
                    },
                },
            }
        },
    }
}

pub open spec fn sdec_boundaries(s: Seq<u8>, n: nat) -> Option<(Seq<BoundaryContent>, Seq<u8>)>
    decreases n,
{
    if n == 0 {
        Some((Seq::<BoundaryContent>::empty(), s))
    } else {
        match sdec_boundary(s) {
            None => None,
            Some((c, r)) => match sdec_boundaries(r, (n - 1) as nat) {
                None => None,
                Some((cs, r2)) => Some((seq![c] + cs, r2)),
            },
        }
    }
}

/// The whole artifact must carry the version tag and decode exactly, with
/// no trailing bytes.
pub open spec fn sdec_index(s: Seq<u8>) -> Option<Seq<BoundaryContent>> {
    if s.len() >= 4 && s.take(4) == version_tag() {
        match sdec_u64(s.skip(4)) {
            None => None,
            Some((n, r)) => match sdec_boundaries(r, n as nat) {
                None => None,
                Some((cs, r2)) => if r2.len() == 0 {
                    Some(cs)
                } else {
                    None
                },
            },
        }
    } else {
        None
    }
}

/// The decoded content of a boundary set.
pub open spec fn index_contents(bs: Seq<Boundary>) -> Seq<BoundaryContent> {
    bs.map_values(|b: Boundary| (b.reference@, b.outer@, holes_views(b)))
}

// ---------------------------------------------------------------------------
// Round trip: decoding an encoding yields the original content.
// ---------------------------------------------------------------------------

proof fn lemma_u64_bytes_round_trip(x: u64)
    ensures
        dec_u64(enc_u64(x)) == x,
{
    assert(((x & 0xff) as u8 as u64) | ((((x >> 8) & 0xff) as u8 as u64) << 8) | ((((x >> 16)
        & 0xff) as u8 as u64) << 16) | ((((x >> 24) & 0xff) as u8 as u64) << 24) | ((((x >> 32)
        & 0xff) as u8 as u64) << 32) | ((((x >> 40) & 0xff) as u8 as u64) << 40) | ((((x >> 48)
        & 0xff) as u8 as u64) << 48) | ((((x >> 56) & 0xff) as u8 as u64) << 56) == x)
        by (bit_vector);
}

proof fn lemma_i64_u64_round_trip(x: i64)
    ensures
        (x as u64) as i64 == x,
{
    assert((x as u64) as i64 == x) by (bit_vector);
}

proof fn lemma_sdec_u64_enc(x: u64, rest: Seq<u8>)
    ensures
        sdec_u64(enc_u64(x) + rest) == Some((x, rest)),
{
    let s = enc_u64(x) + rest;
    assert(s.take(8) =~= enc_u64(x));
    assert(s.skip(8) =~= rest);
    lemma_u64_bytes_round_trip(x);
}

proof fn lemma_sdec_point_enc(p: GeoPoint, rest: Seq<u8>)
    ensures
        sdec_point(enc_point(p) + rest) == Some((p, rest)),
{
    let s = enc_point(p) + rest;
    assert(s =~= enc_u64(p.lat as u64) + (enc_u64(p.lon as u64) + rest));
    lemma_sdec_u64_enc(p.lat as u64, enc_u64(p.lon as u64) + rest);
    lemma_sdec_u64_enc(p.lon as u64, rest);
    lemma_i64_u64_round_trip(p.lat);
    lemma_i64_u64_round_trip(p.lon);
}

proof fn lemma_sdec_points_enc(ring: Seq<GeoPoint>, rest: Seq<u8>)
    ensures
        sdec_points(enc_points(ring) + rest, ring.len()) == Some((ring, rest)),
    decreases ring.len(),
{
    if ring.len() == 0 {
        assert(enc_points(ring) + rest =~= rest);
        assert(Seq::<GeoPoint>::empty() =~= ring);
    } else {
        let s = enc_points(ring) + rest;
        let tail = ring.drop_first();
        assert(s =~= enc_point(ring[0]) + (enc_points(tail) + rest));
        lemma_sdec_point_enc(ring[0], enc_points(tail) + rest);
        lemma_sdec_points_enc(tail, rest);
        assert(seq![ring[0]] + tail =~= ring);
    }
}

proof fn lemma_sdec_ring_enc(ring: Seq<GeoPoint>, rest: Seq<u8>)
    requires
        ring_wf(ring),
    ensures
        sdec_ring(enc_ring(ring) + rest) == Some((ring, rest)),
{
    let s = enc_ring(ring) + rest;
    assert(s =~= enc_u64(ring.len() as u64) + (enc_points(ring) + rest));
    lemma_sdec_u64_enc(ring.len() as u64, enc_points(ring) + rest);
    lemma_sdec_points_enc(ring, rest);
}

proof fn lemma_sdec_str_enc(chars: Seq<char>, rest: Seq<u8>)
    requires
        encode_utf8(chars).len() <= u64::MAX,
    ensures
        sdec_str(enc_str(chars) + rest) == Some((chars, rest)),
{
    let bytes = encode_utf8(chars);
    let s = enc_str(chars) + rest;
    assert(s =~= enc_u64(bytes.len() as u64) + (bytes + rest));
    lemma_sdec_u64_enc(bytes.len() as u64, bytes + rest);
    assert((bytes + rest).take(bytes.len() as int) =~= bytes);
    assert((bytes + rest).skip(bytes.len() as int) =~= rest);
    encode_utf8_valid_utf8(chars);
    encode_utf8_decode_utf8(chars);
}

proof fn lemma_sdec_rings_enc(rs: Seq<Seq<GeoPoint>>, rest: Seq<u8>)
    requires
        forall|i: int| 0 <= i < rs.len() ==> ring_wf(#[trigger] rs[i]),
    ensures
        sdec_rings(enc_rings(rs) + rest, rs.len()) == Some((rs, rest)),
    decreases rs.len(),
{
    if rs.len() == 0 {
        assert(enc_rings(rs) + rest =~= rest);
        assert(Seq::<Seq<GeoPoint>>::empty() =~= rs);
    } else {
        let s = enc_rings(rs) + rest;
        let tail = rs.drop_first();
        assert(s =~= enc_ring(rs[0]) + (enc_rings(tail) + rest));
        lemma_sdec_ring_enc(rs[0], enc_rings(tail) + rest);
        assert(forall|i: int| 0 <= i < tail.len() ==> ring_wf(#[trigger] tail[i]));
        lemma_sdec_rings_enc(tail, rest);
        assert(seq![rs[0]] + tail =~= rs);
    }
}

proof fn lemma_sdec_boundary_enc(b: Boundary, rest: Seq<u8>)
    requires
        b.wf(),
        enc_sizes_ok(b),
    ensures
        sdec_boundary(enc_boundary(b) + rest) == Some(
            ((b.reference@, b.outer@, holes_views(b)), rest),
        ),
{
    let hv = holes_views(b);
    let s = enc_boundary(b) + rest;
    let r1 = enc_ring(b.outer@) + (enc_u64(b.holes@.len() as u64) + (enc_rings(hv) + rest));
    let r2 = enc_u64(b.holes@.len() as u64) + (enc_rings(hv) + rest);
    let r3 = enc_rings(hv) + rest;
    assert(s =~= enc_str(b.reference@) + r1);
    lemma_sdec_str_enc(b.reference@, r1);
    lemma_sdec_ring_enc(b.outer@, r2);
    lemma_sdec_u64_enc(b.holes@.len() as u64, r3);
    assert(forall|i: int| 0 <= i < hv.len() ==> ring_wf(#[trigger] hv[i]));
    lemma_sdec_rings_enc(hv, rest);
}

#[verifier::rlimit(100)]
#[verifier::spinoff_prover]
proof fn lemma_sdec_boundaries_enc(bs: Seq<Boundary>, rest: Seq<u8>)
    requires
        forall|i: int| 0 <= i < bs.len() ==> (#[trigger] bs[i]).wf(),
        forall|i: int| 0 <= i < bs.len() ==> enc_sizes_ok(#[trigger] bs[i]),
    ensures
        sdec_boundaries(enc_boundaries(bs) + rest, bs.len()) == Some((index_contents(bs), rest)),
    decreases bs.len(),
{
    if bs.len() == 0 {
        assert(enc_boundaries(bs) + rest =~= rest);
        assert(index_contents(bs) =~= Seq::<BoundaryContent>::empty());
    } else {
        let s = enc_boundaries(bs) + rest;
        let tail = bs.drop_first();
        assert(s =~= enc_boundary(bs[0]) + (enc_boundaries(tail) + rest));
        lemma_sdec_boundary_enc(bs[0], enc_boundaries(tail) + rest);
        assert(forall|i: int| 0 <= i < tail.len() ==> (#[trigger] tail[i]).wf());
        assert(forall|i: int| 0 <= i < tail.len() ==> enc_sizes_ok(#[trigger] tail[i]));
        lemma_sdec_boundaries_enc(tail, rest);
        assert(seq![(bs[0].reference@, bs[0].outer@, holes_views(bs[0]))] + index_contents(tail)
            =~= index_contents(bs));
    }
}

// ---------------------------------------------------------------------------
// Executable encoder.
// ---------------------------------------------------------------------------

fn push_u64(out: &mut Vec<u8>, x: u64)
    ensures
        final(out)@ == old(out)@ + enc_u64(x),
{
    out.push((x & 0xff) as u8);
    out.push(((x >> 8) & 0xff) as u8);
    out.push(((x >> 16) & 0xff) as u8);
    out.push(((x >> 24) & 0xff) as u8);
    out.push(((x >> 32) & 0xff) as u8);
    out.push(((x >> 40) & 0xff) as u8);
    out.push(((x >> 48) & 0xff) as u8);
    out.push(((x >> 56) & 0xff) as u8);
    proof {
        assert(out@ =~= old(out)@ + enc_u64(x));
    }
}

fn push_bytes(out: &mut Vec<u8>, b: &[u8])
    ensures
        final(out)@ == old(out)@ + b@,
{
    proof {
        assert(out@ =~= old(out)@ + b@.take(0));
    }
    let mut i: usize = 0;
    while i < b.len()
        invariant
            0 <= i <= b@.len(),
            out@ == old(out)@ + b@.take(i as int),
        decreases b@.len() - i,
    {
        let x = *vstd::slice::slice_index_get(b, i);
        out.push(x);
        proof {
            assert(out@ =~= old(out)@ + b@.take(i as int + 1));
        }
        i = i + 1;
    }
    proof {
        assert(b@.take(b@.len() as int) =~= b@);
    }
}

fn push_point(out: &mut Vec<u8>, p: GeoPoint)
    ensures
        final(out)@ == old(out)@ + enc_point(p),
{
    push_u64(out, p.lat as u64);
    push_u64(out, p.lon as u64);
    proof {
        assert(out@ =~= old(out)@ + enc_point(p));
    }
}

proof fn lemma_enc_points_snoc(ring: Seq<GeoPoint>, i: int)
    requires
        0 <= i < ring.len(),
    ensures
        enc_points(ring.take(i + 1)) == enc_points(ring.take(i)) + enc_point(ring[i]),
    decreases i,
{
    if i == 0 {
        assert(ring.take(1) =~= seq![ring[0]]);
        assert(seq![ring[0]].drop_first() =~= Seq::<GeoPoint>::empty());
        assert(ring.take(0) =~= Seq::<GeoPoint>::empty());
        assert(enc_points(ring.take(1)) =~= enc_points(ring.take(0)) + enc_point(ring[0]));
    } else {
        let t = ring.drop_first();
        lemma_enc_points_snoc(t, i - 1);
        assert(ring.take(i + 1).drop_first() =~= t.take(i));
        assert(ring.take(i).drop_first() =~= t.take(i - 1));
        assert(ring.take(i + 1)[0] == ring[0]);
        assert(ring.take(i)[0] == ring[0]);
        assert(t[i - 1] == ring[i]);
        assert(enc_point(ring[0]) + (enc_points(t.take(i - 1)) + enc_point(ring[i])) =~= (
        enc_point(ring[0]) + enc_points(t.take(i - 1))) + enc_point(ring[i]));
    }
}

fn push_ring(out: &mut Vec<u8>, ring: &Vec<GeoPoint>)
    ensures
        final(out)@ == old(out)@ + enc_ring(ring@),
{
    push_u64(out, ring.len() as u64);
    let ghost base = out@;
    proof {
        assert(out@ =~= base + enc_points(ring@.take(0)));
    }
    let mut i: usize = 0;
    while i < ring.len()
        invariant
            0 <= i <= ring@.len(),
            base == old(out)@ + enc_u64(ring@.len() as u64),
            out@ == base + enc_points(ring@.take(i as int)),
        decreases ring@.len() - i,
    {
        push_point(out, ring[i]);
        proof {
            lemma_enc_points_snoc(ring@, i as int);
            assert(out@ =~= base + enc_points(ring@.take(i as int + 1)));
        }
        i = i + 1;
    }
    proof {
        assert(ring@.take(ring@.len() as int) =~= ring@);
        assert(out@ =~= old(out)@ + enc_ring(ring@));
    }
}

fn push_str(out: &mut Vec<u8>, s: &String)
    ensures
        final(out)@ == old(out)@ + enc_str(s@),
{
    let bytes: &[u8] = s.as_str().as_bytes();
    push_u64(out, bytes.len() as u64);
    push_bytes(out, bytes);
    proof {
        assert(out@ =~= old(out)@ + enc_str(s@));
    }
}

proof fn lemma_enc_rings_snoc(rs: Seq<Seq<GeoPoint>>, i: int)
    requires
        0 <= i < rs.len(),
    ensures
        enc_rings(rs.take(i + 1)) == enc_rings(rs.take(i)) + enc_ring(rs[i]),
    decreases i,
{
    if i == 0 {
        assert(rs.take(1) =~= seq![rs[0]]);
        assert(seq![rs[0]].drop_first() =~= Seq::<Seq<GeoPoint>>::empty());
        assert(rs.take(0) =~= Seq::<Seq<GeoPoint>>::empty());
        assert(enc_rings(rs.take(1)) =~= enc_rings(rs.take(0)) + enc_ring(rs[0]));
    } else {
        let t = rs.drop_first();
        lemma_enc_rings_snoc(t, i - 1);
        assert(rs.take(i + 1).drop_first() =~= t.take(i));
        assert(rs.take(i).drop_first() =~= t.take(i - 1));
        assert(rs.take(i + 1)[0] == rs[0]);
        assert(rs.take(i)[0] == rs[0]);
        assert(t[i - 1] == rs[i]);
        assert(enc_ring(rs[0]) + (enc_rings(t.take(i - 1)) + enc_ring(rs[i])) =~= (enc_ring(
            rs[0],
        ) + enc_rings(t.take(i - 1))) + enc_ring(rs[i]));
    }
}

fn push_boundary(out: &mut Vec<u8>, b: &Boundary)
    ensures
        final(out)@ == old(out)@ + enc_boundary(*b),
{
    push_str(out, &b.reference);
    push_ring(out, &b.outer);
    push_u64(out, b.holes.len() as u64);
    let ghost hv = holes_views(*b);
    let ghost base = out@;
    proof {
        assert(out@ =~= base + enc_rings(hv.take(0)));
    }
    let mut i: usize = 0;
    while i < b.holes.len()
        invariant
            0 <= i <= b.holes@.len(),
            hv == holes_views(*b),
            hv.len() == b.holes@.len(),
            base == old(out)@ + enc_str(b.reference@) + enc_ring(b.outer@) + enc_u64(
                b.holes@.len() as u64,
            ),
            out@ == base + enc_rings(hv.take(i as int)),
        decreases b.holes@.len() - i,
    {
        push_ring(out, &b.holes[i]);
        proof {
            lemma_enc_rings_snoc(hv, i as int);
            assert(hv[i as int] == b.holes@[i as int]@);
            assert(out@ =~= base + enc_rings(hv.take(i as int + 1)));
        }
        i = i + 1;
    }
    proof {
        assert(hv.take(hv.len() as int) =~= hv);
        assert(out@ =~= old(out)@ + enc_boundary(*b));
    }
}

proof fn lemma_enc_boundaries_snoc(bs: Seq<Boundary>, i: int)
    requires
        0 <= i < bs.len(),
    ensures
        enc_boundaries(bs.take(i + 1)) == enc_boundaries(bs.take(i)) + enc_boundary(bs[i]),
    decreases i,
{
    if i == 0 {
        assert(bs.take(1) =~= seq![bs[0]]);
        assert(seq![bs[0]].drop_first() =~= Seq::<Boundary>::empty());
        assert(bs.take(0) =~= Seq::<Boundary>::empty());
        assert(enc_boundaries(bs.take(1)) =~= enc_boundaries(bs.take(0)) + enc_boundary(bs[0]));
    } else {
        let t = bs.drop_first();
        lemma_enc_boundaries_snoc(t, i - 1);
        assert(bs.take(i + 1).drop_first() =~= t.take(i));
        assert(bs.take(i).drop_first() =~= t.take(i - 1));
        assert(bs.take(i + 1)[0] == bs[0]);
        assert(bs.take(i)[0] == bs[0]);
        assert(t[i - 1] == bs[i]);
        assert(enc_boundary(bs[0]) + (enc_boundaries(t.take(i - 1)) + enc_boundary(bs[i])) =~= (
        enc_boundary(bs[0]) + enc_boundaries(t.take(i - 1))) + enc_boundary(bs[i]));
    }
}

/// Encodes the full boundary set as a cache artifact.
pub fn encode_index(ix: &GeoIndex) -> (out: Vec<u8>)
    ensures
        out@ == enc_index(ix.boundaries@),
{
    let mut out: Vec<u8> = Vec::new();
    out.push(0x47);
    out.push(0x49);
    out.push(0x58);
    out.push(0x01);
    proof {
        assert(out@ =~= version_tag());
    }
    push_u64(&mut out, ix.boundaries.len() as u64);
    let ghost base = out@;
    proof {
        assert(out@ =~= base + enc_boundaries(ix.boundaries@.take(0)));
    }
    let mut i: usize = 0;
    while i < ix.boundaries.len()
        invariant
            0 <= i <= ix.boundaries@.len(),
            base == version_tag() + enc_u64(ix.boundaries@.len() as u64),
            out@ == base + enc_boundaries(ix.boundaries@.take(i as int)),
        decreases ix.boundaries@.len() - i,
    {
        push_boundary(&mut out, &ix.boundaries[i]);
        proof {
            lemma_enc_boundaries_snoc(ix.boundaries@, i as int);
            assert(out@ =~= base + enc_boundaries(ix.boundaries@.take(i as int + 1)));
        }
        i = i + 1;
    }
    proof {
        assert(ix.boundaries@.take(ix.boundaries@.len() as int) =~= ix.boundaries@);
        assert(out@ =~= enc_index(ix.boundaries@));
    }
    out
}

// ---------------------------------------------------------------------------
// Executable decoder.
// ---------------------------------------------------------------------------

/// Prefixing a decoded tail with already-decoded items.
spec fn compose<T>(prefix: Seq<T>, r: Option<(Seq<T>, Seq<u8>)>) -> Option<(Seq<T>, Seq<u8>)> {
    match r {
        None => None,
        Some((items, rest)) => Some((prefix + items, rest)),
    }
}

proof fn lemma_compose_assoc<T>(prefix: Seq<T>, x: T, r: Option<(Seq<T>, Seq<u8>)>)
    ensures
        compose(prefix, compose(seq![x], r)) == compose(prefix.push(x), r),
{
    match r {
        None => {},
        Some((items, rest)) => {
            assert(prefix + (seq![x] + items) =~= prefix.push(x) + items);
        },
    }
}

/// Relies on String::from_utf8: it succeeds exactly on valid UTF-8 input,
/// returning the string spelling those bytes.
#[verifier::external_body]
pub(crate) fn string_from_utf8(v: Vec<u8>) -> (r: Option<String>)
    ensures
        r is Some <==> valid_utf8(v@),
        r matches Some(s) ==> s@ == decode_utf8(v@),
{
    String::from_utf8(v).ok()
}

fn read_u64(buf: &Vec<u8>, pos: usize) -> (r: Option<(u64, usize)>)
    requires
        pos <= buf@.len(),
    ensures
        match r {
            None => sdec_u64(buf@.skip(pos as int)) is None,
            Some((x, np)) => pos <= np <= buf@.len() && sdec_u64(buf@.skip(pos as int)) == Some(
                (x, buf@.skip(np as int)),
            ),
        },
{
    if buf.len() - pos >= 8 {
        let x = (buf[pos] as u64) | ((buf[pos + 1] as u64) << 8) | ((buf[pos + 2] as u64) << 16)
            | ((buf[pos + 3] as u64) << 24) | ((buf[pos + 4] as u64) << 32) | ((buf[pos
            + 5] as u64) << 40) | ((buf[pos + 6] as u64) << 48) | ((buf[pos + 7] as u64) << 56);
        proof {
            let s = buf@.skip(pos as int);
            assert(s.take(8)[0] == buf@[pos as int]);
            assert(s.take(8)[1] == buf@[pos as int + 1]);
            assert(s.take(8)[2] == buf@[pos as int + 2]);
            assert(s.take(8)[3] == buf@[pos as int + 3]);
            assert(s.take(8)[4] == buf@[pos as int + 4]);
            assert(s.take(8)[5] == buf@[pos as int + 5]);
            assert(s.take(8)[6] == buf@[pos as int + 6]);
            assert(s.take(8)[7] == buf@[pos as int + 7]);
            assert(s.skip(8) =~= buf@.skip(pos as int + 8));
        }
        Some((x, pos + 8))
    } else {
        None
    }
}

fn read_point(buf: &Vec<u8>, pos: usize) -> (r: Option<(GeoPoint, usize)>)
    requires
        pos <= buf@.len(),
    ensures
        match r {
            None => sdec_point(buf@.skip(pos as int)) is None,
            Some((p, np)) => pos <= np <= buf@.len() && sdec_point(buf@.skip(pos as int)) == Some(
                (p, buf@.skip(np as int)),
            ),
        },
{
    match read_u64(buf, pos) {
        None => None,
        Some((a, p1)) => match read_u64(buf, p1) {
            None => None,
            Some((b, p2)) => Some((GeoPoint { lat: a as i64, lon: b as i64 }, p2)),
        },
    }
}

/// Validates the closed-ring invariant on a decoded point sequence.
pub fn check_ring(v: &Vec<GeoPoint>) -> (r: bool)
    ensures
        r == ring_wf(v@),
{
    if v.len() < 4 || v.len() > MAX_RING_LEN {
        return false;
    }
    let first = v[0];
    let last = v[v.len() - 1];
    if first.lat != last.lat || first.lon != last.lon {
        return false;
    }
    let mut i: usize = 0;
    while i < v.len()
        invariant
            0 <= i <= v@.len(),
            forall|j: int| 0 <= j < i ==> (#[trigger] v@[j]).in_range(),
        decreases v@.len() - i,
    {
        let p = v[i];
        if p.lat < -crate::geom::LAT_LIMIT || p.lat > crate::geom::LAT_LIMIT || p.lon
            < -crate::geom::LON_LIMIT || p.lon > crate::geom::LON_LIMIT {
            return false;
        }
        i = i + 1;
    }
    true
}

fn read_ring(buf: &Vec<u8>, pos: usize) -> (r: Option<(Vec<GeoPoint>, usize)>)
    requires
        pos <= buf@.len(),
    ensures
        match r {
            None => sdec_ring(buf@.skip(pos as int)) is None,
            Some((v, np)) => pos <= np <= buf@.len() && ring_wf(v@) && sdec_ring(
                buf@.skip(pos as int),
            ) == Some((v@, buf@.skip(np as int))),
        },
{
    let (n64, p1) = match read_u64(buf, pos) {
        None => { return None },
        Some(t) => t,
    };
    if n64 > MAX_RING_LEN as u64 {
        return None;
    }
    let n = n64 as usize;
    let mut pts: Vec<GeoPoint> = Vec::new();
    let mut k: usize = 0;
    let mut cur: usize = p1;
    while k < n
        invariant
            0 <= k <= n,
            pos <= buf@.len(),
            p1 <= buf@.len(),
            pos <= cur <= buf@.len(),
            pts@.len() == k,
            n == n64,
            n64 <= MAX_RING_LEN as u64,
            sdec_u64(buf@.skip(pos as int)) == Some((n64, buf@.skip(p1 as int))),
            sdec_points(buf@.skip(p1 as int), n as nat) == compose(
                pts@,
                sdec_points(buf@.skip(cur as int), (n - k) as nat),
            ),
        decreases n - k,
    {
        match read_point(buf, cur) {
            None => {
                proof {
                    assert(sdec_points(buf@.skip(cur as int), (n - k) as nat) is None);
                }
                return None;
            },
            Some((p, np)) => {
                proof {
                    let tail = sdec_points(buf@.skip(np as int), (n - k - 1) as nat);
                    assert(sdec_points(buf@.skip(cur as int), (n - k) as nat) == compose(
                        seq![p],
                        tail,
                    ));
                    lemma_compose_assoc(pts@, p, tail);
                }
                pts.push(p);
                cur = np;
                k = k + 1;
            },
        }
    }
    proof {
        assert(sdec_points(buf@.skip(cur as int), 0) == Some(
            (Seq::<GeoPoint>::empty(), buf@.skip(cur as int)),
        ));
        assert(pts@ + Seq::<GeoPoint>::empty() =~= pts@);
    }
    if !check_ring(&pts) {
        return None;
    }
    Some((pts, cur))
}

fn read_string(buf: &Vec<u8>, pos: usize) -> (r: Option<(String, usize)>)
    requires
        pos <= buf@.len(),
    ensures
        match r {
            None => sdec_str(buf@.skip(pos as int)) is None,
            Some((s, np)) => pos <= np <= buf@.len() && sdec_str(buf@.skip(pos as int)) == Some(
                (s@, buf@.skip(np as int)),
            ),
        },
{
    let (n64, p1) = match read_u64(buf, pos) {
        None => { return None },
        Some(t) => t,
    };
    if ((buf.len() - p1) as u64) < n64 {
        return None;
    }
    let n = n64 as usize;
    let mut v: Vec<u8> = Vec::new();
    let mut j: usize = 0;
    while j < n
        invariant
            0 <= j <= n,
            pos <= buf@.len(),
            p1 + n <= buf@.len(),
            buf@.len() <= usize::MAX,
            v@.len() == j,
            n == n64,
            sdec_u64(buf@.skip(pos as int)) == Some((n64, buf@.skip(p1 as int))),
            v@ == buf@.subrange(p1 as int, p1 as int + j as int),
        decreases n - j,
    {
        v.push(buf[p1 + j]);
        proof {
            assert(v@ =~= buf@.subrange(p1 as int, p1 as int + j as int + 1));
        }
        j = j + 1;
    }
    let ghost vv = v@;
    proof {
        assert(vv =~= buf@.skip(p1 as int).take(n64 as int));
    }
    match string_from_utf8(v) {
        None => None,
        Some(s) => Some((s, p1 + n)),
    }
}

// Decoded values consume input: used to bound counts before looping.
proof fn lemma_sdec_points_rest(s: Seq<u8>, n: nat)
    ensures
        sdec_points(s, n) matches Some(t) ==> t.1.len() <= s.len(),
    decreases n,
{
    if n > 0 {
        match sdec_point(s) {
            None => {},
            Some((p, r)) => {
                lemma_sdec_points_rest(r, (n - 1) as nat);
            },
        }
    }
}

proof fn lemma_sdec_ring_rest(s: Seq<u8>)
    ensures
        sdec_ring(s) matches Some(t) ==> t.1.len() + 8 <= s.len(),
{
    match sdec_u64(s) {
        None => {},
        Some((n, r)) => {
            lemma_sdec_points_rest(r, n as nat);
        },
    }
}

proof fn lemma_sdec_rings_rest(s: Seq<u8>, n: nat)
    ensures
        sdec_rings(s, n) matches Some(t) ==> t.1.len() <= s.len(),
        sdec_rings(s, n) matches Some(t) ==> n <= s.len(),
    decreases n,
{
    if n > 0 {
        match sdec_ring(s) {
            None => {},
            Some((ring, r)) => {
                lemma_sdec_ring_rest(s);
                lemma_sdec_rings_rest(r, (n - 1) as nat);
            },
        }
    }
}

proof fn lemma_sdec_str_rest(s: Seq<u8>)
    ensures
        sdec_str(s) matches Some(t) ==> t.1.len() + 8 <= s.len(),
{
}

proof fn lemma_sdec_boundary_rest(s: Seq<u8>)
    ensures
        sdec_boundary(s) matches Some(t) ==> t.1.len() + 8 <= s.len(),
{
    match sdec_str(s) {
        None => {},
        Some((name, r1)) => {
            lemma_sdec_str_rest(s);
            match sdec_ring(r1) {
                None => {},
                Some((outer, r2)) => {
                    lemma_sdec_ring_rest(r1);
                    match sdec_u64(r2) {
                        None => {},
                        Some((hn, r3)) => {
                            lemma_sdec_rings_rest(r3, hn as nat);
                        },
                    }
                },
            }
        },
    }
}

proof fn lemma_sdec_boundaries_count(s: Seq<u8>, n: nat)
    ensures
        sdec_boundaries(s, n) matches Some(t) ==> n <= s.len(),
    decreases n,
{
    if n > 0 {
        match sdec_boundary(s) {
            None => {},
            Some((c, r)) => {
                lemma_sdec_boundary_rest(s);
                lemma_sdec_boundaries_count(r, (n - 1) as nat);
            },
        }
    }
}

fn read_boundary(buf: &Vec<u8>, pos: usize) -> (r: Option<(Boundary, usize)>)
    requires
        pos <= buf@.len(),
    ensures
        match r {
            None => sdec_boundary(buf@.skip(pos as int)) is None,
            Some((b, np)) => pos <= np <= buf@.len() && b.wf() && sdec_boundary(
                buf@.skip(pos as int),
            ) == Some(((b.reference@, b.outer@, holes_views(b)), buf@.skip(np as int))),
        },
{
    let (name, p1) = match read_string(buf, pos) {
        None => { return None },
        Some(t) => t,
    };
    if name.as_str().is_empty() {
        return None;
    }
    let (outer, p2) = match read_ring(buf, p1) {
        None => { return None },
        Some(t) => t,
    };
    let (hn64, p3) = match read_u64(buf, p2) {
        None => { return None },
        Some(t) => t,
    };
    if hn64 > (buf.len() - p3) as u64 {
        proof {
            lemma_sdec_rings_rest(buf@.skip(p3 as int), hn64 as nat);
        }
        return None;
    }
    let hn = hn64 as usize;
    let mut holes: Vec<Vec<GeoPoint>> = Vec::new();
    let mut k: usize = 0;
    let mut cur: usize = p3;
    while k < hn
        invariant
            0 <= k <= hn,
            pos <= buf@.len(),
            pos <= cur <= buf@.len(),
            holes@.len() == k,
            hn == hn64,
            sdec_str(buf@.skip(pos as int)) == Some((name@, buf@.skip(p1 as int))),
            name@.len() > 0,
            sdec_ring(buf@.skip(p1 as int)) == Some((outer@, buf@.skip(p2 as int))),
            ring_wf(outer@),
            sdec_u64(buf@.skip(p2 as int)) == Some((hn64, buf@.skip(p3 as int))),
            forall|i: int| 0 <= i < holes@.len() ==> ring_wf(#[trigger] holes@[i]@),
            sdec_rings(buf@.skip(p3 as int), hn as nat) == compose(
                holes@.map_values(|v: Vec<GeoPoint>| v@),
                sdec_rings(buf@.skip(cur as int), (hn - k) as nat),
            ),
        decreases hn - k,
    {
        match read_ring(buf, cur) {
            None => {
                proof {
                    assert(sdec_rings(buf@.skip(cur as int), (hn - k) as nat) is None);
                }
                return None;
            },
            Some((ring, np)) => {
                proof {
                    let tail = sdec_rings(buf@.skip(np as int), (hn - k - 1) as nat);
                    assert(sdec_rings(buf@.skip(cur as int), (hn - k) as nat) == compose(
                        seq![ring@],
                        tail,
                    ));
                    lemma_compose_assoc(holes@.map_values(|v: Vec<GeoPoint>| v@), ring@, tail);
                    assert(holes@.map_values(|v: Vec<GeoPoint>| v@).push(ring@) =~= holes@.push(
                        ring,
                    ).map_values(|v: Vec<GeoPoint>| v@));
                }
                holes.push(ring);
                cur = np;
                k = k + 1;
            },
        }
    }
    proof {
        assert(sdec_rings(buf@.skip(cur as int), 0) == Some(
            (Seq::<Seq<GeoPoint>>::empty(), buf@.skip(cur as int)),
        ));
        assert(holes@.map_values(|v: Vec<GeoPoint>| v@) + Seq::<Seq<GeoPoint>>::empty()
            =~= holes@.map_values(|v: Vec<GeoPoint>| v@));
    }
    let b = Boundary::new(name, outer, holes);
    proof {
        assert(holes_views(b) =~= b.holes@.map_values(|v: Vec<GeoPoint>| v@));
    }
    Some((b, cur))
}

/// Decodes a cache artifact back into an index, verifying the
/// format-version tag and every structural invariant; any mismatch or
/// corruption is an error, never a partial index.
pub fn decode_index(buf: &Vec<u8>) -> (r: Result<GeoIndex, CacheError>)
    ensures
        r matches Ok(ix) ==> ix.wf() && sdec_index(buf@) == Some(index_contents(ix.boundaries@)),
        r is Err <==> sdec_index(buf@) is None,
        !(buf@.len() >= 4 && buf@.take(4) == version_tag()) ==> r == Err::<
            GeoIndex,
            CacheError,
        >(CacheError::VersionMismatch),
{
    if buf.len() < 4 {
        return Err(CacheError::VersionMismatch);
    }
    let tag_ok = buf[0] == 0x47 && buf[1] == 0x49 && buf[2] == 0x58 && buf[3] == 0x01;
    proof {
        assert(buf@.take(4)[0] == buf@[0]);
        assert(buf@.take(4)[1] == buf@[1]);
        assert(buf@.take(4)[2] == buf@[2]);
        assert(buf@.take(4)[3] == buf@[3]);
        if buf@[0] == 0x47 && buf@[1] == 0x49 && buf@[2] == 0x58 && buf@[3] == 0x01 {
            assert(buf@.take(4) =~= version_tag());
        } else {
            assert(buf@.take(4) != version_tag());
        }
    }
    if !tag_ok {
        return Err(CacheError::VersionMismatch);
    }
    let (n64, p1) = match read_u64(buf, 4) {
        None => { return Err(CacheError::Corrupt) },
        Some(t) => t,
    };
    if n64 > (buf.len() - p1) as u64 {
        proof {
            lemma_sdec_boundaries_count(buf@.skip(p1 as int), n64 as nat);
        }
        return Err(CacheError::Corrupt);
    }
    let n = n64 as usize;
    let mut bvec: Vec<Boundary> = Vec::new();
    let mut k: usize = 0;
    let mut cur: usize = p1;
    while k < n
        invariant
            0 <= k <= n,
            cur <= buf@.len(),
            bvec@.len() == k,
            n == n64,
            buf@.len() >= 4,
            buf@.take(4) == version_tag(),
            sdec_u64(buf@.skip(4)) == Some((n64, buf@.skip(p1 as int))),
            forall|i: int| 0 <= i < bvec@.len() ==> (#[trigger] bvec@[i]).wf(),
            sdec_boundaries(buf@.skip(p1 as int), n as nat) == compose(
                index_contents(bvec@),
                sdec_boundaries(buf@.skip(cur as int), (n - k) as nat),
            ),
        decreases n - k,
    {
        match read_boundary(buf, cur) {
            None => {
                proof {
                    assert(sdec_boundaries(buf@.skip(cur as int), (n - k) as nat) is None);
                }
                return Err(CacheError::Corrupt);
            },
            Some((b, np)) => {
                proof {
                    let tail = sdec_boundaries(buf@.skip(np as int), (n - k - 1) as nat);
                    assert(sdec_boundaries(buf@.skip(cur as int), (n - k) as nat) == compose(
                        seq![(b.reference@, b.outer@, holes_views(b))],
                        tail,
                    ));
                    lemma_compose_assoc(
                        index_contents(bvec@),
                        (b.reference@, b.outer@, holes_views(b)),
                        tail,
                    );
                    assert(index_contents(bvec@).push((b.reference@, b.outer@, holes_views(b)))
                        =~= index_contents(bvec@.push(b)));
                }
                bvec.push(b);
                cur = np;
                k = k + 1;
            },
        }
    }
    if cur != buf.len() {
        proof {
            assert(buf@.skip(cur as int).len() > 0);
        }
        return Err(CacheError::Corrupt);
    }
    proof {
        assert(sdec_boundaries(buf@.skip(cur as int), 0) == Some(
            (Seq::<BoundaryContent>::empty(), buf@.skip(cur as int)),
        ));
        assert(index_contents(bvec@) + Seq::<BoundaryContent>::empty() =~= index_contents(bvec@));
        assert(buf@.skip(cur as int).len() == 0);
    }
    Ok(GeoIndex::from_boundaries(bvec))
}

/// Round trip: decoding an encoded index yields exactly the original
/// boundaries' reference strings, outer rings and holes, in order.
pub proof fn lemma_cache_round_trip(bs: Seq<Boundary>)
    requires
        forall|i: int| 0 <= i < bs.len() ==> (#[trigger] bs[i]).wf(),
        forall|i: int| 0 <= i < bs.len() ==> enc_sizes_ok(#[trigger] bs[i]),
        bs.len() <= u64::MAX,
    ensures
        sdec_index(enc_index(bs)) == Some(index_contents(bs)),
{
    let s = enc_index(bs);
    assert(s.take(4) =~= version_tag());
    assert(s.skip(4) =~= enc_u64(bs.len() as u64) + enc_boundaries(bs));
    lemma_sdec_u64_enc(bs.len() as u64, enc_boundaries(bs));
    lemma_sdec_boundaries_enc(bs, Seq::<u8>::empty());
    assert(enc_boundaries(bs) + Seq::<u8>::empty() =~= enc_boundaries(bs));
}

} // verus!
