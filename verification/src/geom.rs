//! Planar geometry over integer coordinates.
//!
//! Latitudes and longitudes are held in nanodegrees (1e-9 degree), the native
//! resolution of the source extract format, so every geometric test is exact
//! integer arithmetic.

use vstd::prelude::*;

verus! {

/// 90 degrees in nanodegrees: the largest legal latitude magnitude.
pub const LAT_LIMIT: i64 = 90_000_000_000;
/// 180 degrees in nanodegrees: the largest legal longitude magnitude.
pub const LON_LIMIT: i64 = 180_000_000_000;

/// A geographic point: latitude and longitude in nanodegrees.
#[derive(Clone, Copy, PartialEq, Eq, Structural, Debug)]
pub struct GeoPoint {
    pub lat: i64,
    pub lon: i64,
}

impl GeoPoint {
    /// The point lies within the legal latitude/longitude range.
    pub open spec fn in_range(self) -> bool {
        &&& -LAT_LIMIT <= self.lat <= LAT_LIMIT
        &&& -LON_LIMIT <= self.lon <= LON_LIMIT
    }
}

/// An axis-aligned bounding rectangle in nanodegrees.
#[derive(Clone, Copy, PartialEq, Eq, Structural, Debug)]
pub struct BBox {
    pub min_lat: i64,
    pub max_lat: i64,
    pub min_lon: i64,
    pub max_lon: i64,
}

impl BBox {
    /// Point-in-box test, bounds inclusive.
    pub open spec fn spec_contains(self, p: GeoPoint) -> bool {
        &&& self.min_lat <= p.lat <= self.max_lat
        &&& self.min_lon <= p.lon <= self.max_lon
    }

    /// Every point of `ring` lies inside this box.
    pub open spec fn encloses(self, ring: Seq<GeoPoint>) -> bool {
        forall|i: int| 0 <= i < ring.len() ==> self.spec_contains(ring[i])
    }

    pub fn contains(&self, p: GeoPoint) -> (r: bool)
        ensures
            r == self.spec_contains(p),
    {
        self.min_lat <= p.lat && p.lat <= self.max_lat && self.min_lon <= p.lon
            && p.lon <= self.max_lon
    }
}

/// The tight bounding box of a non-empty ring: the componentwise min/max of
/// the first `n` points.
pub open spec fn ring_bbox(ring: Seq<GeoPoint>, n: int) -> BBox
    recommends
        1 <= n <= ring.len(),
    decreases n,
{
    if n <= 1 {
        BBox {
            min_lat: ring[0].lat,
            max_lat: ring[0].lat,
            min_lon: ring[0].lon,
            max_lon: ring[0].lon,
        }
    } else {
        let b = ring_bbox(ring, n - 1);
        let p = ring[n - 1];
        BBox {
            min_lat: if p.lat < b.min_lat { p.lat } else { b.min_lat },
            max_lat: if p.lat > b.max_lat { p.lat } else { b.max_lat },
            min_lon: if p.lon < b.min_lon { p.lon } else { b.min_lon },
            max_lon: if p.lon > b.max_lon { p.lon } else { b.max_lon },
        }
    }
}

/// Computes the tight bounding box of a non-empty ring.
pub fn bbox_of_ring(ring: &Vec<GeoPoint>) -> (r: BBox)
    requires
        ring.len() >= 1,
    ensures
        r == ring_bbox(ring@, ring.len() as int),
        r.encloses(ring@),
{
    let first = ring[0];
    let mut b = BBox {
        min_lat: first.lat,
        max_lat: first.lat,
        min_lon: first.lon,
        max_lon: first.lon,
    };
    let mut i: usize = 1;
    while i < ring.len()
        invariant
            1 <= i <= ring.len(),
            b == ring_bbox(ring@, i as int),
        decreases ring.len() - i,
    {
        let p = ring[i];
        b = BBox {
            min_lat: if p.lat < b.min_lat { p.lat } else { b.min_lat },
            max_lat: if p.lat > b.max_lat { p.lat } else { b.max_lat },
            min_lon: if p.lon < b.min_lon { p.lon } else { b.min_lon },
            max_lon: if p.lon > b.max_lon { p.lon } else { b.max_lon },
        };
        i = i + 1;
    }
    proof {
        lemma_ring_bbox_encloses(ring@, ring.len() as int);
    }
    b
}

/// The tight bounding box of a prefix encloses that prefix.
proof fn lemma_ring_bbox_encloses(ring: Seq<GeoPoint>, n: int)
    requires
        1 <= n <= ring.len(),
    ensures
        forall|i: int| 0 <= i < n ==> #[trigger] ring_bbox(ring, n).spec_contains(ring[i]),
    decreases n,
{
    if n > 1 {
        lemma_ring_bbox_encloses(ring, n - 1);
        let b = ring_bbox(ring, n - 1);
        let bn = ring_bbox(ring, n);
        assert forall|i: int| 0 <= i < n implies #[trigger] bn.spec_contains(ring[i]) by {
            if i < n - 1 {
                assert(b.spec_contains(ring[i]));
            }
        }
    }
}

/// Upper bound on the number of points a single ring may hold; keeps the
/// shoelace accumulator far away from the `i128` range.
pub const MAX_RING_LEN: usize = 100_000_000;

/// A closed ring: at least four points (three corners plus the repeated
/// first point) and the first point equals the last.
pub open spec fn ring_closed(ring: Seq<GeoPoint>) -> bool {
    &&& ring.len() >= 4
    &&& ring[0] == ring[ring.len() - 1]
}

/// Every point of the ring lies in the legal coordinate range.
pub open spec fn ring_in_range(ring: Seq<GeoPoint>) -> bool {
    forall|i: int| 0 <= i < ring.len() ==> (#[trigger] ring[i]).in_range()
}

/// A well-formed ring: closed, in range, and of bounded length.
pub open spec fn ring_wf(ring: Seq<GeoPoint>) -> bool {
    &&& ring_closed(ring)
    &&& ring_in_range(ring)
    &&& ring.len() <= MAX_RING_LEN
}

/// Cross-product term deciding on which side of the directed edge `a -> b`
/// the horizontal ray from `p` meets the edge's line.
pub open spec fn cross(a: GeoPoint, b: GeoPoint, p: GeoPoint) -> int {
    (b.lon - a.lon) * (p.lat - a.lat) - (p.lon - a.lon) * (b.lat - a.lat)
}

/// The edge `a -> b` straddles the horizontal line through `p`.
pub open spec fn edge_straddles(a: GeoPoint, b: GeoPoint, p: GeoPoint) -> bool {
    (a.lat > p.lat) != (b.lat > p.lat)
}

/// The edge `a -> b` crosses the ray going east from `p` (ray casting rule:
/// an endpoint exactly at `p`'s latitude counts as above only if strictly
/// above, which handles vertices on the ray consistently).
pub open spec fn edge_crosses_ray(a: GeoPoint, b: GeoPoint, p: GeoPoint) -> bool {
    if b.lat > p.lat && a.lat <= p.lat {
        cross(a, b, p) > 0
    } else if a.lat > p.lat && b.lat <= p.lat {
        cross(a, b, p) < 0
    } else {
        false
    }
}

/// Number of the first `n` edges of `ring` that cross the eastward ray from `p`.
pub open spec fn crossings(ring: Seq<GeoPoint>, p: GeoPoint, n: int) -> nat
    decreases n,
{
    if n <= 0 {
        0
    } else {
        crossings(ring, p, n - 1) + if edge_crosses_ray(ring[n - 1], ring[n], p) {
            1nat
        } else {
            0nat
        }
    }
}

/// Point-in-ring by ray-casting parity: `p` is inside `ring` when the
/// eastward ray from `p` crosses an odd number of edges.
pub open spec fn ring_contains(ring: Seq<GeoPoint>, p: GeoPoint) -> bool {
    crossings(ring, p, ring.len() - 1) % 2 == 1
}

/// |x * y| <= bx * by whenever |x| <= bx and |y| <= by.
pub proof fn lemma_mul_bound(x: int, y: int, bx: int, by: int)
    requires
        bx >= 0,
        by >= 0,
        -bx <= x <= bx,
        -by <= y <= by,
    ensures
        -(bx * by) <= x * y <= bx * by,
{
    assert(-(bx * by) <= x * y <= bx * by) by (nonlinear_arith)
        requires
            bx >= 0,
            by >= 0,
            -bx <= x <= bx,
            -by <= y <= by,
    ;
}

/// Evaluates `cross(a, b, p)` exactly in 128-bit arithmetic.
fn cross_exec(a: GeoPoint, b: GeoPoint, p: GeoPoint) -> (t: i128)
    requires
        a.in_range(),
        b.in_range(),
        p.in_range(),
    ensures
        t == cross(a, b, p),
{
    proof {
        lemma_mul_bound(
            b.lon - a.lon,
            p.lat - a.lat,
            2 * LON_LIMIT as int,
            2 * LAT_LIMIT as int,
        );
        lemma_mul_bound(
            p.lon - a.lon,
            b.lat - a.lat,
            2 * LON_LIMIT as int,
            2 * LAT_LIMIT as int,
        );
    }
    (b.lon as i128 - a.lon as i128) * (p.lat as i128 - a.lat as i128) - (p.lon as i128
        - a.lon as i128) * (b.lat as i128 - a.lat as i128)
}

/// Ray-casting point-in-ring test.
pub fn ring_contains_point(ring: &Vec<GeoPoint>, p: GeoPoint) -> (r: bool)
    requires
        ring_wf(ring@),
        p.in_range(),
    ensures
        r == ring_contains(ring@, p),
{
    let n = ring.len();
    let mut inside = false;
    let mut i: usize = 0;
    while i < n - 1
        invariant
            ring_wf(ring@),
            p.in_range(),
            n == ring.len(),
            0 <= i <= n - 1,
            inside == (crossings(ring@, p, i as int) % 2 == 1),
        decreases n - 1 - i,
    {
        let a = ring[i];
        let b = ring[i + 1];
        let crosses: bool;
        if b.lat > p.lat && a.lat <= p.lat {
            crosses = cross_exec(a, b, p) > 0;
        } else if a.lat > p.lat && b.lat <= p.lat {
            crosses = cross_exec(a, b, p) < 0;
        } else {
            crosses = false;
        }
        if crosses {
            inside = !inside;
        }
        i = i + 1;
    }
    inside
}

/// One shoelace term is bounded by twice the product of the coordinate limits.
pub const SHOELACE_TERM_BOUND: i128 = 32_400_000_000_000_000_000_000;

/// Partial shoelace sum over the first `n` edges: twice the signed area of
/// the polygon fan so far.
pub open spec fn shoelace(ring: Seq<GeoPoint>, n: int) -> int
    decreases n,
{
    if n <= 0 {
        0
    } else {
        shoelace(ring, n - 1) + (ring[n - 1].lon * ring[n].lat - ring[n].lon * ring[n - 1].lat)
    }
}

/// Twice the signed area of the closed ring (shoelace formula).
pub open spec fn ring_area2(ring: Seq<GeoPoint>) -> int {
    shoelace(ring, ring.len() - 1)
}

/// Largest magnitude `ring_area2` can reach on a well-formed ring.
pub const AREA2_LIMIT: i128 = 3_240_000_000_000_000_000_000_000_000_000;

/// The partial shoelace sum grows by at most `SHOELACE_TERM_BOUND` per edge.
proof fn lemma_shoelace_bound(ring: Seq<GeoPoint>, n: int)
    requires
        ring_in_range(ring),
        0 <= n < ring.len(),
    ensures
        -(n * SHOELACE_TERM_BOUND) <= shoelace(ring, n) <= n * SHOELACE_TERM_BOUND,
    decreases n,
{
    if n > 0 {
        lemma_shoelace_bound(ring, n - 1);
        lemma_mul_bound(ring[n - 1].lon as int, ring[n].lat as int, LON_LIMIT as int, LAT_LIMIT as int);
        lemma_mul_bound(ring[n].lon as int, ring[n - 1].lat as int, LON_LIMIT as int, LAT_LIMIT as int);
    }
}

/// Computes twice the signed area of a well-formed ring.
pub fn ring_area2_exec(ring: &Vec<GeoPoint>) -> (a: i128)
    requires
        ring_wf(ring@),
    ensures
        a == ring_area2(ring@),
        -AREA2_LIMIT <= a <= AREA2_LIMIT,
{
    let n = ring.len();
    let mut acc: i128 = 0;
    let mut i: usize = 0;
    while i < n - 1
        invariant
            ring_wf(ring@),
            n == ring.len(),
            0 <= i <= n - 1,
            acc == shoelace(ring@, i as int),
            -(i as int * SHOELACE_TERM_BOUND) <= acc <= i as int * SHOELACE_TERM_BOUND,
        decreases n - 1 - i,
    {
        let a = ring[i];
        let b = ring[i + 1];
        proof {
            lemma_mul_bound(a.lon as int, b.lat as int, LON_LIMIT as int, LAT_LIMIT as int);
            lemma_mul_bound(b.lon as int, a.lat as int, LON_LIMIT as int, LAT_LIMIT as int);
        }
        acc = acc + (a.lon as i128 * b.lat as i128 - b.lon as i128 * a.lat as i128);
        i = i + 1;
    }
    proof {
        if n - 1 > 0 {
            lemma_shoelace_bound(ring@, n as int - 1);
        }
    }
    acc
}

/// Absolute value over mathematical integers.
pub open spec fn abs_i(x: int) -> int {
    if x < 0 {
        -x
    } else {
        x
    }
}

/// Absolute value of a bounded area term.
pub fn abs_area(x: i128) -> (r: i128)
    requires
        -AREA2_LIMIT <= x <= AREA2_LIMIT,
    ensures
        r == abs_i(x as int),
{
    if x < 0 {
        -x
    } else {
        x
    }
}

// ----------------------------------------------------------------------------
// Bounding-box soundness: a point outside a ring's tight bounding box is
// never inside the ring, so pruning candidates by bounding box loses nothing.
// ----------------------------------------------------------------------------

/// The tight bounding box of an in-range ring stays within the legal
/// coordinate range.
pub proof fn lemma_ring_bbox_range(ring: Seq<GeoPoint>, n: int)
    requires
        ring_in_range(ring),
        1 <= n <= ring.len(),
    ensures
        -LAT_LIMIT <= ring_bbox(ring, n).min_lat <= ring_bbox(ring, n).max_lat <= LAT_LIMIT,
        -LON_LIMIT <= ring_bbox(ring, n).min_lon <= ring_bbox(ring, n).max_lon <= LON_LIMIT,
    decreases n,
{
    if n > 1 {
        lemma_ring_bbox_range(ring, n - 1);
        assert(ring[n - 1].in_range());
    } else {
        assert(ring[0].in_range());
    }
}

/// Number of the first `n` edges that straddle the horizontal through `p`.
spec fn straddles_count(ring: Seq<GeoPoint>, p: GeoPoint, n: int) -> nat
    decreases n,
{
    if n <= 0 {
        0
    } else {
        straddles_count(ring, p, n - 1) + if edge_straddles(ring[n - 1], ring[n], p) {
            1nat
        } else {
            0nat
        }
    }
}

/// Walking a chain, the parity of straddle events equals whether the two
/// chain ends sit on different sides of the horizontal through `p`.
proof fn lemma_straddles_parity(ring: Seq<GeoPoint>, p: GeoPoint, n: int)
    requires
        0 <= n < ring.len(),
    ensures
        (straddles_count(ring, p, n) % 2 == 1) == ((ring[0].lat > p.lat) != (ring[n].lat
            > p.lat)),
    decreases n,
{
    if n > 0 {
        lemma_straddles_parity(ring, p, n - 1);
    }
}

/// If no edge crosses the ray, the crossing count is zero.
proof fn lemma_crossings_zero(ring: Seq<GeoPoint>, p: GeoPoint, n: int)
    requires
        0 <= n < ring.len(),
        forall|i: int|
            0 <= i < n ==> !edge_crosses_ray(#[trigger] ring[i], ring[i + 1], p),
    ensures
        crossings(ring, p, n) == 0,
    decreases n,
{
    if n > 0 {
        lemma_crossings_zero(ring, p, n - 1);
        assert(!edge_crosses_ray(ring[n - 1], ring[n - 1 + 1], p));
    }
}

/// If every straddling edge crosses the ray, crossings equal straddles.
proof fn lemma_crossings_eq_straddles(ring: Seq<GeoPoint>, p: GeoPoint, n: int)
    requires
        0 <= n < ring.len(),
        forall|i: int|
            0 <= i < n && edge_straddles(#[trigger] ring[i], ring[i + 1], p)
                ==> edge_crosses_ray(ring[i], ring[i + 1], p),
    ensures
        crossings(ring, p, n) == straddles_count(ring, p, n),
    decreases n,
{
    if n > 0 {
        lemma_crossings_eq_straddles(ring, p, n - 1);
        assert(edge_straddles(ring[n - 1], ring[n - 1 + 1], p) ==> edge_crosses_ray(
            ring[n - 1],
            ring[n - 1 + 1],
            p,
        ));
    }
}

/// Reversing the edge flips the sign of the cross term.
proof fn lemma_cross_antisymmetric(a: GeoPoint, b: GeoPoint, p: GeoPoint)
    ensures
        cross(b, a, p) == -cross(a, b, p),
{
    assert((a.lon - b.lon) * (p.lat - b.lat) - (p.lon - b.lon) * (a.lat - b.lat) == -((b.lon
        - a.lon) * (p.lat - a.lat) - (p.lon - a.lon) * (b.lat - a.lat))) by (nonlinear_arith);
}

/// A straddling edge whose endpoints both lie strictly east of `p` crosses
/// the eastward ray from `p`.
proof fn lemma_edge_crosses_when_east(a: GeoPoint, b: GeoPoint, p: GeoPoint)
    requires
        p.lon < a.lon,
        p.lon < b.lon,
        edge_straddles(a, b, p),
    ensures
        edge_crosses_ray(a, b, p),
{
    if b.lat > p.lat && a.lat <= p.lat {
        assert((b.lon - a.lon) * (p.lat - a.lat) - (p.lon - a.lon) * (b.lat - a.lat) > 0)
            by (nonlinear_arith)
            requires
                p.lat - a.lat >= 0,
                b.lat - p.lat > 0,
                b.lon - p.lon > 0,
                a.lon - p.lon > 0,
        ;
    } else {
        assert((a.lon - b.lon) * (p.lat - b.lat) - (p.lon - b.lon) * (a.lat - b.lat) > 0)
            by (nonlinear_arith)
            requires
                p.lat - b.lat >= 0,
                a.lat - p.lat > 0,
                b.lon - p.lon > 0,
                a.lon - p.lon > 0,
        ;
        lemma_cross_antisymmetric(a, b, p);
    }
}

/// An edge whose endpoints both lie strictly west of `p` never crosses the
/// eastward ray from `p`.
proof fn lemma_edge_misses_when_west(a: GeoPoint, b: GeoPoint, p: GeoPoint)
    requires
        p.lon > a.lon,
        p.lon > b.lon,
    ensures
        !edge_crosses_ray(a, b, p),
{
    if b.lat > p.lat && a.lat <= p.lat {
        assert((b.lon - a.lon) * (p.lat - a.lat) - (p.lon - a.lon) * (b.lat - a.lat) < 0)
            by (nonlinear_arith)
            requires
                p.lat - a.lat >= 0,
                b.lat - p.lat > 0,
                b.lon - p.lon < 0,
                a.lon - p.lon < 0,
        ;
    } else if a.lat > p.lat && b.lat <= p.lat {
        assert((a.lon - b.lon) * (p.lat - b.lat) - (p.lon - b.lon) * (a.lat - b.lat) < 0)
            by (nonlinear_arith)
            requires
                p.lat - b.lat >= 0,
                a.lat - p.lat > 0,
                b.lon - p.lon < 0,
                a.lon - p.lon < 0,
        ;
        lemma_cross_antisymmetric(a, b, p);
    }
}

/// Bounding-box soundness: a point outside the tight bounding box of a
/// closed ring is not contained in the ring.
pub proof fn lemma_outside_bbox_not_contained(ring: Seq<GeoPoint>, p: GeoPoint)
    requires
        ring_closed(ring),
        !ring_bbox(ring, ring.len() as int).spec_contains(p),
    ensures
        !ring_contains(ring, p),
{
    let n = ring.len() as int;
    let bb = ring_bbox(ring, n);
    lemma_ring_bbox_encloses(ring, n);
    if p.lat > bb.max_lat || p.lat < bb.min_lat {
        assert forall|i: int| 0 <= i < n - 1 implies !edge_crosses_ray(
            #[trigger] ring[i],
            ring[i + 1],
            p,
        ) by {
            assert(bb.spec_contains(ring[i]));
            assert(bb.spec_contains(ring[i + 1]));
        }
        lemma_crossings_zero(ring, p, n - 1);
    } else if p.lon > bb.max_lon {
        assert forall|i: int| 0 <= i < n - 1 implies !edge_crosses_ray(
            #[trigger] ring[i],
            ring[i + 1],
            p,
        ) by {
            assert(bb.spec_contains(ring[i]));
            assert(bb.spec_contains(ring[i + 1]));
            lemma_edge_misses_when_west(ring[i], ring[i + 1], p);
        }
        lemma_crossings_zero(ring, p, n - 1);
    } else {
        assert(p.lon < bb.min_lon);
        assert forall|i: int|
            0 <= i < n - 1 && edge_straddles(#[trigger] ring[i], ring[i + 1], p)
                implies edge_crosses_ray(ring[i], ring[i + 1], p) by {
            assert(bb.spec_contains(ring[i]));
            assert(bb.spec_contains(ring[i + 1]));
            lemma_edge_crosses_when_east(ring[i], ring[i + 1], p);
        }
        lemma_crossings_eq_straddles(ring, p, n - 1);
        lemma_straddles_parity(ring, p, n - 1);
    }
}

} // verus!
