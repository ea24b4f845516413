//! Assembled boundaries and the spatial index answering point queries.
//!
//! A `Boundary` is a closed outer ring with zero or more hole rings, a
//! reference string, and a precomputed tight bounding box and signed area.
//! The `GeoIndex` owns the boundaries; after the build phase it is only ever
//! read, and `find` resolves a point to the most specific containing
//! boundary (smallest absolute area, earliest inserted on an exact tie).

use vstd::prelude::*;

use crate::geom::{
    abs_area, abs_i, bbox_of_ring, ring_area2, ring_area2_exec, ring_bbox, ring_contains,
    ring_contains_point, ring_wf, BBox, GeoPoint, AREA2_LIMIT, LAT_LIMIT, LON_LIMIT,
};
use crate::geom;

verus! {

/// A closed area carrying an external reference string.
pub struct Boundary {
    /// External identifier (e.g. a Wikipedia title); never empty.
    pub reference: String,
    /// Closed outer ring.
    pub outer: Vec<GeoPoint>,
    /// Closed hole rings; a point inside one is not inside the boundary.
    pub holes: Vec<Vec<GeoPoint>>,
    /// Tight bounding box of the outer ring.
    pub bbox: BBox,
    /// Twice the signed area of the outer ring.
    pub area2: i128,
}

impl Boundary {
    /// Structural invariant: rings are well formed, the reference is
    /// non-empty, and the cached bounding box and area match the outer ring.
    pub open spec fn wf(self) -> bool {
        &&& self.reference@.len() > 0
        &&& ring_wf(self.outer@)
        &&& forall|i: int| 0 <= i < self.holes@.len() ==> ring_wf(#[trigger] self.holes@[i]@)
        &&& self.bbox == ring_bbox(self.outer@, self.outer@.len() as int)
        &&& self.area2 == ring_area2(self.outer@)
        &&& -AREA2_LIMIT <= self.area2 <= AREA2_LIMIT
    }

    /// Exact containment: inside the outer ring and outside every hole.
    pub open spec fn spec_contains(self, p: GeoPoint) -> bool {
        &&& ring_contains(self.outer@, p)
        &&& forall|i: int| 0 <= i < self.holes@.len() ==> !ring_contains(#[trigger] self.holes@[i]@, p)
    }

    /// Builds a boundary, computing the bounding box and signed area.
    pub fn new(reference: String, outer: Vec<GeoPoint>, holes: Vec<Vec<GeoPoint>>) -> (r:
        Boundary)
        requires
            reference@.len() > 0,
            ring_wf(outer@),
            forall|i: int| 0 <= i < holes@.len() ==> ring_wf(#[trigger] holes@[i]@),
        ensures
            r.wf(),
            r.reference == reference,
            r.outer == outer,
            r.holes == holes,
    {
        let bbox = bbox_of_ring(&outer);
        let area2 = ring_area2_exec(&outer);
        Boundary { reference, outer, holes, bbox, area2 }
    }

    /// Exact point-in-boundary test (outer ring minus holes).
    pub fn contains_point(&self, p: GeoPoint) -> (r: bool)
        requires
            self.wf(),
            p.in_range(),
        ensures
            r == self.spec_contains(p),
    {
        if !ring_contains_point(&self.outer, p) {
            return false;
        }
        let mut i: usize = 0;
        while i < self.holes.len()
            invariant
                self.wf(),
                p.in_range(),
                0 <= i <= self.holes.len(),
                ring_contains(self.outer@, p),
                forall|j: int| 0 <= j < i ==> !ring_contains(#[trigger] self.holes@[j]@, p),
            decreases self.holes.len() - i,
        {
            if ring_contains_point(&self.holes[i], p) {
                return false;
            }
            i = i + 1;
        }
        true
    }
}

/// Bounding-box soundness: a boundary contains a point only if its bounding
/// box contains the point, so bounding-box pruning never loses a true match.
pub proof fn lemma_bbox_soundness(b: Boundary, p: GeoPoint)
    requires
        b.wf(),
        b.spec_contains(p),
    ensures
        b.bbox.spec_contains(p),
{
    if !b.bbox.spec_contains(p) {
        geom::lemma_outside_bbox_not_contained(b.outer@, p);
    }
}

/// Hole subtraction: a point inside one of a boundary's holes is not
/// contained in the boundary, whatever the outer ring says.
pub proof fn lemma_hole_subtraction(b: Boundary, p: GeoPoint, i: int)
    requires
        0 <= i < b.holes@.len(),
        ring_contains(b.holes@[i]@, p),
    ensures
        !b.spec_contains(p),
{
}

/// Index of the most specific boundary among the first `n` that contains
/// `p`: smallest absolute area wins, and on an exact area tie the earliest
/// inserted boundary wins.
pub open spec fn spec_best(bs: Seq<Boundary>, p: GeoPoint, n: int) -> Option<int>
    decreases n,
{
    if n <= 0 {
        None
    } else {
        match spec_best(bs, p, n - 1) {
            None => if bs[n - 1].spec_contains(p) {
                Some(n - 1)
            } else {
                None
            },
            Some(j) => if bs[n - 1].spec_contains(p) && abs_i(bs[n - 1].area2 as int) < abs_i(
                bs[j].area2 as int,
            ) {
                Some(n - 1)
            } else {
                Some(j)
            },
        }
    }
}

/// The reference string answering a query on `bs` at `p`, if any.
pub open spec fn spec_find(bs: Seq<Boundary>, p: GeoPoint) -> Option<Seq<char>> {
    match spec_best(bs, p, bs.len() as int) {
        None => None,
        Some(i) => Some(bs[i].reference@),
    }
}

proof fn lemma_spec_best_characterization(bs: Seq<Boundary>, p: GeoPoint, n: int)
    requires
        0 <= n <= bs.len(),
    ensures
        spec_best(bs, p, n) is None ==> forall|j: int|
            0 <= j < n ==> !(#[trigger] bs[j]).spec_contains(p),
        spec_best(bs, p, n) matches Some(i) ==> {
            &&& 0 <= i < n
            &&& bs[i].spec_contains(p)
            &&& forall|j: int|
                0 <= j < n && (#[trigger] bs[j]).spec_contains(p) ==> (abs_i(bs[i].area2 as int)
                    < abs_i(bs[j].area2 as int) || (abs_i(bs[i].area2 as int) == abs_i(
                    bs[j].area2 as int,
                ) && i <= j))
        },
    decreases n,
{
    if n > 0 {
        lemma_spec_best_characterization(bs, p, n - 1);
    }
}

/// Specificity: when any boundary contains `p`, the answer is a boundary
/// containing `p` whose absolute area no containing boundary undercuts, and
/// which is the earliest inserted among those of equal area; when none
/// contains `p`, the answer is `None`.
pub proof fn lemma_find_most_specific(bs: Seq<Boundary>, p: GeoPoint)
    ensures
        spec_best(bs, p, bs.len() as int) is None ==> forall|j: int|
            0 <= j < bs.len() ==> !(#[trigger] bs[j]).spec_contains(p),
        spec_best(bs, p, bs.len() as int) matches Some(i) ==> {
            &&& 0 <= i < bs.len()
            &&& bs[i].spec_contains(p)
            &&& spec_find(bs, p) == Some(bs[i].reference@)
            &&& forall|j: int|
                0 <= j < bs.len() && (#[trigger] bs[j]).spec_contains(p) ==> (abs_i(
                    bs[i].area2 as int,
                ) < abs_i(bs[j].area2 as int) || (abs_i(bs[i].area2 as int) == abs_i(
                    bs[j].area2 as int,
                ) && i <= j))
        },
{
    lemma_spec_best_characterization(bs, p, bs.len() as int);
}

/// Query determinism: the answer is a function of the index content and the
/// query point alone, so two calls of `find` on the same index and point
/// return the same result.
pub proof fn lemma_query_deterministic(
    bs: Seq<Boundary>,
    p: GeoPoint,
    r1: Option<Seq<char>>,
    r2: Option<Seq<char>>,
)
    requires
        r1 == spec_find(bs, p),
        r2 == spec_find(bs, p),
    ensures
        r1 == r2,
{
}

/// The spatial index: the full set of assembled boundaries. Read-only after
/// the build phase; every query is a pure read.
pub struct GeoIndex {
    pub boundaries: Vec<Boundary>,
}

impl GeoIndex {
    /// Every held boundary satisfies its structural invariant.
    pub open spec fn wf(self) -> bool {
        forall|i: int| 0 <= i < self.boundaries@.len() ==> (#[trigger] self.boundaries@[i]).wf()
    }

    /// An empty index.
    pub fn new() -> (r: GeoIndex)
        ensures
            r.wf(),
            r.boundaries@.len() == 0,
    {
        GeoIndex { boundaries: Vec::new() }
    }

    /// Takes ownership of an assembled boundary set.
    pub fn from_boundaries(boundaries: Vec<Boundary>) -> (r: GeoIndex)
        requires
            forall|i: int| 0 <= i < boundaries@.len() ==> (#[trigger] boundaries@[i]).wf(),
        ensures
            r.wf(),
            r.boundaries == boundaries,
    {
        GeoIndex { boundaries }
    }

    /// Appends one assembled boundary during the build phase.
    pub fn add_boundary(&mut self, b: Boundary)
        requires
            old(self).wf(),
            b.wf(),
        ensures
            final(self).wf(),
            final(self).boundaries@ == old(self).boundaries@.push(b),
    {
        self.boundaries.push(b);
    }

    /// Number of boundaries held.
    pub fn len(&self) -> (r: usize)
        ensures
            r == self.boundaries@.len(),
    {
        self.boundaries.len()
    }

    /// Pruning pass: the indices of exactly those boundaries whose bounding
    /// box contains `p`, in insertion order.
    pub fn candidates(&self, p: GeoPoint) -> (r: Vec<usize>)
        ensures
            forall|k: int|
                0 <= k < r@.len() ==> #[trigger] r@[k] < self.boundaries@.len()
                    && self.boundaries@[r@[k] as int].bbox.spec_contains(p),
            forall|i: int|
                0 <= i < self.boundaries@.len()
                    && (#[trigger] self.boundaries@[i]).bbox.spec_contains(p) ==> exists|k: int|
                    0 <= k < r@.len() && #[trigger] r@[k] == i,
            forall|k1: int, k2: int| 0 <= k1 < k2 < r@.len() ==> #[trigger] r@[k1] < #[trigger] r@[k2],
    {
        let mut r: Vec<usize> = Vec::new();
        let mut i: usize = 0;
        while i < self.boundaries.len()
            invariant
                0 <= i <= self.boundaries@.len(),
                forall|k: int|
                    0 <= k < r@.len() ==> #[trigger] r@[k] < i
                        && self.boundaries@[r@[k] as int].bbox.spec_contains(p),
                forall|j: int|
                    0 <= j < i && (#[trigger] self.boundaries@[j]).bbox.spec_contains(p)
                        ==> exists|k: int| 0 <= k < r@.len() && #[trigger] r@[k] == j,
                forall|k1: int, k2: int|
                    0 <= k1 < k2 < r@.len() ==> #[trigger] r@[k1] < #[trigger] r@[k2],
            decreases self.boundaries@.len() - i,
        {
            let ghost r_old = r@;
            let hit = self.boundaries[i].bbox.contains(p);
            if hit {
                r.push(i);
            }
            proof {
                assert forall|j: int|
                    0 <= j < i + 1 && (#[trigger] self.boundaries@[j]).bbox.spec_contains(p)
                        implies exists|k: int| 0 <= k < r@.len() && #[trigger] r@[k] == j by {
                    if j < i {
                        let k = choose|k: int| 0 <= k < r_old.len() && #[trigger] r_old[k] == j;
                        assert(r@[k] == j);
                    } else {
                        assert(r@[r@.len() - 1] == i);
                    }
                }
            }
            i = i + 1;
        }
        r
    }

    /// Answers a query: the reference string of the most specific boundary
    /// exactly containing the point, or `None` when no boundary contains it.
    /// A pure read; safe under any number of concurrent callers.
    pub fn find(&self, lat: i64, lon: i64) -> (r: Option<String>)
        requires
            self.wf(),
        ensures
            r is None <==> spec_find(self.boundaries@, GeoPoint { lat, lon }) is None,
            r matches Some(s) ==> spec_find(self.boundaries@, GeoPoint { lat, lon }) == Some(s@),
    {
        let p = GeoPoint { lat, lon };
        if lat > LAT_LIMIT || lat < -LAT_LIMIT || lon > LON_LIMIT || lon < -LON_LIMIT {
            proof {
                assert forall|j: int|
                    0 <= j < self.boundaries@.len() implies !(
                #[trigger] self.boundaries@[j]).spec_contains(p) by {
                    let b = self.boundaries@[j];
                    geom::lemma_ring_bbox_range(b.outer@, b.outer@.len() as int);
                    geom::lemma_outside_bbox_not_contained(b.outer@, p);
                }
                lemma_spec_best_none(self.boundaries@, p, self.boundaries@.len() as int);
            }
            return None;
        }
        let ghost bs = self.boundaries@;
        let mut best: Option<usize> = None;
        let mut i: usize = 0;
        while i < self.boundaries.len()
            invariant
                self.wf(),
                bs == self.boundaries@,
                p.in_range(),
                p == (GeoPoint { lat, lon }),
                0 <= i <= bs.len(),
                match best {
                    None => spec_best(bs, p, i as int) is None,
                    Some(j) => j < i && spec_best(bs, p, i as int) == Some(j as int),
                },
            decreases self.boundaries@.len() - i,
        {
            let b = &self.boundaries[i];
            let mut contained = false;
            if b.bbox.contains(p) {
                contained = b.contains_point(p);
            } else {
                proof {
                    geom::lemma_outside_bbox_not_contained(b.outer@, p);
                }
            }
            if contained {
                match best {
                    None => { best = Some(i) },
                    Some(j) => {
                        if abs_area(b.area2) < abs_area(self.boundaries[j].area2) {
                            best = Some(i);
                        }
                    },
                }
            }
            i = i + 1;
        }
        match best {
            None => None,
            Some(j) => Some(self.boundaries[j].reference.as_str().to_owned()),
        }
    }
}

proof fn lemma_spec_best_none(bs: Seq<Boundary>, p: GeoPoint, n: int)
    requires
        0 <= n <= bs.len(),
        forall|j: int| 0 <= j < n ==> !(#[trigger] bs[j]).spec_contains(p),
    ensures
        spec_best(bs, p, n) is None,
    decreases n,
{
    if n > 0 {
        lemma_spec_best_none(bs, p, n - 1);
    }
}

} // verus!
