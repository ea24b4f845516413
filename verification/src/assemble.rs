//! Boundary assembly: from decoded primitives (nodes, ways, relations) to
//! closed area boundaries.
//!
//! A closed way tagged with a reference becomes a boundary directly. A
//! tagged relation is assembled as a multipolygon: outer-role way fragments
//! are chained by shared endpoints into closed rings, inner-role fragments
//! become holes attached to the outer ring whose bounding box contains
//! them, and nested relations are followed with a visited set so a cyclic
//! reference is skipped rather than looped on. Anything that cannot be
//! closed is dropped and counted, never a build failure.

use vstd::prelude::*;
use vstd::pervasive::VecAdditionalExecFns;

use crate::geom::{bbox_of_ring, ring_bbox, ring_wf, GeoPoint};
use crate::index::Boundary;

verus! {

/// A decoded point primitive.
#[derive(Clone, Copy, PartialEq, Eq, Structural, Debug)]
pub struct Node {
    pub id: i64,
    pub point: GeoPoint,
}

/// A decoded ordered point-chain primitive; closed when the first and last
/// node ids coincide.
#[derive(Clone, Debug)]
pub struct Way {
    pub id: i64,
    pub node_ids: Vec<i64>,
    /// The resolvable reference tag, when the way carries one.
    pub reference: Option<String>,
}

/// The role a member plays inside a relation.
#[derive(Clone, Copy, PartialEq, Eq, Structural, Debug)]
pub enum MemberRole {
    Outer,
    Inner,
    Other,
}

/// What kind of primitive a relation member references.
#[derive(Clone, Copy, PartialEq, Eq, Structural, Debug)]
pub enum MemberKind {
    NodeRef,
    WayRef,
    RelationRef,
}

/// One member of a relation.
#[derive(Clone, Copy, PartialEq, Eq, Structural, Debug)]
pub struct RelMember {
    pub id: i64,
    pub kind: MemberKind,
    pub role: MemberRole,
}

/// A decoded grouped-member primitive.
#[derive(Clone, Debug)]
pub struct Relation {
    pub id: i64,
    pub members: Vec<RelMember>,
    /// The resolvable reference tag, when the relation carries one.
    pub reference: Option<String>,
}

/// First node with the given id, scanning from position `i`.
pub open spec fn spec_find_node_from(nodes: Seq<Node>, id: i64, i: int) -> Option<GeoPoint>
    decreases nodes.len() - i,
{
    if i < 0 || i >= nodes.len() {
        None
    } else if nodes[i].id == id {
        Some(nodes[i].point)
    } else {
        spec_find_node_from(nodes, id, i + 1)
    }
}

/// The point of the first node carrying the given id, if any.
pub open spec fn spec_find_node(nodes: Seq<Node>, id: i64) -> Option<GeoPoint> {
    spec_find_node_from(nodes, id, 0)
}

fn find_node(nodes: &Vec<Node>, id: i64) -> (r: Option<GeoPoint>)
    ensures
        r == spec_find_node(nodes@, id),
{
    let mut i: usize = 0;
    while i < nodes.len()
        invariant
            0 <= i <= nodes@.len(),
            spec_find_node(nodes@, id) == spec_find_node_from(nodes@, id, i as int),
        decreases nodes@.len() - i,
    {
        let n = nodes[i];
        if n.id == id {
            return Some(n.point);
        }
        i = i + 1;
    }
    None
}

/// Every id resolved to its node's point, or `None` as soon as one is missing.
pub open spec fn spec_resolve(ids: Seq<i64>, nodes: Seq<Node>) -> Option<Seq<GeoPoint>>
    decreases ids.len(),
{
    if ids.len() == 0 {
        Some(Seq::<GeoPoint>::empty())
    } else {
        match spec_find_node(nodes, ids[0]) {
            None => None,
            Some(p) => match spec_resolve(ids.drop_first(), nodes) {
                None => None,
                Some(ps) => Some(seq![p] + ps),
            },
        }
    }
}

proof fn lemma_spec_resolve_snoc(ids: Seq<i64>, nodes: Seq<Node>, i: int)
    requires
        0 <= i < ids.len(),
        spec_find_node(nodes, ids[i]) is Some,
    ensures
        spec_resolve(ids.take(i + 1), nodes) == match spec_resolve(ids.take(i), nodes) {
            None => None::<Seq<GeoPoint>>,
            Some(ps) => Some(ps.push(spec_find_node(nodes, ids[i]).unwrap())),
        },
    decreases i,
{
    if i == 0 {
        assert(ids.take(1) =~= seq![ids[0]]);
        assert(seq![ids[0]].drop_first() =~= Seq::<i64>::empty());
        assert(ids.take(0) =~= Seq::<i64>::empty());
        let p = spec_find_node(nodes, ids[0]).unwrap();
        assert(seq![p] + Seq::<GeoPoint>::empty() =~= Seq::<GeoPoint>::empty().push(p));
    } else {
        let t = ids.drop_first();
        lemma_spec_resolve_snoc(t, nodes, i - 1);
        assert(ids.take(i + 1).drop_first() =~= t.take(i));
        assert(ids.take(i).drop_first() =~= t.take(i - 1));
        assert(ids.take(i + 1)[0] == ids[0]);
        assert(ids.take(i)[0] == ids[0]);
        assert(t[i - 1] == ids[i]);
        match spec_find_node(nodes, ids[0]) {
            None => {},
            Some(p0) => {
                match spec_resolve(t.take(i - 1), nodes) {
                    None => {},
                    Some(ps) => {
                        let pi = spec_find_node(nodes, ids[i]).unwrap();
                        assert(seq![p0] + ps.push(pi) =~= (seq![p0] + ps).push(pi));
                    },
                }
            },
        }
    }
}

proof fn lemma_spec_resolve_none(ids: Seq<i64>, nodes: Seq<Node>, i: int)
    requires
        0 <= i < ids.len(),
        spec_find_node(nodes, ids[i]) is None,
    ensures
        spec_resolve(ids, nodes) is None,
    decreases i,
{
    if i == 0 {
    } else {
        lemma_spec_resolve_none(ids.drop_first(), nodes, i - 1);
    }
}

proof fn lemma_spec_resolve_full(ids: Seq<i64>, nodes: Seq<Node>)
    requires
        ids.len() >= 0,
    ensures
        spec_resolve(ids.take(ids.len() as int), nodes) == spec_resolve(ids, nodes),
{
    assert(ids.take(ids.len() as int) =~= ids);
}

/// Resolves a way's node ids to points; `None` exactly when some id has no
/// node in the decoded set.
fn resolve_points(ids: &Vec<i64>, nodes: &Vec<Node>) -> (r: Option<Vec<GeoPoint>>)
    ensures
        match r {
            None => spec_resolve(ids@, nodes@) is None,
            Some(v) => spec_resolve(ids@, nodes@) == Some(v@),
        },
{
    let mut v: Vec<GeoPoint> = Vec::new();
    let mut i: usize = 0;
    while i < ids.len()
        invariant
            0 <= i <= ids@.len(),
            spec_resolve(ids@.take(i as int), nodes@) == Some(v@),
        decreases ids@.len() - i,
    {
        match find_node(nodes, ids[i]) {
            None => {
                proof {
                    lemma_spec_resolve_none(ids@, nodes@, i as int);
                }
                return None;
            },
            Some(p) => {
                proof {
                    lemma_spec_resolve_snoc(ids@, nodes@, i as int);
                }
                v.push(p);
            },
        }
        i = i + 1;
    }
    proof {
        lemma_spec_resolve_full(ids@, nodes@);
    }
    Some(v)
}

/// The way's node sequence is closed: its first id equals its last id.
pub open spec fn spec_ids_closed(ids: Seq<i64>) -> bool {
    ids.len() >= 1 && ids[0] == ids[ids.len() - 1]
}

/// A way assembles into a boundary exactly when it carries a non-empty
/// reference, its node sequence is closed (first id equals last id), every
/// node id resolves, and the resolved points form a well-formed closed
/// ring.
pub open spec fn spec_way_assembles(way: Way, nodes: Seq<Node>) -> bool {
    &&& way.reference matches Some(s) && s@.len() > 0
    &&& spec_ids_closed(way.node_ids@)
    &&& spec_resolve(way.node_ids@, nodes) matches Some(ps) && ring_wf(ps)
}

/// Assembles a single tagged closed way into a boundary (no holes).
pub fn assemble_way(way: &Way, nodes: &Vec<Node>) -> (r: Option<Boundary>)
    ensures
        r is Some <==> spec_way_assembles(*way, nodes@),
        r matches Some(b) ==> {
            &&& b.wf()
            &&& way.reference matches Some(s) && b.reference@ == s@
            &&& spec_resolve(way.node_ids@, nodes@) == Some(b.outer@)
            &&& b.holes@.len() == 0
        },
{
    let reference = match &way.reference {
        None => { return None },
        Some(s) => s,
    };
    if reference.as_str().is_empty() {
        return None;
    }
    if way.node_ids.len() == 0 || way.node_ids[0] != way.node_ids[way.node_ids.len() - 1] {
        return None;
    }
    let pts = match resolve_points(&way.node_ids, nodes) {
        None => { return None },
        Some(v) => v,
    };
    if !crate::cache::check_ring(&pts) {
        return None;
    }
    Some(Boundary::new(reference.as_str().to_owned(), pts, Vec::new()))
}

fn contains_id(v: &Vec<i64>, id: i64) -> (r: bool)
    ensures
        r == v@.contains(id),
{
    let mut i: usize = 0;
    while i < v.len()
        invariant
            0 <= i <= v@.len(),
            forall|j: int| 0 <= j < i ==> v@[j] != id,
        decreases v@.len() - i,
    {
        if v[i] == id {
            return true;
        }
        i = i + 1;
    }
    proof {
        assert(forall|j: int| 0 <= j < v@.len() ==> v@[j] != id);
    }
    false
}

/// First way with the given id, scanning from position `i`.
pub open spec fn spec_find_way_from(ways: Seq<Way>, id: i64, i: int) -> Option<Way>
    decreases ways.len() - i,
{
    if i < 0 || i >= ways.len() {
        None
    } else if ways[i].id == id {
        Some(ways[i])
    } else {
        spec_find_way_from(ways, id, i + 1)
    }
}

/// The first way carrying the given id, if any.
pub open spec fn spec_find_way(ways: Seq<Way>, id: i64) -> Option<Way> {
    spec_find_way_from(ways, id, 0)
}

fn find_way<'a>(ways: &'a Vec<Way>, id: i64) -> (r: Option<&'a Way>)
    ensures
        match r {
            None => spec_find_way(ways@, id) is None,
            Some(w) => spec_find_way(ways@, id) == Some(*w),
        },
{
    let mut i: usize = 0;
    while i < ways.len()
        invariant
            0 <= i <= ways@.len(),
            spec_find_way(ways@, id) == spec_find_way_from(ways@, id, i as int),
        decreases ways@.len() - i,
    {
        if ways[i].id == id {
            return Some(&ways[i]);
        }
        i = i + 1;
    }
    None
}

fn find_relation_index(relations: &Vec<Relation>, id: i64) -> (r: Option<usize>)
    ensures
        r matches Some(i) ==> i < relations@.len() && relations@[i as int].id == id,
{
    let mut i: usize = 0;
    while i < relations.len()
        invariant
            0 <= i <= relations@.len(),
        decreases relations@.len() - i,
    {
        if relations[i].id == id {
            return Some(i);
        }
        i = i + 1;
    }
    None
}

/// Saturating add, for warning counters.
fn sat_add(a: u64, b: u64) -> (r: u64)
    ensures
        r == if a + b <= u64::MAX {
            a + b
        } else {
            u64::MAX as int
        },
{
    if a <= u64::MAX - b {
        a + b
    } else {
        u64::MAX
    }
}

/// The views of a sequence of point vectors.
pub open spec fn frag_views(v: Seq<Vec<GeoPoint>>) -> Seq<Seq<GeoPoint>> {
    v.map_values(|x: Vec<GeoPoint>| x@)
}

/// The point fragment a way member contributes: the first way carrying the
/// member's id, its node ids resolved; `None` when the way is missing or a
/// node does not resolve.
pub open spec fn spec_member_frag(m: RelMember, ways: Seq<Way>, nodes: Seq<Node>) -> Option<
    Seq<GeoPoint>,
> {
    match spec_find_way(ways, m.id) {
        None => None,
        Some(w) => spec_resolve(w.node_ids@, nodes),
    }
}

/// The fragments contributed by the first `n` members carrying the given
/// role, in member order; members whose fragment does not resolve are
/// skipped (and counted as warnings by the assembler).
pub open spec fn spec_role_frags(
    members: Seq<RelMember>,
    ways: Seq<Way>,
    nodes: Seq<Node>,
    role: MemberRole,
    n: int,
) -> Seq<Seq<GeoPoint>>
    decreases n,
{
    if n <= 0 {
        Seq::<Seq<GeoPoint>>::empty()
    } else {
        let p = spec_role_frags(members, ways, nodes, role, n - 1);
        let m = members[n - 1];
        if m.kind == MemberKind::WayRef && m.role == role {
            match spec_member_frag(m, ways, nodes) {
                None => p,
                Some(f) => p.push(f),
            }
        } else {
            p
        }
    }
}

/// No member references another relation: the relation's geometry is
/// carried entirely by its own way members.
pub open spec fn spec_direct_members(members: Seq<RelMember>) -> bool {
    forall|j: int| 0 <= j < members.len() ==> (#[trigger] members[j]).kind != MemberKind::RelationRef
}

/// Gathers the outer- and inner-role way fragments of a relation,
/// following nested relations. A member relation already on the visited
/// list (a cycle) or deeper than the fuel allows is skipped and counted as
/// a warning; so is a member way whose nodes do not resolve. Returns the
/// number of skipped members. When no member is itself a relation, the
/// gathered fragments are exactly `spec_role_frags` of the member list.
fn collect_fragments(
    rel: &Relation,
    relations: &Vec<Relation>,
    ways: &Vec<Way>,
    nodes: &Vec<Node>,
    visited: &mut Vec<i64>,
    outer_frags: &mut Vec<Vec<GeoPoint>>,
    inner_frags: &mut Vec<Vec<GeoPoint>>,
    fuel: usize,
) -> (warnings: u64)
    ensures
        spec_direct_members(rel.members@) ==> {
            &&& frag_views(final(outer_frags)@) == frag_views(old(outer_frags)@)
                + spec_role_frags(
                rel.members@,
                ways@,
                nodes@,
                MemberRole::Outer,
                rel.members@.len() as int,
            )
            &&& frag_views(final(inner_frags)@) == frag_views(old(inner_frags)@)
                + spec_role_frags(
                rel.members@,
                ways@,
                nodes@,
                MemberRole::Inner,
                rel.members@.len() as int,
            )
        },
    decreases fuel,
{
    let mut warnings: u64 = 0;
    let mut i: usize = 0;
    while i < rel.members.len()
        invariant
            0 <= i <= rel.members@.len(),
            spec_direct_members(rel.members@) ==> {
                &&& frag_views(outer_frags@) == frag_views(old(outer_frags)@) + spec_role_frags(
                    rel.members@,
                    ways@,
                    nodes@,
                    MemberRole::Outer,
                    i as int,
                )
                &&& frag_views(inner_frags@) == frag_views(old(inner_frags)@) + spec_role_frags(
                    rel.members@,
                    ways@,
                    nodes@,
                    MemberRole::Inner,
                    i as int,
                )
            },
        decreases rel.members@.len() - i,
    {
        let m = rel.members[i];
        let ghost of_old = outer_frags@;
        let ghost if_old = inner_frags@;
        match m.kind {
            MemberKind::NodeRef => {},
            MemberKind::WayRef => {
                if matches!(m.role, MemberRole::Outer) || matches!(m.role, MemberRole::Inner) {
                    match find_way(ways, m.id) {
                        None => {
                            warnings = sat_add(warnings, 1);
                        },
                        Some(w) => match resolve_points(&w.node_ids, nodes) {
                            None => {
                                warnings = sat_add(warnings, 1);
                            },
                            Some(pts) => {
                                if matches!(m.role, MemberRole::Outer) {
                                    outer_frags.push(pts);
                                    proof {
                                        assert(frag_views(outer_frags@) =~= frag_views(
                                            of_old,
                                        ).push(pts@));
                                    }
                                } else {
                                    inner_frags.push(pts);
                                    proof {
                                        assert(frag_views(inner_frags@) =~= frag_views(
                                            if_old,
                                        ).push(pts@));
                                    }
                                }
                            },
                        },
                    }
                }
            },
            MemberKind::RelationRef => {
                if fuel == 0 {
                    warnings = sat_add(warnings, 1);
                } else if contains_id(visited, m.id) {
                    // cyclic relation reference: skip this member
                    warnings = sat_add(warnings, 1);
                } else {
                    match find_relation_index(relations, m.id) {
                        None => {
                            warnings = sat_add(warnings, 1);
                        },
                        Some(ri) => {
                            visited.push(m.id);
                            let w = collect_fragments(
                                &relations[ri],
                                relations,
                                ways,
                                nodes,
                                visited,
                                outer_frags,
                                inner_frags,
                                fuel - 1,
                            );
                            warnings = sat_add(warnings, w);
                        },
                    }
                }
            },
        }
        proof {
            if spec_direct_members(rel.members@) {
                assert(rel.members@[i as int].kind != MemberKind::RelationRef);
                assert(spec_role_frags(
                    rel.members@,
                    ways@,
                    nodes@,
                    MemberRole::Outer,
                    i as int + 1,
                ) == {
                    let p = spec_role_frags(rel.members@, ways@, nodes@, MemberRole::Outer, i as int);
                    if m.kind == MemberKind::WayRef && m.role == MemberRole::Outer {
                        match spec_member_frag(m, ways@, nodes@) {
                            None => p,
                            Some(f) => p.push(f),
                        }
                    } else {
                        p
                    }
                });
                assert(spec_role_frags(
                    rel.members@,
                    ways@,
                    nodes@,
                    MemberRole::Inner,
                    i as int + 1,
                ) == {
                    let p = spec_role_frags(rel.members@, ways@, nodes@, MemberRole::Inner, i as int);
                    if m.kind == MemberKind::WayRef && m.role == MemberRole::Inner {
                        match spec_member_frag(m, ways@, nodes@) {
                            None => p,
                            Some(f) => p.push(f),
                        }
                    } else {
                        p
                    }
                });
            }
        }
        i = i + 1;
    }
    warnings
}

/// Every fragment is itself a well-formed closed ring.
pub open spec fn spec_frags_closed(frags: Seq<Seq<GeoPoint>>) -> bool {
    forall|j: int| 0 <= j < frags.len() ==> ring_wf(#[trigger] frags[j])
}

/// Chains way fragments into closed rings by matching shared endpoints,
/// reversing fragments as needed. Fragments that cannot be closed into a
/// well-formed ring are dropped and counted. Every returned ring is well
/// formed; and when every fragment is already a well-formed closed ring,
/// the output is exactly the fragments, in order.
fn chain_rings(frags: Vec<Vec<GeoPoint>>) -> (r: (Vec<Vec<GeoPoint>>, u64))
    ensures
        forall|i: int| 0 <= i < r.0@.len() ==> ring_wf(#[trigger] r.0@[i]@),
        spec_frags_closed(frag_views(frags@)) ==> frag_views(r.0@) == frag_views(frags@),
{
    let n = frags.len();
    let mut used: Vec<bool> = Vec::new();
    let mut k: usize = 0;
    while k < n
        invariant
            used@.len() == k,
            0 <= k <= n,
            forall|j: int| 0 <= j < k ==> !(#[trigger] used@[j]),
        decreases n - k,
    {
        used.push(false);
        k = k + 1;
    }
    let mut rings: Vec<Vec<GeoPoint>> = Vec::new();
    let mut dropped: u64 = 0;
    let mut s: usize = 0;
    while s < n
        invariant
            n == frags@.len(),
            used@.len() == n,
            0 <= s <= n,
            forall|i: int| 0 <= i < rings@.len() ==> ring_wf(#[trigger] rings@[i]@),
            spec_frags_closed(frag_views(frags@)) ==> {
                &&& frag_views(rings@) == frag_views(frags@).take(s as int)
                &&& forall|j: int| 0 <= j < n ==> #[trigger] used@[j] == (j < s)
            },
        decreases n - s,
    {
        let ghost hyp = spec_frags_closed(frag_views(frags@));
        proof {
            if hyp {
                assert(ring_wf(frag_views(frags@)[s as int]));
                assert(frag_views(frags@)[s as int] == frags@[s as int]@);
            }
        }
        let start_used = used[s];
        if !start_used && frags[s].len() > 0 {
            used.set(s, true);
            let ghost used_set = used@;
            let mut ring: Vec<GeoPoint> = Vec::new();
            let mut j: usize = 0;
            let flen = frags[s].len();
            while j < flen
                invariant
                    n == frags@.len(),
                    0 <= s < n,
                    flen == frags@[s as int]@.len(),
                    flen >= 1,
                    0 <= j <= flen,
                    ring@ == frags@[s as int]@.take(j as int),
                decreases flen - j,
            {
                ring.push(frags[s][j]);
                proof {
                    assert(ring@ =~= frags@[s as int]@.take(j as int + 1));
                }
                j = j + 1;
            }
            proof {
                assert(frags@[s as int]@.take(flen as int) =~= frags@[s as int]@);
            }
            let ghost ring0 = ring@;
            let ghost used0 = used@;
            let mut open_count: usize = 0;
            let mut closed = false;
            loop
                invariant
                    n == frags@.len(),
                    used@.len() == n,
                    open_count <= n,
                    ring@.len() >= 1,
                    ring_wf(ring0) ==> ring@ == ring0 && used@ == used0,
                ensures
                    used@.len() == n,
                    ring_wf(ring0) ==> closed && ring@ == ring0 && used@ == used0,
                decreases n - open_count,
            {
                let last = ring[ring.len() - 1];
                let first = ring[0];
                if ring.len() >= 4 && first.lat == last.lat && first.lon == last.lon {
                    closed = true;
                    break;
                }
                if open_count >= n {
                    break;
                }
                // look for an unused fragment continuing at `last`
                let mut t: usize = 0;
                let mut found = false;
                proof {
                    if ring_wf(ring0) {
                        assert(ring0[0] == ring0[ring0.len() - 1]);
                        assert(false);
                    }
                }
                while t < n
                    invariant
                        n == frags@.len(),
                        used@.len() == n,
                        0 <= t <= n,
                        ring@.len() >= 1,
                        !ring_wf(ring0),
                    ensures
                        used@.len() == n,
                        ring@.len() >= 1,
                        !ring_wf(ring0),
                    decreases n - t,
                {
                    if !used[t] && frags[t].len() >= 2 {
                        let fl = frags[t].len();
                        let f_first = frags[t][0];
                        let f_last = frags[t][fl - 1];
                        if f_first.lat == last.lat && f_first.lon == last.lon {
                            used.set(t, true);
                            let mut q: usize = 1;
                            while q < fl
                                invariant
                                    n == frags@.len(),
                                    0 <= t < n,
                                    fl == frags@[t as int]@.len(),
                                    0 <= q <= fl,
                                    ring@.len() >= 1,
                                decreases fl - q,
                            {
                                ring.push(frags[t][q]);
                                q = q + 1;
                            }
                            found = true;
                            break;
                        } else if f_last.lat == last.lat && f_last.lon == last.lon {
                            used.set(t, true);
                            let mut q: usize = fl - 1;
                            while q > 0
                                invariant
                                    n == frags@.len(),
                                    0 <= t < n,
                                    fl == frags@[t as int]@.len(),
                                    0 <= q <= fl - 1,
                                    ring@.len() >= 1,
                                decreases q,
                            {
                                ring.push(frags[t][q - 1]);
                                q = q - 1;
                            }
                            found = true;
                            break;
                        }
                    }
                    t = t + 1;
                }
                if !found {
                    break;
                }
                open_count = open_count + 1;
            }
            let ghost rings_old = rings@;
            if closed && crate::cache::check_ring(&ring) {
                rings.push(ring);
            } else {
                dropped = sat_add(dropped, 1);
            }
            proof {
                if hyp {
                    assert(ring_wf(ring0));
                    assert(rings@.len() == rings_old.len() + 1);
                    assert(rings@[rings@.len() - 1]@ == ring0);
                    assert(frag_views(rings@) =~= frag_views(frags@).take(s as int + 1));
                    assert(used@ == used_set);
                    assert forall|j: int| 0 <= j < n implies #[trigger] used@[j] == (j < s
                        + 1) by {
                        if j != s {
                            assert(used@[j] == used_set[j]);
                        }
                    }
                }
            }
        } else {
            proof {
                if hyp {
                    assert(!used@[s as int]);
                    assert(frags@[s as int]@.len() >= 4);
                    assert(false);
                }
            }
        }
        s = s + 1;
    }
    proof {
        if spec_frags_closed(frag_views(frags@)) {
            assert(frag_views(frags@).take(n as int) =~= frag_views(frags@));
        }
    }
    (rings, dropped)
}

/// The hole ring's bounding box lies inside the outer ring's bounding box.
pub open spec fn spec_covers(outer: Seq<GeoPoint>, hole: Seq<GeoPoint>) -> bool
    recommends
        outer.len() >= 1,
        hole.len() >= 1,
{
    let ob = ring_bbox(outer, outer.len() as int);
    let hb = ring_bbox(hole, hole.len() as int);
    &&& ob.min_lat <= hb.min_lat
    &&& hb.max_lat <= ob.max_lat
    &&& ob.min_lon <= hb.min_lon
    &&& hb.max_lon <= ob.max_lon
}

/// The first `n` hole rings whose bounding box the outer ring's bounding
/// box covers, in order.
pub open spec fn spec_attached(holes: Seq<Seq<GeoPoint>>, outer: Seq<GeoPoint>, n: int) -> Seq<
    Seq<GeoPoint>,
>
    decreases n,
{
    if n <= 0 {
        Seq::<Seq<GeoPoint>>::empty()
    } else {
        let p = spec_attached(holes, outer, n - 1);
        if spec_covers(outer, holes[n - 1]) {
            p.push(holes[n - 1])
        } else {
            p
        }
    }
}

fn bbox_covers(outer: &Vec<GeoPoint>, hole: &Vec<GeoPoint>) -> (r: bool)
    requires
        outer@.len() >= 1,
        hole@.len() >= 1,
    ensures
        r == spec_covers(outer@, hole@),
{
    let ob = bbox_of_ring(outer);
    let hb = bbox_of_ring(hole);
    ob.min_lat <= hb.min_lat && hb.max_lat <= ob.max_lat && ob.min_lon <= hb.min_lon
        && hb.max_lon <= ob.max_lon
}

/// The relation's geometry is carried directly by its own way members, and
/// every outer- or inner-role fragment that resolves is already a closed
/// well-formed ring: the case in which assembly owes one boundary per
/// outer fragment, with the covered inner fragments as its holes.
pub open spec fn spec_relation_assembles_directly(
    rel: Relation,
    ways: Seq<Way>,
    nodes: Seq<Node>,
) -> bool {
    &&& rel.reference matches Some(s) && s@.len() > 0
    &&& spec_direct_members(rel.members@)
    &&& spec_frags_closed(
        spec_role_frags(rel.members@, ways, nodes, MemberRole::Outer, rel.members@.len() as int),
    )
    &&& spec_frags_closed(
        spec_role_frags(rel.members@, ways, nodes, MemberRole::Inner, rel.members@.len() as int),
    )
}

/// Assembles one tagged relation into zero or more boundaries: one per
/// closed outer ring, each carrying the relation's reference and the holes
/// whose bounding box its outer ring's bounding box covers. The second
/// result is the count of dropped members and unclosable rings. When the
/// relation assembles directly, the output is pinned exactly: one boundary
/// per outer fragment, in member order, holding the covered inner
/// fragments as holes.
pub fn assemble_relation(
    rel: &Relation,
    relations: &Vec<Relation>,
    ways: &Vec<Way>,
    nodes: &Vec<Node>,
) -> (r: (Vec<Boundary>, u64))
    ensures
        forall|i: int| 0 <= i < r.0@.len() ==> (#[trigger] r.0@[i]).wf(),
        forall|i: int|
            0 <= i < r.0@.len() ==> (rel.reference matches Some(s) && (#[trigger] r.0@[
            i]).reference@ == s@),
        rel.reference is None ==> r.0@.len() == 0,
        spec_relation_assembles_directly(*rel, ways@, nodes@) ==> {
            let om = spec_role_frags(
                rel.members@,
                ways@,
                nodes@,
                MemberRole::Outer,
                rel.members@.len() as int,
            );
            let im = spec_role_frags(
                rel.members@,
                ways@,
                nodes@,
                MemberRole::Inner,
                rel.members@.len() as int,
            );
            &&& r.0@.len() == om.len()
            &&& forall|k: int|
                0 <= k < om.len() ==> (#[trigger] r.0@[k]).outer@ == om[k] && frag_views(
                    r.0@[k].holes@,
                ) == spec_attached(im, om[k], im.len() as int)
        },
{
    let reference = match &rel.reference {
        None => { return (Vec::new(), 0) },
        Some(s) => s,
    };
    if reference.as_str().is_empty() {
        return (Vec::new(), 0);
    }
    let ghost hyp = spec_relation_assembles_directly(*rel, ways@, nodes@);
    let ghost om = spec_role_frags(
        rel.members@,
        ways@,
        nodes@,
        MemberRole::Outer,
        rel.members@.len() as int,
    );
    let ghost im = spec_role_frags(
        rel.members@,
        ways@,
        nodes@,
        MemberRole::Inner,
        rel.members@.len() as int,
    );
    let mut visited: Vec<i64> = Vec::new();
    visited.push(rel.id);
    let mut outer_frags: Vec<Vec<GeoPoint>> = Vec::new();
    let mut inner_frags: Vec<Vec<GeoPoint>> = Vec::new();
    let fuel = relations.len();
    let mut warnings = collect_fragments(
        rel,
        relations,
        ways,
        nodes,
        &mut visited,
        &mut outer_frags,
        &mut inner_frags,
        fuel,
    );
    proof {
        if hyp {
            assert(frag_views(Seq::<Vec<GeoPoint>>::empty()) =~= Seq::<Seq<GeoPoint>>::empty());
            assert(frag_views(outer_frags@) =~= om);
            assert(frag_views(inner_frags@) =~= im);
        }
    }
    let (outer_rings, d1) = chain_rings(outer_frags);
    let (hole_rings, d2) = chain_rings(inner_frags);
    warnings = sat_add(warnings, d1);
    warnings = sat_add(warnings, d2);
    let mut out: Vec<Boundary> = Vec::new();
    let mut i: usize = 0;
    while i < outer_rings.len()
        invariant
            0 <= i <= outer_rings@.len(),
            forall|k: int| 0 <= k < outer_rings@.len() ==> ring_wf(#[trigger] outer_rings@[k]@),
            forall|k: int| 0 <= k < hole_rings@.len() ==> ring_wf(#[trigger] hole_rings@[k]@),
            forall|k: int| 0 <= k < out@.len() ==> (#[trigger] out@[k]).wf(),
            forall|k: int|
                0 <= k < out@.len() ==> (rel.reference matches Some(s) && (#[trigger] out@[
            k]).reference@ == s@),
            rel.reference is Some,
            reference@ == rel.reference.unwrap()@,
            reference@.len() > 0,
            hyp == spec_relation_assembles_directly(*rel, ways@, nodes@),
            om == spec_role_frags(
                rel.members@,
                ways@,
                nodes@,
                MemberRole::Outer,
                rel.members@.len() as int,
            ),
            im == spec_role_frags(
                rel.members@,
                ways@,
                nodes@,
                MemberRole::Inner,
                rel.members@.len() as int,
            ),
            hyp ==> {
                &&& frag_views(outer_rings@) == om
                &&& frag_views(hole_rings@) == im
                &&& out@.len() == i
                &&& forall|k: int|
                    0 <= k < i ==> (#[trigger] out@[k]).outer@ == om[k] && frag_views(
                        out@[k].holes@,
                    ) == spec_attached(im, om[k], im.len() as int)
            },
        decreases outer_rings@.len() - i,
    {
        let outer = &outer_rings[i];
        let mut holes: Vec<Vec<GeoPoint>> = Vec::new();
        let mut h: usize = 0;
        while h < hole_rings.len()
            invariant
                0 <= h <= hole_rings@.len(),
                0 <= i < outer_rings@.len(),
                outer@ == outer_rings@[i as int]@,
                forall|k: int| 0 <= k < outer_rings@.len() ==> ring_wf(
                    #[trigger] outer_rings@[k]@,
                ),
                forall|k: int| 0 <= k < hole_rings@.len() ==> ring_wf(#[trigger] hole_rings@[k]@),
                forall|k: int| 0 <= k < holes@.len() ==> ring_wf(#[trigger] holes@[k]@),
                hyp == spec_relation_assembles_directly(*rel, ways@, nodes@),
                om == spec_role_frags(
                    rel.members@,
                    ways@,
                    nodes@,
                    MemberRole::Outer,
                    rel.members@.len() as int,
                ),
                im == spec_role_frags(
                    rel.members@,
                    ways@,
                    nodes@,
                    MemberRole::Inner,
                    rel.members@.len() as int,
                ),
                hyp ==> {
                    &&& frag_views(outer_rings@) == om
                    &&& frag_views(hole_rings@) == im
                    &&& outer@ == om[i as int]
                    &&& frag_views(holes@) == spec_attached(im, om[i as int], h as int)
                },
            decreases hole_rings@.len() - h,
        {
            let hole = &hole_rings[h];
            proof {
                assert(ring_wf(outer_rings@[i as int]@));
                assert(ring_wf(hole_rings@[h as int]@));
            }
            let ghost holes_old = holes@;
            let covered = bbox_covers(outer, hole);
            if covered {
                let mut copy: Vec<GeoPoint> = Vec::new();
                let mut q: usize = 0;
                while q < hole.len()
                    invariant
                        0 <= q <= hole@.len(),
                        copy@ == hole@.take(q as int),
                    decreases hole@.len() - q,
                {
                    copy.push(hole[q]);
                    proof {
                        assert(copy@ =~= hole@.take(q as int + 1));
                    }
                    q = q + 1;
                }
                proof {
                    assert(hole@.take(hole@.len() as int) =~= hole@);
                }
                holes.push(copy);
            }
            proof {
                if hyp {
                    assert(hole@ == frag_views(hole_rings@)[h as int]);
                    assert(covered == spec_covers(om[i as int], im[h as int]));
                    if covered {
                        assert(frag_views(holes@) =~= frag_views(holes_old).push(im[h as int]));
                    }
                    assert(frag_views(holes@) == spec_attached(im, om[i as int], h as int + 1));
                }
            }
            h = h + 1;
        }
        let mut outer_copy: Vec<GeoPoint> = Vec::new();
        let mut q: usize = 0;
        while q < outer.len()
            invariant
                0 <= q <= outer@.len(),
                outer_copy@ == outer@.take(q as int),
                0 <= i < outer_rings@.len(),
                outer == &outer_rings[i as int],
            decreases outer@.len() - q,
        {
            outer_copy.push(outer[q]);
            proof {
                assert(outer_copy@ =~= outer@.take(q as int + 1));
            }
            q = q + 1;
        }
        proof {
            assert(outer@.take(outer@.len() as int) =~= outer@);
        }
        let ghost out_old = out@;
        out.push(Boundary::new(reference.as_str().to_owned(), outer_copy, holes));
        proof {
            if hyp {
                assert(out@.len() == out_old.len() + 1);
                assert(out@[i as int].outer@ == om[i as int]);
                assert(frag_views(out@[i as int].holes@) == spec_attached(
                    im,
                    om[i as int],
                    im.len() as int,
                ));
            }
        }
        i = i + 1;
    }
    (out, warnings)
}

/// The boundary assembled from way `w` stands somewhere in `out`: same
/// reference, same resolved outer ring, no holes.
pub open spec fn way_content_in(out: Seq<Boundary>, w: Way, nodes: Seq<Node>) -> bool {
    exists|k: int|
        0 <= k < out.len() && (#[trigger] out[k]).reference@ == w.reference.unwrap()@
            && spec_resolve(w.node_ids@, nodes) == Some(out[k].outer@) && out[k].holes@.len() == 0
}

/// A boundary with the relation's reference, the given outer fragment as
/// its outer ring, and the covered inner fragments as its holes stands
/// somewhere in `out`.
pub open spec fn relation_frag_in(
    out: Seq<Boundary>,
    rel: Relation,
    frag: Seq<GeoPoint>,
    im: Seq<Seq<GeoPoint>>,
) -> bool {
    exists|k: int|
        0 <= k < out.len() && (#[trigger] out[k]).reference@ == rel.reference.unwrap()@
            && out[k].outer@ == frag && frag_views(out[k].holes@) == spec_attached(
            im,
            frag,
            im.len() as int,
        )
}

/// Every boundary a directly-assembling relation owes stands somewhere in
/// `out`: for each outer fragment, a boundary with the relation's
/// reference, that fragment as its outer ring, and the covered inner
/// fragments as its holes.
pub open spec fn relation_content_in(
    out: Seq<Boundary>,
    rel: Relation,
    ways: Seq<Way>,
    nodes: Seq<Node>,
) -> bool {
    let om = spec_role_frags(rel.members@, ways, nodes, MemberRole::Outer, rel.members@.len() as int);
    let im = spec_role_frags(rel.members@, ways, nodes, MemberRole::Inner, rel.members@.len() as int);
    forall|q: int| 0 <= q < om.len() ==> relation_frag_in(out, rel, #[trigger] om[q], im)
}

/// Assembles the full primitive set: every tagged closed way and every
/// tagged relation becomes boundaries; everything else is dropped. Every
/// way that assembles, and every boundary owed by a directly-assembling
/// relation, is represented in the output. The second result counts
/// dropped members and unclosable geometries, for diagnostics.
pub fn assemble_boundaries(
    nodes: &Vec<Node>,
    ways: &Vec<Way>,
    relations: &Vec<Relation>,
) -> (r: (Vec<Boundary>, u64))
    ensures
        forall|i: int| 0 <= i < r.0@.len() ==> (#[trigger] r.0@[i]).wf(),
        forall|j: int|
            0 <= j < ways@.len() && spec_way_assembles(#[trigger] ways@[j], nodes@)
                ==> way_content_in(r.0@, ways@[j], nodes@),
        forall|j: int|
            0 <= j < relations@.len() && spec_relation_assembles_directly(
                #[trigger] relations@[j],
                ways@,
                nodes@,
            ) ==> relation_content_in(r.0@, relations@[j], ways@, nodes@),
        ways@.len() == 0 && relations@.len() == 0 ==> r.0@.len() == 0,
{
    let mut out: Vec<Boundary> = Vec::new();
    let mut warnings: u64 = 0;
    let mut i: usize = 0;
    while i < ways.len()
        invariant
            0 <= i <= ways@.len(),
            ways@.len() == 0 ==> out@.len() == 0,
            forall|k: int| 0 <= k < out@.len() ==> (#[trigger] out@[k]).wf(),
            forall|j: int|
                0 <= j < i && spec_way_assembles(#[trigger] ways@[j], nodes@) ==> way_content_in(
                    out@,
                    ways@[j],
                    nodes@,
                ),
        decreases ways@.len() - i,
    {
        let ghost out_old = out@;
        let w = &ways[i];
        match assemble_way(w, nodes) {
            None => {
                if w.reference.is_some() {
                    warnings = sat_add(warnings, 1);
                }
            },
            Some(b) => {
                out.push(b);
            },
        }
        proof {
            assert forall|j: int|
                0 <= j < i + 1 && spec_way_assembles(#[trigger] ways@[j], nodes@)
                    implies way_content_in(out@, ways@[j], nodes@) by {
                if j < i {
                    let k = choose|k: int|
                        0 <= k < out_old.len() && (#[trigger] out_old[k]).reference@ == ways@[
                        j].reference.unwrap()@ && spec_resolve(ways@[j].node_ids@, nodes@) == Some(
                            out_old[k].outer@,
                        ) && out_old[k].holes@.len() == 0;
                    assert(out@[k] == out_old[k]);
                } else {
                    assert(out@[out@.len() - 1].reference@ == ways@[j].reference.unwrap()@);
                }
            }
        }
        i = i + 1;
    }
    let mut j: usize = 0;
    while j < relations.len()
        invariant
            0 <= j <= relations@.len(),
            ways@.len() == 0 && relations@.len() == 0 ==> out@.len() == 0,
            forall|k: int| 0 <= k < out@.len() ==> (#[trigger] out@[k]).wf(),
            forall|q: int|
                0 <= q < ways@.len() && spec_way_assembles(#[trigger] ways@[q], nodes@)
                    ==> way_content_in(out@, ways@[q], nodes@),
            forall|q: int|
                0 <= q < j && spec_relation_assembles_directly(
                    #[trigger] relations@[q],
                    ways@,
                    nodes@,
                ) ==> relation_content_in(out@, relations@[q], ways@, nodes@),
        decreases relations@.len() - j,
    {
        let ghost out_old = out@;
        let (mut bs, w) = assemble_relation(&relations[j], relations, ways, nodes);
        let ghost bs0 = bs@;
        warnings = sat_add(warnings, w);
        out.append(&mut bs);
        proof {
            assert forall|q: int|
                0 <= q < ways@.len() && spec_way_assembles(#[trigger] ways@[q], nodes@)
                    implies way_content_in(out@, ways@[q], nodes@) by {
                let k = choose|k: int|
                    0 <= k < out_old.len() && (#[trigger] out_old[k]).reference@ == ways@[
                    q].reference.unwrap()@ && spec_resolve(ways@[q].node_ids@, nodes@) == Some(
                        out_old[k].outer@,
                    ) && out_old[k].holes@.len() == 0;
                assert(out@[k] == out_old[k]);
            }
            assert forall|q: int|
                0 <= q < j + 1 && spec_relation_assembles_directly(
                    #[trigger] relations@[q],
                    ways@,
                    nodes@,
                ) implies relation_content_in(out@, relations@[q], ways@, nodes@) by {
                let rq = relations@[q];
                let omq = spec_role_frags(
                    rq.members@,
                    ways@,
                    nodes@,
                    MemberRole::Outer,
                    rq.members@.len() as int,
                );
                let imq = spec_role_frags(
                    rq.members@,
                    ways@,
                    nodes@,
                    MemberRole::Inner,
                    rq.members@.len() as int,
                );
                if q < j {
                    assert(relation_content_in(out_old, rq, ways@, nodes@));
                    assert forall|p: int| 0 <= p < omq.len() implies relation_frag_in(
                        out@,
                        rq,
                        #[trigger] omq[p],
                        imq,
                    ) by {
                        assert(relation_frag_in(out_old, rq, omq[p], imq));
                        let k = choose|k: int|
                            0 <= k < out_old.len() && (#[trigger] out_old[k]).reference@
                                == rq.reference.unwrap()@ && out_old[k].outer@ == omq[p]
                                && frag_views(out_old[k].holes@) == spec_attached(
                                imq,
                                omq[p],
                                imq.len() as int,
                            );
                        assert(out@[k] == out_old[k]);
                    }
                } else {
                    assert(rq == relations@[j as int]);
                    assert forall|p: int| 0 <= p < omq.len() implies relation_frag_in(
                        out@,
                        rq,
                        #[trigger] omq[p],
                        imq,
                    ) by {
                        let k = out_old.len() + p;
                        assert(out@[k] == bs0[p]);
                        assert(bs0[p].outer@ == omq[p]);
                        assert(bs0[p].reference@ == rq.reference.unwrap()@);
                        assert(frag_views(bs0[p].holes@) == spec_attached(
                            imq,
                            omq[p],
                            imq.len() as int,
                        ));
                    }
                }
            }
        }
        j = j + 1;
    }
    (out, warnings)
}

} // verus!
