use geoindex::assemble::{
    assemble_boundaries, assemble_relation, assemble_way, MemberKind, MemberRole, Node,
    RelMember, Relation, Way,
};
use geoindex::geom::GeoPoint;
use geoindex::index::GeoIndex;

const D: i64 = 1_000_000_000;

fn p(lat_deg: i64, lon_deg: i64) -> GeoPoint {
    GeoPoint { lat: lat_deg * D, lon: lon_deg * D }
}

fn square_nodes() -> Vec<Node> {
    vec![
        Node { id: 1, point: p(40, -3) },
        Node { id: 2, point: p(40, 7) },
        Node { id: 3, point: p(50, 7) },
        Node { id: 4, point: p(50, -3) },
        Node { id: 5, point: p(44, 1) },
        Node { id: 6, point: p(44, 3) },
        Node { id: 7, point: p(46, 3) },
        Node { id: 8, point: p(46, 1) },
    ]
}

#[test]
fn closed_tagged_way_becomes_boundary() {
    let nodes = square_nodes();
    let way = Way {
        id: 100,
        node_ids: vec![1, 2, 3, 4, 1],
        reference: Some("Francia".to_string()),
    };
    let b = assemble_way(&way, &nodes).expect("closed tagged way must assemble");
    assert_eq!(b.reference, "Francia".to_string());
    assert_eq!(b.outer, vec![p(40, -3), p(40, 7), p(50, 7), p(50, -3), p(40, -3)]);
    assert!(b.holes.is_empty());
}

#[test]
fn open_way_is_discarded() {
    let nodes = square_nodes();
    let way = Way {
        id: 100,
        node_ids: vec![1, 2, 3, 4],
        reference: Some("Francia".to_string()),
    };
    assert!(assemble_way(&way, &nodes).is_none());
}

#[test]
fn way_closed_by_points_but_not_ids_is_discarded() {
    // node 9 sits exactly on node 1's point, but the id sequence is open:
    // closedness is judged on ids (first equals last), so the way is dropped
    let mut nodes = square_nodes();
    nodes.push(Node { id: 9, point: p(40, -3) });
    let way = Way {
        id: 100,
        node_ids: vec![1, 2, 3, 4, 9],
        reference: Some("Francia".to_string()),
    };
    assert!(assemble_way(&way, &nodes).is_none());
}

#[test]
fn untagged_way_is_discarded() {
    let nodes = square_nodes();
    let way = Way { id: 100, node_ids: vec![1, 2, 3, 4, 1], reference: None };
    assert!(assemble_way(&way, &nodes).is_none());
}

#[test]
fn way_with_missing_node_is_discarded() {
    let nodes = square_nodes();
    let way = Way {
        id: 100,
        node_ids: vec![1, 2, 99, 4, 1],
        reference: Some("Francia".to_string()),
    };
    assert!(assemble_way(&way, &nodes).is_none());
}

fn member(id: i64, kind: MemberKind, role: MemberRole) -> RelMember {
    RelMember { id, kind, role }
}

#[test]
fn relation_chains_split_outer_fragments() {
    // the square's outer boundary split across two way fragments
    let nodes = square_nodes();
    let ways = vec![
        Way { id: 10, node_ids: vec![1, 2, 3], reference: None },
        Way { id: 11, node_ids: vec![3, 4, 1], reference: None },
    ];
    let relations = vec![Relation {
        id: 1000,
        members: vec![
            member(10, MemberKind::WayRef, MemberRole::Outer),
            member(11, MemberKind::WayRef, MemberRole::Outer),
        ],
        reference: Some("Francia".to_string()),
    }];
    let (bs, warnings) = assemble_relation(&relations[0], &relations, &ways, &nodes);
    assert_eq!(warnings, 0);
    assert_eq!(bs.len(), 1);
    assert_eq!(bs[0].reference, "Francia".to_string());
    assert_eq!(bs[0].outer.first(), bs[0].outer.last());
    assert_eq!(bs[0].outer.len(), 5);
}

#[test]
fn relation_chains_reversed_fragment() {
    let nodes = square_nodes();
    let ways = vec![
        Way { id: 10, node_ids: vec![1, 2, 3], reference: None },
        // reversed relative to the chain direction
        Way { id: 11, node_ids: vec![1, 4, 3], reference: None },
    ];
    let relations = vec![Relation {
        id: 1000,
        members: vec![
            member(10, MemberKind::WayRef, MemberRole::Outer),
            member(11, MemberKind::WayRef, MemberRole::Outer),
        ],
        reference: Some("Francia".to_string()),
    }];
    let (bs, warnings) = assemble_relation(&relations[0], &relations, &ways, &nodes);
    assert_eq!(warnings, 0);
    assert_eq!(bs.len(), 1);
    assert_eq!(bs[0].outer.len(), 5);
}

#[test]
fn relation_with_two_closed_outer_rings_yields_two_boundaries() {
    // a multipolygon with two already-closed outer way members: one
    // boundary per outer ring, in member order, both with the reference
    let nodes = square_nodes();
    let ways = vec![
        Way { id: 10, node_ids: vec![1, 2, 3, 4, 1], reference: None },
        Way { id: 11, node_ids: vec![5, 6, 7, 8, 5], reference: None },
    ];
    let relations = vec![Relation {
        id: 1000,
        members: vec![
            member(10, MemberKind::WayRef, MemberRole::Outer),
            member(11, MemberKind::WayRef, MemberRole::Outer),
        ],
        reference: Some("Francia".to_string()),
    }];
    let (bs, warnings) = assemble_relation(&relations[0], &relations, &ways, &nodes);
    assert_eq!(warnings, 0);
    assert_eq!(bs.len(), 2);
    assert_eq!(bs[0].reference, "Francia".to_string());
    assert_eq!(bs[1].reference, "Francia".to_string());
    assert_eq!(bs[0].outer, vec![p(40, -3), p(40, 7), p(50, 7), p(50, -3), p(40, -3)]);
    assert_eq!(bs[1].outer, vec![p(44, 1), p(44, 3), p(46, 3), p(46, 1), p(44, 1)]);
}

#[test]
fn relation_with_hole_point_in_hole_is_none() {
    // an outer ring with an inner hole; a point inside the hole resolves to
    // nothing when no other boundary encloses it
    let nodes = square_nodes();
    let ways = vec![
        Way { id: 10, node_ids: vec![1, 2, 3, 4, 1], reference: None },
        Way { id: 11, node_ids: vec![5, 6, 7, 8, 5], reference: None },
    ];
    let relations = vec![Relation {
        id: 1000,
        members: vec![
            member(10, MemberKind::WayRef, MemberRole::Outer),
            member(11, MemberKind::WayRef, MemberRole::Inner),
        ],
        reference: Some("Francia".to_string()),
    }];
    let (bs, warnings) = assemble_boundaries(&nodes, &ways, &relations);
    assert_eq!(warnings, 0);
    assert_eq!(bs.len(), 1);
    let ix = GeoIndex::from_boundaries(bs);
    assert_eq!(ix.find(45 * D, 2 * D), None);
    assert_eq!(ix.find(48 * D, 6 * D), Some("Francia".to_string()));
}

#[test]
fn unclosable_fragment_is_dropped_with_warning() {
    let nodes = square_nodes();
    let ways = vec![Way { id: 10, node_ids: vec![1, 2, 3], reference: None }];
    let relations = vec![Relation {
        id: 1000,
        members: vec![member(10, MemberKind::WayRef, MemberRole::Outer)],
        reference: Some("Francia".to_string()),
    }];
    let (bs, warnings) = assemble_relation(&relations[0], &relations, &ways, &nodes);
    assert!(bs.is_empty());
    assert!(warnings >= 1);
}

#[test]
fn cyclic_relations_terminate_and_warn() {
    let nodes = square_nodes();
    let ways = vec![Way { id: 10, node_ids: vec![1, 2, 3, 4, 1], reference: None }];
    let relations = vec![
        Relation {
            id: 1000,
            members: vec![
                member(10, MemberKind::WayRef, MemberRole::Outer),
                member(1001, MemberKind::RelationRef, MemberRole::Other),
            ],
            reference: Some("A".to_string()),
        },
        Relation {
            id: 1001,
            members: vec![member(1000, MemberKind::RelationRef, MemberRole::Other)],
            reference: Some("B".to_string()),
        },
    ];
    let (bs, warnings) = assemble_relation(&relations[0], &relations, &ways, &nodes);
    // the outer ring still assembles; the cycle member is skipped and counted
    assert_eq!(bs.len(), 1);
    assert!(warnings >= 1);
}

#[test]
fn nested_relation_members_are_followed() {
    let nodes = square_nodes();
    let ways = vec![
        Way { id: 10, node_ids: vec![1, 2, 3], reference: None },
        Way { id: 11, node_ids: vec![3, 4, 1], reference: None },
    ];
    let relations = vec![
        Relation {
            id: 1000,
            members: vec![
                member(10, MemberKind::WayRef, MemberRole::Outer),
                member(1001, MemberKind::RelationRef, MemberRole::Other),
            ],
            reference: Some("Francia".to_string()),
        },
        Relation {
            id: 1001,
            members: vec![member(11, MemberKind::WayRef, MemberRole::Outer)],
            reference: None,
        },
    ];
    let (bs, warnings) = assemble_relation(&relations[0], &relations, &ways, &nodes);
    assert_eq!(warnings, 0);
    assert_eq!(bs.len(), 1);
    assert_eq!(bs[0].outer.len(), 5);
}

#[test]
fn assemble_boundaries_mixes_ways_and_relations() {
    let nodes = square_nodes();
    let ways = vec![
        Way {
            id: 10,
            node_ids: vec![1, 2, 3, 4, 1],
            reference: Some("Francia".to_string()),
        },
        Way { id: 11, node_ids: vec![5, 6, 7, 8, 5], reference: None },
    ];
    let relations = vec![Relation {
        id: 1000,
        members: vec![member(11, MemberKind::WayRef, MemberRole::Outer)],
        reference: Some("Ville".to_string()),
    }];
    let (bs, warnings) = assemble_boundaries(&nodes, &ways, &relations);
    assert_eq!(warnings, 0);
    assert_eq!(bs.len(), 2);
    let ix = GeoIndex::from_boundaries(bs);
    assert_eq!(ix.find(45 * D, 2 * D), Some("Ville".to_string()));
    assert_eq!(ix.find(48 * D, 6 * D), Some("Francia".to_string()));
}
