//! The extractor: tag filtering, way stitching and relation assembly.

use topodex::extract::{
    assemble_polygons, build_relations, find_match, relation_filter, select_properties,
    stitch_rings,
};
use topodex::types::{RelationMember, RelationWithMembers, Way};

fn tag(k: &str, v: &str) -> (Vec<u8>, Vec<u8>) {
    (k.as_bytes().to_vec(), v.as_bytes().to_vec())
}

#[test]
fn relation_filter_matches_key_and_value() {
    let tags = vec![tag("type", "boundary"), tag("admin_level", "4")];
    let required = vec![
        (b"type".to_vec(), Some(b"boundary".to_vec())),
        (b"admin_level".to_vec(), None),
    ];
    assert!(relation_filter(&tags, &required));
}

#[test]
fn relation_filter_rejects_wrong_value() {
    let tags = vec![tag("type", "route")];
    let required = vec![(b"type".to_vec(), Some(b"boundary".to_vec()))];
    assert!(!relation_filter(&tags, &required));
}

#[test]
fn relation_filter_rejects_missing_key() {
    let tags = vec![tag("name", "Somewhere")];
    let required = vec![(b"admin_level".to_vec(), None)];
    assert!(!relation_filter(&tags, &required));
}

#[test]
fn relation_filter_accepts_empty_filter_list() {
    let tags = vec![tag("name", "Somewhere")];
    let required = Vec::new();
    assert!(relation_filter(&tags, &required));
}

#[test]
fn select_properties_keeps_and_renames() {
    let tags = vec![tag("name", "X"), tag("ISO3166-2", "AB"), tag("other", "y")];
    let props = vec![
        (b"ISO3166-2".to_vec(), Some(b"iso_code".to_vec())),
        (b"name".to_vec(), None),
    ];
    let kept = select_properties(&tags, &props);
    assert_eq!(kept.len(), 2);
    assert_eq!(kept[0], tag("name", "X"));
    assert_eq!(kept[1], tag("iso_code", "AB"));
}

#[test]
fn find_match_takes_forward_way() {
    let mut ways = vec![
        Way { id: 1, node_ids: vec![5, 6], outer: true },
        Way { id: 2, node_ids: vec![7, 8], outer: true },
    ];
    let w = find_match(&7, &mut ways).expect("way 2 joins forward");
    assert_eq!(w.id, 2);
    assert_eq!(w.node_ids, vec![7, 8]);
    assert_eq!(ways.len(), 1);
    assert_eq!(ways[0].id, 1);
}

#[test]
fn find_match_reverses_backward_way() {
    let mut ways = vec![Way { id: 1, node_ids: vec![1, 2, 3], outer: true }];
    let w = find_match(&3, &mut ways).expect("way joins by its last node");
    assert_eq!(w.node_ids, vec![3, 2, 1]);
    assert!(ways.is_empty());
}

#[test]
fn find_match_none_when_nothing_joins() {
    let mut ways = vec![Way { id: 1, node_ids: vec![1, 2], outer: true }];
    assert!(find_match(&9, &mut ways).is_none());
    assert_eq!(ways.len(), 1);
}

#[test]
fn stitch_two_ways_into_closed_ring() {
    let mut ways = vec![
        Way { id: 1, node_ids: vec![1, 2, 3], outer: true },
        Way { id: 2, node_ids: vec![3, 4, 1], outer: true },
    ];
    let rings = stitch_rings(&mut ways).expect("ring closes");
    assert_eq!(rings, vec![vec![1, 2, 3, 4, 1]]);
    assert!(ways.is_empty());
}

#[test]
fn stitch_reverses_a_backward_way() {
    let mut ways = vec![
        Way { id: 1, node_ids: vec![1, 2, 3], outer: true },
        Way { id: 2, node_ids: vec![1, 4, 3], outer: true },
    ];
    let rings = stitch_rings(&mut ways).expect("ring closes");
    assert_eq!(rings, vec![vec![1, 2, 3, 4, 1]]);
}

#[test]
fn stitch_fails_on_open_ring() {
    let mut ways = vec![Way { id: 1, node_ids: vec![1, 2, 3], outer: true }];
    assert!(stitch_rings(&mut ways).is_none());
}

#[test]
fn assemble_attaches_inner_ring_within_outer() {
    // nanodegree coordinates: outer 0..10 degrees, inner 2..3 degrees
    let d = 1_000_000_000i64;
    let outer = vec![(0, 0), (10 * d, 0), (10 * d, 10 * d), (0, 10 * d), (0, 0)];
    let inner = vec![
        (2 * d, 2 * d),
        (3 * d, 2 * d),
        (3 * d, 3 * d),
        (2 * d, 3 * d),
        (2 * d, 2 * d),
    ];
    let far = vec![
        (20 * d, 20 * d),
        (21 * d, 20 * d),
        (21 * d, 21 * d),
        (20 * d, 21 * d),
        (20 * d, 20 * d),
    ];
    let polygons = assemble_polygons(&vec![outer.clone()], &vec![inner.clone(), far]);
    assert_eq!(polygons.len(), 1);
    assert_eq!(polygons[0].exterior, outer);
    assert_eq!(polygons[0].interiors, vec![inner]);
}

#[test]
fn build_relations_assembles_square() {
    let d = 1_000_000_000i64;
    let relation = RelationWithMembers {
        id: 7,
        members: vec![RelationMember::OuterMember(1), RelationMember::OuterMember(2)],
        tags: vec![tag("iso", "AB")],
    };
    let ways = vec![(1i64, vec![10i64, 11, 12]), (2, vec![12, 13, 10])];
    let nodes = vec![
        (10i64, (0i64, 0i64)),
        (11, (10 * d, 0)),
        (12, (10 * d, 10 * d)),
        (13, (0, 10 * d)),
    ];
    let out = build_relations(&vec![relation], &ways, &nodes);
    assert_eq!(out.len(), 1);
    assert_eq!(out[0].id, 7);
    assert_eq!(out[0].tags, vec![tag("iso", "AB")]);
    assert_eq!(out[0].shape.len(), 1);
    let ring = &out[0].shape[0].exterior;
    assert_eq!(ring.first(), ring.last());
    assert_eq!(ring.len(), 5);
}

#[test]
fn incomplete_relation_is_skipped() {
    // the relation references a way whose first node is absent: assembly
    // yields no feature and no error
    let relation = RelationWithMembers {
        id: 7,
        members: vec![RelationMember::OuterMember(1), RelationMember::OuterMember(2)],
        tags: Vec::new(),
    };
    let ways = vec![(1i64, vec![10i64, 11, 12]), (2, vec![12, 13, 10])];
    let nodes = vec![(11i64, (1, 0)), (12, (1, 1)), (13, (0, 1))]; // node 10 missing
    let out = build_relations(&vec![relation], &ways, &nodes);
    assert!(out.is_empty());
}

#[test]
fn relation_with_unclosable_ring_is_skipped() {
    let relation = RelationWithMembers {
        id: 7,
        members: vec![RelationMember::OuterMember(1)],
        tags: Vec::new(),
    };
    let ways = vec![(1i64, vec![10i64, 11, 12])]; // open: 10 .. 12
    let nodes = vec![(10i64, (0, 0)), (11, (1, 0)), (12, (1, 1))];
    let out = build_relations(&vec![relation], &ways, &nodes);
    assert!(out.is_empty());
}

#[test]
fn relation_member_to_i64_ignores_role() {
    assert_eq!(RelationMember::OuterMember(4).to_i64(), 4);
    assert_eq!(RelationMember::InnerMember(-9).to_i64(), -9);
}
