use mapgeom::find_polygons::find_polygons_in_multipolygon;
use mapgeom::importer::{postprocess_node_refs, to_segments, OsmEntityStorage, RelationWayRef};

#[test]
fn repeated_steps_are_dropped() {
    let mut refs = vec![1, 2, 3, 2, 1];
    postprocess_node_refs(&mut refs);
    assert_eq!(refs, vec![1, 2, 3]);
}

#[test]
fn closed_way_is_kept() {
    let mut refs = vec![1, 2, 3, 1];
    postprocess_node_refs(&mut refs);
    assert_eq!(refs, vec![1, 2, 3, 1]);
}

#[test]
fn empty_refs_stay_empty() {
    let mut refs: Vec<usize> = vec![];
    postprocess_node_refs(&mut refs);
    assert!(refs.is_empty());
}

#[test]
fn storage_translates_ids() {
    let mut storage: OsmEntityStorage<&str> = OsmEntityStorage::new();
    storage.add(1000, "a");
    storage.add(77, "b");
    assert_eq!(storage.translate_id(1000), Some(0));
    assert_eq!(storage.translate_id(77), Some(1));
    assert_eq!(storage.translate_id(5), None);
    assert_eq!(storage.get_entities(), &vec!["a", "b"]);
}

#[test]
fn relation_segments_follow_ways() {
    let positions = vec![(1u64, 10u64), (2, 20), (3, 30), (4, 40)];
    let ways = vec![vec![0, 1, 2], vec![2, 0], vec![3]];
    let refs = vec![RelationWayRef::new(0, false), RelationWayRef::new(1, true), RelationWayRef::new(2, true)];
    let segs = to_segments(&refs, &ways, &positions);
    let view: Vec<(usize, usize, (u64, u64), bool)> =
        segs.iter().map(|s| (s.node1.id, s.node2.id, s.node2.pos, s.is_inner)).collect();
    assert_eq!(view, vec![(0, 1, (2, 20), false), (1, 2, (3, 30), false), (2, 0, (1, 10), true)]);
}

#[test]
fn relation_ways_assemble_into_ring() {
    let positions = vec![(1u64, 10u64), (2, 20), (3, 30)];
    let ways = vec![vec![0, 1], vec![1, 2, 0]];
    let refs = vec![RelationWayRef::new(0, false), RelationWayRef::new(1, false)];
    let segs = to_segments(&refs, &ways, &positions);
    let polygons = find_polygons_in_multipolygon(3, &segs).ok().unwrap();
    assert_eq!(polygons, vec![vec![0, 1, 2]]);
}
