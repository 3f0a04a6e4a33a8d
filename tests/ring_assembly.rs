use mapgeom::find_polygons::{find_polygons_in_multipolygon, NodeDesc, NodeDescPair};

fn node(id: usize) -> NodeDesc {
    NodeDesc::new(id, id as u64, (id as u64) * 10)
}

fn seg(a: usize, b: usize, is_inner: bool) -> NodeDescPair {
    NodeDescPair::new(node(a), node(b), is_inner)
}

fn assemble(segs: Vec<NodeDescPair>) -> Result<Vec<Vec<usize>>, (u64, usize, usize)> {
    match find_polygons_in_multipolygon(7, &segs) {
        Ok(polygons) => Ok(polygons),
        Err(f) => Err((f.relation_id, f.complete_rings, f.unmatched_segments)),
    }
}

#[test]
fn triangle_gives_one_polygon() {
    let r = assemble(vec![seg(1, 2, false), seg(2, 3, false), seg(3, 1, false)]);
    assert_eq!(r, Ok(vec![vec![1, 2, 3]]));
}

#[test]
fn disconnected_segments_fail() {
    let r = assemble(vec![seg(1, 2, false), seg(3, 4, false)]);
    assert_eq!(r, Err((7, 0, 2)));
}

#[test]
fn two_segment_loop_is_not_a_ring() {
    let r = assemble(vec![seg(1, 2, false), seg(2, 1, false)]);
    assert_eq!(r, Err((7, 0, 2)));
}

#[test]
fn single_segment_fails() {
    let r = assemble(vec![seg(1, 2, true)]);
    assert_eq!(r, Err((7, 0, 1)));
}

#[test]
fn shuffled_square_is_one_polygon_with_each_node_once() {
    let r = assemble(vec![seg(1, 2, false), seg(3, 4, false), seg(2, 3, false), seg(4, 1, false)]);
    let polygons = r.unwrap();
    assert_eq!(polygons.len(), 1);
    assert_eq!(polygons[0], vec![1, 2, 3, 4]);
    let mut ids = polygons[0].clone();
    ids.sort();
    assert_eq!(ids, vec![1, 2, 3, 4]);
}

#[test]
fn reversed_segments_still_walk_in_order() {
    let r = assemble(vec![seg(1, 2, false), seg(3, 2, false), seg(4, 3, false), seg(1, 4, false)]);
    assert_eq!(r, Ok(vec![vec![1, 2, 3, 4]]));
}

#[test]
fn dangling_segment_is_unmatched() {
    let r = assemble(vec![seg(1, 2, false), seg(2, 3, false), seg(3, 1, false), seg(3, 4, false)]);
    assert_eq!(r, Err((7, 1, 1)));
}

#[test]
fn odd_one_out_is_counted() {
    let r = assemble(vec![
        seg(1, 2, false),
        seg(2, 3, false),
        seg(3, 1, false),
        seg(5, 6, false),
        seg(6, 7, false),
    ]);
    assert_eq!(r, Err((7, 1, 2)));
}

#[test]
fn inner_and_outer_rings_sharing_a_node_stay_apart() {
    let r = assemble(vec![
        seg(1, 2, false),
        seg(2, 3, false),
        seg(3, 1, false),
        seg(1, 4, true),
        seg(4, 5, true),
        seg(5, 1, true),
    ]);
    assert_eq!(r, Ok(vec![vec![1, 2, 3], vec![1, 4, 5]]));
}

#[test]
fn ring_cannot_close_through_other_class() {
    let r = assemble(vec![seg(1, 2, false), seg(2, 3, false), seg(3, 1, true)]);
    assert_eq!(r, Err((7, 0, 3)));
}

#[test]
fn empty_relation_has_no_polygons() {
    let r = assemble(vec![]);
    assert_eq!(r, Ok(vec![]));
}

#[test]
fn backtracks_out_of_a_dead_end() {
    // From node 2 the most recent candidate leads to node 9, which goes nowhere.
    let r = assemble(vec![seg(1, 2, false), seg(2, 3, false), seg(3, 1, false), seg(2, 9, false)]);
    assert_eq!(r, Err((7, 1, 1)));
}

#[test]
fn two_disjoint_rings() {
    let r = assemble(vec![
        seg(1, 2, false),
        seg(4, 5, false),
        seg(2, 3, false),
        seg(5, 6, false),
        seg(3, 1, false),
        seg(6, 4, false),
    ]);
    assert_eq!(r, Ok(vec![vec![1, 2, 3], vec![4, 5, 6]]));
}
