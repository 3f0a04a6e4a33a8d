use crate::find_polygons::{NodeDesc, NodeDescPair, NodePos};
use std::collections::HashMap;
use vstd::prelude::*;

verus! {

broadcast use vstd::std_specs::hash::group_hash_axioms;

/// Entities of one kind, in arrival order, with a map from their global OSM ids to their
/// local indices.
pub struct OsmEntityStorage<E> {
    global_id_to_local_id: HashMap<u64, usize>,
    entities: Vec<E>,
}

impl<E> OsmEntityStorage<E> {
    pub closed spec fn ids(&self) -> Map<u64, usize> {
        self.global_id_to_local_id@
    }

    pub closed spec fn entities_view(&self) -> Seq<E> {
        self.entities@
    }

    /// Every known id maps to a stored entity.
    pub open spec fn wf(&self) -> bool {
        forall|id: u64| #[trigger] self.ids().contains_key(id) ==> self.ids()[id] < self.entities_view().len()
    }

    pub fn new() -> (r: OsmEntityStorage<E>)
        ensures
            r.wf(),
            r.ids() == Map::<u64, usize>::empty(),
            r.entities_view() == Seq::<E>::empty(),
    {
        OsmEntityStorage { global_id_to_local_id: HashMap::new(), entities: Vec::new() }
    }

    /// Stores `entity` under the next local index; `global_id` now maps to it.
    pub fn add(&mut self, global_id: u64, entity: E)
        requires
            old(self).wf(),
        ensures
            final(self).wf(),
            final(self).ids() == old(self).ids().insert(global_id, old(self).entities_view().len() as usize),
            final(self).entities_view() == old(self).entities_view().push(entity),
    {
        let old_size = self.entities.len();
        self.global_id_to_local_id.insert(global_id, old_size);
        self.entities.push(entity);
        proof {
            assert forall|id: u64| #[trigger] self.ids().contains_key(id) implies self.ids()[id]
                < self.entities_view().len() by {
                if id != global_id {
                    assert(old(self).ids().contains_key(id));
                }
            }
        }
    }

    /// The local index of the entity stored under `global_id`, if any.
    pub fn translate_id(&self, global_id: u64) -> (r: Option<usize>)
        requires
            self.wf(),
        ensures
            r == (if self.ids().contains_key(global_id) {
                Some(self.ids()[global_id])
            } else {
                None::<usize>
            }),
            r is Some ==> r->Some_0 < self.entities_view().len(),
    {
        match self.global_id_to_local_id.get(&global_id) {
            Some(local_id) => {
                assert(self.ids().contains_key(global_id));
                Some(*local_id)
            },
            None => None,
        }
    }

    pub fn get_entities(&self) -> (r: &Vec<E>)
        ensures
            r@ == self.entities_view(),
    {
        &self.entities
    }
}

/// Step `i` of `refs` (from `refs[i - 1]` to `refs[i]`) covers the same pair of nodes, in
/// either direction, as an earlier step.
pub open spec fn step_repeated(refs: Seq<usize>, i: int) -> bool {
    exists|j: int|
        1 <= j < i && ((#[trigger] refs[j] == refs[i] && refs[j - 1] == refs[i - 1]) || (refs[j]
            == refs[i - 1] && refs[j - 1] == refs[i]))
}

/// The first `n` references of `refs`, without those reached by a repeated step.
pub open spec fn kept_refs(refs: Seq<usize>, n: int) -> Seq<usize>
    decreases n,
{
    if n <= 0 {
        seq![]
    } else if n == 1 {
        seq![refs[0]]
    } else if step_repeated(refs, n - 1) {
        kept_refs(refs, n - 1)
    } else {
        kept_refs(refs, n - 1).push(refs[n - 1])
    }
}

fn step_seen(seen: &Vec<(usize, usize)>, cur: usize, prev: usize) -> (r: bool)
    ensures
        r == exists|k: int|
            0 <= k < seen@.len() && ((#[trigger] seen@[k] == (cur, prev)) || seen@[k] == (prev, cur)),
{
    let mut k: usize = 0;
    while k < seen.len()
        invariant
            k <= seen@.len(),
            forall|m: int| 0 <= m < k ==> seen@[m] != (cur, prev) && seen@[m] != (prev, cur),
        decreases seen.len() - k,
    {
        let (a, b) = seen[k];
        if (a == cur && b == prev) || (a == prev && b == cur) {
            return true;
        }
        k += 1;
    }
    false
}

/// Drops from a way's node references each node reached by a step between two nodes that an
/// earlier step already joined, in either direction.
pub fn postprocess_node_refs(refs: &mut Vec<usize>)
    ensures
        final(refs)@ == kept_refs(old(refs)@, old(refs)@.len() as int),
{
    if refs.len() == 0 {
        return;
    }
    let ghost orig = refs@;
    let mut seen_node_pairs: Vec<(usize, usize)> = Vec::new();
    let mut refs_without_duplicates: Vec<usize> = Vec::new();
    refs_without_duplicates.push(refs[0]);
    let mut idx: usize = 1;
    while idx < refs.len()
        invariant
            refs@ == orig,
            1 <= idx <= orig.len(),
            refs_without_duplicates@ == kept_refs(orig, idx as int),
            seen_node_pairs@.len() == idx - 1,
            forall|k: int|
                0 <= k < idx - 1 ==> #[trigger] seen_node_pairs@[k] == (orig[k + 1], orig[k]),
        decreases refs.len() - idx,
    {
        let cur = refs[idx];
        let prev = refs[idx - 1];
        let repeated = step_seen(&seen_node_pairs, cur, prev);
        proof {
            if repeated {
                let k = choose|k: int|
                    0 <= k < seen_node_pairs@.len() && ((#[trigger] seen_node_pairs@[k] == (cur, prev))
                        || seen_node_pairs@[k] == (prev, cur));
                assert(orig[k + 1] == orig[(k + 1) - 1 + 1]);
                assert(step_repeated(orig, idx as int));
            }
            if step_repeated(orig, idx as int) {
                let j = choose|j: int|
                    1 <= j < idx && ((#[trigger] orig[j] == orig[idx as int] && orig[j - 1] == orig[idx
                        - 1]) || (orig[j] == orig[idx - 1] && orig[j - 1] == orig[idx as int]));
                assert(seen_node_pairs@[j - 1] == (orig[j], orig[j - 1]));
            }
        }
        if !repeated {
            refs_without_duplicates.push(cur);
        }
        seen_node_pairs.push((cur, prev));
        idx += 1;
    }
    *refs = refs_without_duplicates;
}

/// A way that is a member of a relation: its local index and whether its role is "inner".
pub struct RelationWayRef {
    pub way_id: usize,
    pub is_inner: bool,
}

impl RelationWayRef {
    pub fn new(way_id: usize, is_inner: bool) -> (r: RelationWayRef)
        ensures
            r.way_id == way_id,
            r.is_inner == is_inner,
    {
        RelationWayRef { way_id, is_inner }
    }
}

/// The segments between consecutive nodes of a way.
pub open spec fn way_segments(way: Seq<usize>, positions: Seq<NodePos>, is_inner: bool) -> Seq<
    NodeDescPair,
> {
    Seq::new(
        if way.len() > 0 {
            (way.len() - 1) as nat
        } else {
            0
        },
        |i: int|
            NodeDescPair {
                node1: NodeDesc { id: way[i], pos: positions[way[i] as int] },
                node2: NodeDesc { id: way[i + 1], pos: positions[way[i + 1] as int] },
                is_inner,
            },
    )
}

/// The segments of all member ways of a relation, way after way.
pub open spec fn relation_segments(
    way_refs: Seq<RelationWayRef>,
    ways: Seq<Vec<usize>>,
    positions: Seq<NodePos>,
) -> Seq<NodeDescPair>
    decreases way_refs.len(),
{
    if way_refs.len() == 0 {
        seq![]
    } else {
        let r = way_refs.last();
        relation_segments(way_refs.drop_last(), ways, positions) + way_segments(
            ways[r.way_id as int]@,
            positions,
            r.is_inner,
        )
    }
}

/// Every member way exists, and every node it references has a position.
pub open spec fn refs_valid(
    way_refs: Seq<RelationWayRef>,
    ways: Seq<Vec<usize>>,
    positions: Seq<NodePos>,
) -> bool {
    forall|k: int|
        0 <= k < way_refs.len() ==> {
            &&& (#[trigger] way_refs[k]).way_id < ways.len()
            &&& forall|m: int|
                0 <= m < ways[way_refs[k].way_id as int]@.len() ==> (#[trigger] ways[way_refs[k].way_id as int]@[m])
                    < positions.len()
        }
}

/// Splits the member ways of a relation into segments between consecutive nodes, each
/// tagged with the role of its way. `ways` holds the node references of each way and
/// `positions` the position key of each node.
pub fn to_segments(
    way_refs: &Vec<RelationWayRef>,
    ways: &Vec<Vec<usize>>,
    positions: &Vec<NodePos>,
) -> (r: Vec<NodeDescPair>)
    requires
        refs_valid(way_refs@, ways@, positions@),
    ensures
        r@ == relation_segments(way_refs@, ways@, positions@),
{
    let mut segments: Vec<NodeDescPair> = Vec::new();
    let mut k: usize = 0;
    while k < way_refs.len()
        invariant
            k <= way_refs@.len(),
            refs_valid(way_refs@, ways@, positions@),
            segments@ == relation_segments(way_refs@.subrange(0, k as int), ways@, positions@),
        decreases way_refs.len() - k,
    {
        let way_ref = &way_refs[k];
        let way = &ways[way_ref.way_id];
        let ghost start = segments@;
        let ghost target = way_segments(way@, positions@, way_ref.is_inner);
        let mut idx: usize = 1;
        while idx < way.len()
            invariant
                1 <= idx,
                idx <= way@.len() || idx == 1,
                way@ == ways@[way_ref.way_id as int]@,
                way_ref.way_id < ways@.len(),
                forall|m: int| 0 <= m < way@.len() ==> (#[trigger] way@[m]) < positions@.len(),
                target == way_segments(way@, positions@, way_ref.is_inner),
                segments@ == start + target.subrange(0, idx - 1),
            decreases way.len() - idx,
        {
            let id1 = way[idx - 1];
            let id2 = way[idx];
            segments.push(
                NodeDescPair::new(
                    NodeDesc { id: id1, pos: positions[id1] },
                    NodeDesc { id: id2, pos: positions[id2] },
                    way_ref.is_inner,
                ),
            );
            assert(target.subrange(0, idx as int) =~= target.subrange(0, idx - 1).push(target[idx - 1]));
            idx += 1;
        }
        assert(idx - 1 == target.len());
        assert(target.subrange(0, target.len() as int) =~= target);
        assert(segments@ =~= start + target);
        assert(way_refs@.subrange(0, k + 1).drop_last() =~= way_refs@.subrange(0, k as int));
        k += 1;
    }
    assert(way_refs@.subrange(0, way_refs@.len() as int) =~= way_refs@);
    segments
}

} // verus!
