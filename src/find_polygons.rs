use vstd::prelude::*;

verus! {

/// Exact identity of a point: the raw bit patterns of its latitude and longitude.
pub type NodePos = (u64, u64);

/// Node identifiers of one ring, in walking order; the last node connects back to the first.
pub type Polygon = Vec<usize>;

/// One endpoint of a segment.
pub struct NodeDesc {
    pub id: usize,
    pub pos: NodePos,
}

impl NodeDesc {
    /// `lat_bits` and `lon_bits` are the bit patterns of the coordinates (`f64::to_bits`).
    pub fn new(id: usize, lat_bits: u64, lon_bits: u64) -> (r: NodeDesc)
        ensures
            r.id == id,
            r.pos == (lat_bits, lon_bits),
    {
        NodeDesc { id, pos: (lat_bits, lon_bits) }
    }
}

/// An undirected segment between two nodes, on an inner or an outer boundary.
pub struct NodeDescPair {
    pub node1: NodeDesc,
    pub node2: NodeDesc,
    pub is_inner: bool,
}

impl NodeDescPair {
    pub fn new(node1: NodeDesc, node2: NodeDesc, is_inner: bool) -> (r: NodeDescPair)
        ensures
            r.node1 == node1,
            r.node2 == node2,
            r.is_inner == is_inner,
    {
        NodeDescPair { node1, node2, is_inner }
    }
}

/// The segments of a relation could not all be arranged into closed rings.
pub struct ReconstructionFailure {
    pub relation_id: u64,
    pub complete_rings: usize,
    pub unmatched_segments: usize,
}

/// Segment `s` connects the positions `a` and `b`, in either direction.
pub open spec fn joins(s: NodeDescPair, a: NodePos, b: NodePos) -> bool {
    (s.node1.pos == a && s.node2.pos == b) || (s.node1.pos == b && s.node2.pos == a)
}

/// `v` is a closed walk through the segments `r`, starting at the first node of `r[0]`.
pub open spec fn closes(segs: Seq<NodeDescPair>, r: Seq<usize>, v: Seq<NodePos>) -> bool {
    &&& r.len() > 0
    &&& v.len() == r.len() + 1
    &&& v[0] == segs[r[0] as int].node1.pos
    &&& v[r.len() as int] == v[0]
    &&& forall|k: int| 0 <= k < r.len() ==> #[trigger] joins(segs[r[k] as int], v[k], v[k + 1])
}

/// `r` lists at least three distinct segments of one boundary class that form a closed loop.
pub open spec fn is_ring(segs: Seq<NodeDescPair>, r: Seq<usize>) -> bool {
    &&& r.len() >= 3
    &&& r.no_duplicates()
    &&& forall|k: int|
        0 <= k < r.len() ==> (#[trigger] r[k]) < segs.len() && segs[r[k] as int].is_inner
            == segs[r[0] as int].is_inner
    &&& exists|v: Seq<NodePos>| #[trigger] closes(segs, r, v)
}

/// Segment `i` lies on one of `rings`.
pub open spec fn covered(rings: Seq<Seq<usize>>, i: usize) -> bool {
    exists|j: int| 0 <= j < rings.len() && #[trigger] rings[j].contains(i)
}

/// Every entry is a ring, and no segment lies on two of them.
pub open spec fn disjoint_rings(segs: Seq<NodeDescPair>, rings: Seq<Seq<usize>>) -> bool {
    &&& forall|j: int| 0 <= j < rings.len() ==> is_ring(segs, #[trigger] rings[j])
    &&& forall|a: int, b: int, k: int|
        0 <= a < rings.len() && 0 <= b < rings.len() && a != b && 0 <= k < rings[a].len()
            ==> !(#[trigger] rings[b].contains(rings[a][k]))
}

pub open spec fn count_true(s: Seq<bool>) -> nat
    decreases s.len(),
{
    if s.len() == 0 {
        0
    } else {
        count_true(s.drop_last()) + if s.last() {
            1nat
        } else {
            0nat
        }
    }
}

/// Which of the first `n` segments lie on none of `rings`.
pub open spec fn left_over(rings: Seq<Seq<usize>>, n: nat) -> Seq<bool> {
    Seq::new(n, |i: int| !covered(rings, i as usize))
}

/// How many of the first `n` segments lie on none of `rings`.
pub open spec fn unmatched(rings: Seq<Seq<usize>>, n: nat) -> nat {
    count_true(left_over(rings, n))
}

/// The node that follows `last` when walking along `s`.
pub open spec fn next_id(s: NodeDescPair, last: usize) -> usize {
    if last == s.node1.id {
        s.node2.id
    } else {
        s.node1.id
    }
}

/// Node identifiers met when walking the segments `r` in order, from the first node of `r[0]`.
pub open spec fn walk_ids(segs: Seq<NodeDescPair>, r: Seq<usize>) -> Seq<usize>
    decreases r.len(),
{
    if r.len() == 0 {
        seq![]
    } else if r.len() == 1 {
        seq![segs[r[0] as int].node1.id]
    } else {
        let w = walk_ids(segs, r.drop_last());
        w.push(next_id(segs[r[r.len() - 2] as int], w.last()))
    }
}

/// `polys` are the walks of `rings`, and the rings take up every segment exactly once.
pub open spec fn decomposes(
    segs: Seq<NodeDescPair>,
    rings: Seq<Seq<usize>>,
    polys: Seq<Vec<usize>>,
) -> bool {
    &&& disjoint_rings(segs, rings)
    &&& forall|i: usize| i < segs.len() ==> #[trigger] covered(rings, i)
    &&& polys.len() == rings.len()
    &&& forall|j: int| 0 <= j < rings.len() ==> (#[trigger] polys[j])@ == walk_ids(segs, rings[j])
}

proof fn lemma_count_update(s: Seq<bool>, i: int, b: bool)
    requires
        0 <= i < s.len(),
    ensures
        count_true(s.update(i, b)) == count_true(s) - (if s[i] {
            1int
        } else {
            0int
        }) + (if b {
            1int
        } else {
            0int
        }),
    decreases s.len(),
{
    let t = s.update(i, b);
    if i == s.len() - 1 {
        assert(t.drop_last() =~= s.drop_last());
    } else {
        assert(t.drop_last() =~= s.drop_last().update(i, b));
        lemma_count_update(s.drop_last(), i, b);
    }
}

proof fn lemma_count_all(s: Seq<bool>)
    requires
        forall|i: int| 0 <= i < s.len() ==> s[i],
    ensures
        count_true(s) == s.len(),
    decreases s.len(),
{
    if s.len() > 0 {
        lemma_count_all(s.drop_last());
    }
}

proof fn lemma_count_zero(s: Seq<bool>)
    requires
        count_true(s) == 0,
    ensures
        forall|i: int| 0 <= i < s.len() ==> !s[i],
    decreases s.len(),
{
    if s.len() > 0 {
        lemma_count_zero(s.drop_last());
        assert forall|i: int| 0 <= i < s.len() implies !s[i] by {
            if i < s.len() - 1 {
                assert(s.drop_last()[i] == s[i]);
            }
        }
    }
}

spec fn power(b: nat, e: nat) -> nat
    decreases e,
{
    if e == 0 {
        1
    } else {
        b * power(b, (e - 1) as nat)
    }
}

proof fn lemma_power_pos(b: nat, e: nat)
    requires
        b >= 1,
    ensures
        power(b, e) >= 1,
    decreases e,
{
    if e > 0 {
        lemma_power_pos(b, (e - 1) as nat);
        let p = power(b, (e - 1) as nat);
        assert(b * p >= 1) by (nonlinear_arith)
            requires
                b >= 1,
                p >= 1,
        ;
    }
}

/// Bound on the work left in a search whose frames are `frames`, the top one weighted by `b^e`.
spec fn weight(frames: Seq<(usize, usize)>, b: nat, e: nat) -> nat
    decreases frames.len(),
{
    if frames.len() == 0 {
        0
    } else {
        (frames.last().1 as nat + 1) * power(b, e) + weight(frames.drop_last(), b, e + 1)
    }
}

proof fn lemma_weight_step(frames: Seq<(usize, usize)>, b: nat, e: nat, entry: usize)
    requires
        frames.len() > 0,
        frames.last().1 > 0,
    ensures
        weight(frames.update(frames.len() - 1, (entry, (frames.last().1 - 1) as usize)), b, e)
            + power(b, e) == weight(frames, b, e),
{
    let t = frames.update(frames.len() - 1, (entry, (frames.last().1 - 1) as usize));
    assert(t.drop_last() =~= frames.drop_last());
    let r = frames.last().1 as nat;
    let p = power(b, e);
    assert(((r - 1) as nat + 1) * p + p == (r + 1) * p) by (nonlinear_arith)
        requires
            r > 0,
    ;
}

proof fn lemma_weight_pop(frames: Seq<(usize, usize)>, b: nat, e: nat)
    requires
        frames.len() > 0,
        frames.last().1 == 0,
    ensures
        weight(frames, b, e) == power(b, e) + weight(frames.drop_last(), b, e + 1),
{
    let p = power(b, e);
    assert((0nat + 1) * p == p) by (nonlinear_arith);
}

proof fn lemma_weight_push(frames: Seq<(usize, usize)>, b: nat, e: nat, f: (usize, usize))
    requires
        f.1 + 2 <= b,
    ensures
        weight(frames.push(f), b, e) < power(b, e + 1) + weight(frames, b, e + 1),
{
    assert(frames.push(f).drop_last() =~= frames);
    lemma_power_pos(b, e);
    let p = power(b, e);
    let r = f.1 as nat;
    assert((r + 1) * p < b * p) by (nonlinear_arith)
        requires
            r + 2 <= b,
            p >= 1,
    ;
}

/// One entry of the adjacency lists: a segment seen from one of its ends.
#[derive(Clone, Copy)]
pub struct ConnectedSegment {
    pub other_side: NodePos,
    pub segment_index: usize,
    pub is_inner: bool,
}

/// The segments touching the position `pos`, in the order they were registered.
pub struct Connection {
    pub pos: NodePos,
    pub segments: Vec<ConnectedSegment>,
}

pub open spec fn entry_ok(segs: Seq<NodeDescPair>, pos: NodePos, c: ConnectedSegment) -> bool {
    &&& c.segment_index < segs.len()
    &&& c.is_inner == segs[c.segment_index as int].is_inner
    &&& joins(segs[c.segment_index as int], pos, c.other_side)
}

pub open spec fn connections_wf(segs: Seq<NodeDescPair>, conns: Seq<Connection>) -> bool {
    forall|e: int, k: int|
        0 <= e < conns.len() && 0 <= k < conns[e].segments@.len() ==> entry_ok(
            segs,
            conns[e].pos,
            #[trigger] conns[e].segments@[k],
        )
}

/// No position has two adjacency lists.
pub open spec fn keys_unique(conns: Seq<Connection>) -> bool {
    forall|a: int, b: int|
        0 <= a < conns.len() && 0 <= b < conns.len() && a != b ==> #[trigger] conns[a].pos
            != #[trigger] conns[b].pos
}

/// `c` stands in the adjacency list of `pos`.
pub open spec fn listed(conns: Seq<Connection>, pos: NodePos, c: ConnectedSegment) -> bool {
    exists|e: int, k: int|
        0 <= e < conns.len() && 0 <= k < conns[e].segments@.len() && conns[e].pos == pos
            && #[trigger] conns[e].segments@[k] == c
}

/// Every segment is listed under both of its ends.
pub open spec fn connections_complete(segs: Seq<NodeDescPair>, conns: Seq<Connection>) -> bool {
    forall|i: usize|
        i < segs.len() ==> listed(
            conns,
            (#[trigger] segs[i as int]).node1.pos,
            ConnectedSegment { other_side: segs[i as int].node2.pos, segment_index: i, is_inner: segs[i as int].is_inner },
        ) && listed(
            conns,
            segs[i as int].node2.pos,
            ConnectedSegment { other_side: segs[i as int].node1.pos, segment_index: i, is_inner: segs[i as int].is_inner },
        )
}

pub open spec fn longest(conns: Seq<Connection>) -> nat
    decreases conns.len(),
{
    if conns.len() == 0 {
        0
    } else {
        let m = longest(conns.drop_last());
        let l = conns.last().segments@.len();
        if l > m {
            l
        } else {
            m
        }
    }
}

proof fn lemma_longest(conns: Seq<Connection>, e: int)
    requires
        0 <= e < conns.len(),
    ensures
        conns[e].segments@.len() <= longest(conns),
    decreases conns.len(),
{
    if e < conns.len() - 1 {
        assert(conns.drop_last()[e] == conns[e]);
        lemma_longest(conns.drop_last(), e);
    }
}

fn same_pos(a: NodePos, b: NodePos) -> (r: bool)
    ensures
        r == (a == b),
{
    a.0 == b.0 && a.1 == b.1
}

fn contains_pos(v: &Vec<NodePos>, p: NodePos) -> (r: bool)
    ensures
        r == v@.contains(p),
{
    let mut i: usize = 0;
    while i < v.len()
        invariant
            i <= v@.len(),
            forall|k: int| 0 <= k < i ==> v@[k] != p,
        decreases v.len() - i,
    {
        if same_pos(v[i], p) {
            return true;
        }
        i += 1;
    }
    false
}

/// Index of the adjacency list of `pos`, or `conns.len()` where no segment touches it.
fn find_connection(conns: &Vec<Connection>, pos: NodePos) -> (r: usize)
    ensures
        r <= conns@.len(),
        r < conns@.len() ==> conns@[r as int].pos == pos,
        r == conns@.len() ==> forall|e: int| 0 <= e < conns@.len() ==> conns@[e].pos != pos,
{
    let mut i: usize = 0;
    while i < conns.len()
        invariant
            i <= conns@.len(),
            forall|e: int| 0 <= e < i ==> conns@[e].pos != pos,
        decreases conns.len() - i,
    {
        if same_pos(conns[i].pos, pos) {
            return i;
        }
        i += 1;
    }
    i
}

/// The adjacency list of `pos`: for each segment in index order, an entry for its far end
/// where its first node is at `pos`, then one where its second node is.
pub open spec fn entries_at(segs: Seq<NodeDescPair>, pos: NodePos) -> Seq<ConnectedSegment>
    decreases segs.len(),
{
    if segs.len() == 0 {
        seq![]
    } else {
        let i = (segs.len() - 1) as usize;
        let s = segs.last();
        let a = entries_at(segs.drop_last(), pos);
        let b = if s.node1.pos == pos {
            a.push(ConnectedSegment { other_side: s.node2.pos, segment_index: i, is_inner: s.is_inner })
        } else {
            a
        };
        if s.node2.pos == pos {
            b.push(ConnectedSegment { other_side: s.node1.pos, segment_index: i, is_inner: s.is_inner })
        } else {
            b
        }
    }
}

/// Each list of `conns` is exactly `lists(pos)` for its position and is not empty, no
/// position has two lists, and a position without a list has an empty `lists(pos)`.
pub open spec fn lists_exact(conns: Seq<Connection>, lists: spec_fn(NodePos) -> Seq<ConnectedSegment>) -> bool {
    &&& keys_unique(conns)
    &&& forall|e: int|
        0 <= e < conns.len() ==> (#[trigger] conns[e]).segments@ == lists(conns[e].pos)
            && conns[e].segments@.len() > 0
    &&& forall|pos: NodePos|
        (forall|e: int| 0 <= e < conns.len() ==> conns[e].pos != pos) ==> (#[trigger] lists(pos)).len()
            == 0
}

/// Appending `c` to the list of `pos1` keeps the lists exact, with `c` added to that of `pos1`.
proof fn lemma_add_exact(
    before: Seq<Connection>,
    after: Seq<Connection>,
    pos1: NodePos,
    c: ConnectedSegment,
    lists: spec_fn(NodePos) -> Seq<ConnectedSegment>,
)
    requires
        lists_exact(before, lists),
        forall|e: int| 0 <= e < before.len() && before[e].pos == pos1 ==> {
            &&& after.len() == before.len()
            &&& after[e].pos == pos1
            &&& after[e].segments@ == before[e].segments@.push(c)
            &&& forall|k: int| 0 <= k < before.len() && k != e ==> after[k] == before[k]
        },
        (forall|e: int| 0 <= e < before.len() ==> before[e].pos != pos1) ==> {
            &&& after.len() == before.len() + 1
            &&& after.last().pos == pos1
            &&& after.last().segments@ == seq![c]
            &&& forall|k: int| 0 <= k < before.len() ==> after[k] == before[k]
        },
    ensures
        lists_exact(
            after,
            |pos: NodePos|
                if pos == pos1 {
                    lists(pos).push(c)
                } else {
                    lists(pos)
                },
        ),
{
    let nl = |pos: NodePos|
        if pos == pos1 {
            lists(pos).push(c)
        } else {
            lists(pos)
        };
    if exists|e: int| 0 <= e < before.len() && before[e].pos == pos1 {
        let e0 = choose|e: int| 0 <= e < before.len() && before[e].pos == pos1;
        assert forall|a: int, b: int|
            0 <= a < after.len() && 0 <= b < after.len() && a != b implies #[trigger] after[a].pos
            != #[trigger] after[b].pos by {
            assert(before[a].pos != before[b].pos);
        }
        assert forall|e: int| 0 <= e < after.len() implies (#[trigger] after[e]).segments@ == nl(after[e].pos)
            && after[e].segments@.len() > 0 by {
            if e != e0 {
                assert(after[e] == before[e]);
                assert(before[e].pos != before[e0].pos);
            }
        }
        assert forall|pos: NodePos|
            (forall|e: int| 0 <= e < after.len() ==> after[e].pos != pos) implies (#[trigger] nl(pos)).len()
            == 0 by {
            assert(after[e0].pos == pos1);
            assert forall|e: int| 0 <= e < before.len() implies before[e].pos != pos by {
                if e != e0 {
                    assert(after[e] == before[e]);
                }
            }
        }
    } else {
        let n = before.len() as int;
        assert forall|a: int, b: int|
            0 <= a < after.len() && 0 <= b < after.len() && a != b implies #[trigger] after[a].pos
            != #[trigger] after[b].pos by {
            if a < n && b < n {
                assert(before[a].pos != before[b].pos);
            } else if a < n {
                assert(after[a] == before[a]);
            } else {
                assert(after[b] == before[b]);
            }
        }
        assert forall|e: int| 0 <= e < after.len() implies (#[trigger] after[e]).segments@ == nl(after[e].pos)
            && after[e].segments@.len() > 0 by {
            if e < n {
                assert(after[e] == before[e]);
            } else {
                assert(lists(pos1).len() == 0);
                assert(lists(pos1).push(c) =~= seq![c]);
            }
        }
        assert forall|pos: NodePos|
            (forall|e: int| 0 <= e < after.len() ==> after[e].pos != pos) implies (#[trigger] nl(pos)).len()
            == 0 by {
            assert(after[n].pos == pos1);
            assert forall|e: int| 0 <= e < before.len() implies before[e].pos != pos by {
                assert(after[e] == before[e]);
            }
        }
    }
}

proof fn lemma_lists_same(
    conns: Seq<Connection>,
    a: spec_fn(NodePos) -> Seq<ConnectedSegment>,
    b: spec_fn(NodePos) -> Seq<ConnectedSegment>,
)
    requires
        lists_exact(conns, a),
        forall|pos: NodePos| #[trigger] a(pos) == b(pos),
    ensures
        lists_exact(conns, b),
{
    assert forall|pos: NodePos|
        (forall|e: int| 0 <= e < conns.len() ==> conns[e].pos != pos) implies (#[trigger] b(pos)).len()
        == 0 by {
        assert(a(pos) == b(pos));
    }
}

pub fn add_to_connections(
    connections: &mut Vec<Connection>,
    pos1: NodePos,
    pos2: NodePos,
    segment_index: usize,
    is_inner: bool,
)
    requires
        keys_unique(old(connections)@),
    ensures
        final(connections)@.len() >= old(connections)@.len(),
        keys_unique(old(connections)@) ==> keys_unique(final(connections)@),
        listed(final(connections)@, pos1, ConnectedSegment { other_side: pos2, segment_index, is_inner }),
        forall|e: int, k: int|
            0 <= e < old(connections)@.len() && 0 <= k < old(connections)@[e].segments@.len() ==> {
                &&& final(connections)@[e].pos == old(connections)@[e].pos
                &&& k < final(connections)@[e].segments@.len()
                &&& #[trigger] final(connections)@[e].segments@[k] == old(connections)@[e].segments@[k]
            },
        forall|e: int, k: int|
            0 <= e < final(connections)@.len() && 0 <= k < final(connections)@[e].segments@.len()
                ==> {
                ||| e < old(connections)@.len() && k < old(connections)@[e].segments@.len()
                    && final(connections)@[e].pos == old(connections)@[e].pos
                    && #[trigger] final(connections)@[e].segments@[k]
                    == old(connections)@[e].segments@[k]
                ||| final(connections)@[e].pos == pos1 && final(connections)@[e].segments@[k]
                    == (ConnectedSegment { other_side: pos2, segment_index, is_inner })
            },
        forall|e: int| 0 <= e < old(connections)@.len() && old(connections)@[e].pos == pos1 ==> {
            &&& final(connections)@.len() == old(connections)@.len()
            &&& final(connections)@[e].pos == pos1
            &&& final(connections)@[e].segments@ == old(connections)@[e].segments@.push(
                ConnectedSegment { other_side: pos2, segment_index, is_inner },
            )
            &&& forall|k: int|
                0 <= k < old(connections)@.len() && k != e ==> final(connections)@[k] == old(connections)@[k]
        },
        (forall|e: int| 0 <= e < old(connections)@.len() ==> old(connections)@[e].pos != pos1) ==> {
            &&& final(connections)@.len() == old(connections)@.len() + 1
            &&& final(connections)@.last().pos == pos1
            &&& final(connections)@.last().segments@ == seq![ConnectedSegment { other_side: pos2, segment_index, is_inner }]
            &&& forall|k: int| 0 <= k < old(connections)@.len() ==> final(connections)@[k] == old(connections)@[k]
        },
{
    let e = find_connection(connections, pos1);
    let c = ConnectedSegment { other_side: pos2, segment_index, is_inner };
    if e < connections.len() {
        proof {
            assert forall|k: int| 0 <= k < connections@.len() && connections@[k].pos == pos1 implies k == e by {
                if k != e {
                    assert(connections@[k].pos != connections@[e as int].pos);
                }
            }
        }
        connections[e].segments.push(c);
        assert(connections@[e as int].segments@[connections@[e as int].segments@.len() - 1] == c);
    } else {
        let mut segments = Vec::new();
        segments.push(c);
        connections.push(Connection { pos: pos1, segments });
        assert(connections@[connections@.len() - 1].segments@[0] == c);
    }
}


pub fn get_connections(relation_segments: &Vec<NodeDescPair>) -> (r: Vec<Connection>)
    ensures
        connections_wf(relation_segments@, r@),
        keys_unique(r@),
        connections_complete(relation_segments@, r@),
        lists_exact(r@, |pos: NodePos| entries_at(relation_segments@, pos)),
{
    let mut connections: Vec<Connection> = Vec::new();
    let mut idx: usize = 0;
    let ghost segs = relation_segments@;
    assert(lists_exact(connections@, |pos: NodePos| entries_at(segs.subrange(0, 0), pos)));
    while idx < relation_segments.len()
        invariant
            idx <= relation_segments@.len(),
            segs == relation_segments@,
            lists_exact(connections@, |pos: NodePos| entries_at(segs.subrange(0, idx as int), pos)),
            connections_wf(relation_segments@, connections@),
            keys_unique(connections@),
            forall|i: usize|
                i < idx ==> listed(
                    connections@,
                    (#[trigger] relation_segments@[i as int]).node1.pos,
                    ConnectedSegment {
                        other_side: relation_segments@[i as int].node2.pos,
                        segment_index: i,
                        is_inner: relation_segments@[i as int].is_inner,
                    },
                ) && listed(
                    connections@,
                    relation_segments@[i as int].node2.pos,
                    ConnectedSegment {
                        other_side: relation_segments@[i as int].node1.pos,
                        segment_index: i,
                        is_inner: relation_segments@[i as int].is_inner,
                    },
                ),
        decreases relation_segments.len() - idx,
    {
        let seg = &relation_segments[idx];
        let ghost c0 = connections@;
        add_to_connections(&mut connections, seg.node1.pos, seg.node2.pos, idx, seg.is_inner);
        let ghost c1 = connections@;
        add_to_connections(&mut connections, seg.node2.pos, seg.node1.pos, idx, seg.is_inner);
        proof {
            let c2 = connections@;
            let f0 = |pos: NodePos| entries_at(segs.subrange(0, idx as int), pos);
            let e1 = ConnectedSegment { other_side: seg.node2.pos, segment_index: idx, is_inner: seg.is_inner };
            let e2 = ConnectedSegment { other_side: seg.node1.pos, segment_index: idx, is_inner: seg.is_inner };
            lemma_add_exact(c0, c1, seg.node1.pos, e1, f0);
            let f1 = |pos: NodePos| if pos == seg.node1.pos { f0(pos).push(e1) } else { f0(pos) };
            lemma_add_exact(c1, c2, seg.node2.pos, e2, f1);
            let f2 = |pos: NodePos| if pos == seg.node2.pos { f1(pos).push(e2) } else { f1(pos) };
            let p1 = segs.subrange(0, idx + 1);
            assert(p1.drop_last() =~= segs.subrange(0, idx as int));
            assert forall|pos: NodePos| #[trigger] f2(pos) == entries_at(p1, pos) by {}
            lemma_lists_same(c2, f2, |pos: NodePos| entries_at(p1, pos));
            assert forall|pos: NodePos, c: ConnectedSegment| listed(c0, pos, c) implies #[trigger] listed(c2, pos, c) by {
                let (e, k) = choose|e: int, k: int|
                    0 <= e < c0.len() && 0 <= k < c0[e].segments@.len() && c0[e].pos == pos
                        && #[trigger] c0[e].segments@[k] == c;
                assert(c1[e].segments@[k] == c);
                assert(c2[e].segments@[k] == c);
            }
            let n1 = ConnectedSegment { other_side: seg.node2.pos, segment_index: idx, is_inner: seg.is_inner };
            let (e, k) = choose|e: int, k: int|
                0 <= e < c1.len() && 0 <= k < c1[e].segments@.len() && c1[e].pos == seg.node1.pos
                    && #[trigger] c1[e].segments@[k] == n1;
            assert(c2[e].segments@[k] == n1);
            assert(listed(c2, seg.node1.pos, n1));
        }
        idx += 1;
    }
    assert(segs.subrange(0, segs.len() as int) =~= segs);
    connections
}

/// The search state of one ring: which segments are still free, and the path built so far.
pub struct CurrentRing {
    pub available_segments: Vec<bool>,
    pub used_segments: Vec<usize>,
    pub used_vertices: Vec<NodePos>,
}

impl CurrentRing {
    pub fn include_segment(&mut self, seg: &ConnectedSegment)
        requires
            seg.segment_index < old(self).available_segments@.len(),
        ensures
            final(self).available_segments@ == old(self).available_segments@.update(
                seg.segment_index as int,
                false,
            ),
            final(self).used_segments@ == old(self).used_segments@.push(seg.segment_index),
            final(self).used_vertices@ == old(self).used_vertices@.push(seg.other_side),
    {
        self.available_segments.set(seg.segment_index, false);
        self.used_segments.push(seg.segment_index);
        self.used_vertices.push(seg.other_side);
    }

    /// Undoes the latest `include_segment`.
    pub fn exclude_segment(&mut self)
        requires
            old(self).used_segments@.len() > 0,
            old(self).used_vertices@.len() > 0,
            old(self).used_segments@.last() < old(self).available_segments@.len(),
        ensures
            final(self).available_segments@ == old(self).available_segments@.update(
                old(self).used_segments@.last() as int,
                true,
            ),
            final(self).used_segments@ == old(self).used_segments@.drop_last(),
            final(self).used_vertices@ == old(self).used_vertices@.drop_last(),
    {
        let last = self.used_segments.pop().unwrap();
        self.available_segments.set(last, true);
        self.used_vertices.pop();
    }
}


/// Taking segment `s` to reach `w` continues the walk `used`/`verts` the way the search may:
/// `s` is free in `orig` and not on the walk yet, is of class `is_inner`, joins the end of the
/// walk to `w`, and `w` is new on the walk or is its start `first_pos`.
pub open spec fn step_ok(
    segs: Seq<NodeDescPair>,
    orig: Seq<bool>,
    is_inner: bool,
    first_pos: NodePos,
    used: Seq<usize>,
    verts: Seq<NodePos>,
    s: usize,
    w: NodePos,
) -> bool {
    &&& s < segs.len()
    &&& orig[s as int]
    &&& !used.contains(s)
    &&& segs[s as int].is_inner == is_inner
    &&& joins(segs[s as int], verts.last(), w)
    &&& (!verts.contains(w) || w == first_pos)
}

/// The segments `ext`, reaching the vertices `wext` one after the other, continue the walk
/// `used`/`verts` and bring it back to `first_pos` with at least three segments in all.
pub open spec fn closing_walk(
    segs: Seq<NodeDescPair>,
    orig: Seq<bool>,
    is_inner: bool,
    first_pos: NodePos,
    used: Seq<usize>,
    verts: Seq<NodePos>,
    ext: Seq<usize>,
    wext: Seq<NodePos>,
) -> bool
    decreases ext.len(),
{
    if ext.len() == 0 || wext.len() != ext.len() {
        false
    } else if !step_ok(segs, orig, is_inner, first_pos, used, verts, ext[0], wext[0]) {
        false
    } else if ext.len() == 1 {
        wext[0] == first_pos && used.len() + 1 >= 3
    } else {
        closing_walk(
            segs,
            orig,
            is_inner,
            first_pos,
            used.push(ext[0]),
            verts.push(wext[0]),
            ext.drop_first(),
            wext.drop_first(),
        )
    }
}

/// Walked from its first node to its second, segment `s` continues along `ext` (reaching
/// `wext`) back to its first node, using only segments free in `avail`.
pub open spec fn seed_walk_closes(
    segs: Seq<NodeDescPair>,
    avail: Seq<bool>,
    s: usize,
    ext: Seq<usize>,
    wext: Seq<NodePos>,
) -> bool {
    closing_walk(
        segs,
        avail.update(s as int, false),
        segs[s as int].is_inner,
        segs[s as int].node1.pos,
        seq![s],
        seq![segs[s as int].node1.pos, segs[s as int].node2.pos],
        ext,
        wext,
    )
}

/// Segment `s` starts a ring among the segments free in `avail`.
pub open spec fn seeds_ring(segs: Seq<NodeDescPair>, avail: Seq<bool>, s: usize) -> bool {
    exists|ext: Seq<usize>, wext: Seq<NodePos>| #[trigger] seed_walk_closes(segs, avail, s, ext, wext)
}

/// An entry from position `from` on in `list` takes segment `s` to `w`.
pub open spec fn covered_by(list: Seq<ConnectedSegment>, from: int, s: usize, w: NodePos) -> bool {
    exists|p: int| from <= p < list.len() && (#[trigger] list[p]).segment_index == s && list[p].other_side == w
}

/// No closing walk from `used`/`verts` starts with an entry of `list` from position `from` on.
pub open spec fn no_walk_from(
    segs: Seq<NodeDescPair>,
    orig: Seq<bool>,
    is_inner: bool,
    first_pos: NodePos,
    used: Seq<usize>,
    verts: Seq<NodePos>,
    list: Seq<ConnectedSegment>,
    from: int,
) -> bool {
    forall|ext: Seq<usize>, wext: Seq<NodePos>|
        #[trigger] closing_walk(segs, orig, is_inner, first_pos, used, verts, ext, wext) ==> !covered_by(
            list,
            from,
            ext[0],
            wext[0],
        )
}

/// With every entry of the list of its last vertex tried, a walk has no closing continuation.
proof fn lemma_exhausted(
    segs: Seq<NodeDescPair>,
    conns: Seq<Connection>,
    orig: Seq<bool>,
    is_inner: bool,
    first_pos: NodePos,
    used: Seq<usize>,
    verts: Seq<NodePos>,
    entry: usize,
)
    requires
        keys_unique(conns),
        connections_complete(segs, conns),
        verts.len() > 0,
        entry <= conns.len(),
        entry < conns.len() ==> conns[entry as int].pos == verts.last() && no_walk_from(
            segs,
            orig,
            is_inner,
            first_pos,
            used,
            verts,
            conns[entry as int].segments@,
            0,
        ),
        entry == conns.len() ==> forall|e: int| 0 <= e < conns.len() ==> conns[e].pos != verts.last(),
    ensures
        forall|ext: Seq<usize>, wext: Seq<NodePos>|
            !#[trigger] closing_walk(segs, orig, is_inner, first_pos, used, verts, ext, wext),
{
    assert forall|ext: Seq<usize>, wext: Seq<NodePos>|
        !#[trigger] closing_walk(segs, orig, is_inner, first_pos, used, verts, ext, wext) by {
        if closing_walk(segs, orig, is_inner, first_pos, used, verts, ext, wext) {
            let s = ext[0];
            let w = wext[0];
            assert(step_ok(segs, orig, is_inner, first_pos, used, verts, s, w));
            let seg = segs[s as int];
            let c = ConnectedSegment { other_side: w, segment_index: s, is_inner: seg.is_inner };
            if seg.node1.pos == verts.last() && seg.node2.pos == w {
                assert(listed(conns, seg.node1.pos, ConnectedSegment { other_side: seg.node2.pos, segment_index: s, is_inner: seg.is_inner }));
                assert(listed(conns, verts.last(), c));
            } else {
                assert(listed(conns, seg.node2.pos, ConnectedSegment { other_side: seg.node1.pos, segment_index: s, is_inner: seg.is_inner }));
                assert(listed(conns, verts.last(), c));
            }
            let (e, k) = choose|e: int, k: int|
                0 <= e < conns.len() && 0 <= k < conns[e].segments@.len() && conns[e].pos == verts.last()
                    && #[trigger] conns[e].segments@[k] == c;
            assert(e == entry as int);
            assert(covered_by(conns[entry as int].segments@, 0, s, w));
        }
    }
}

/// A walk that cannot be closed after taking `s` to `w`, where that step does not close it
/// either, has no closing continuation that starts with that step.
proof fn lemma_dead_step(
    segs: Seq<NodeDescPair>,
    orig: Seq<bool>,
    is_inner: bool,
    first_pos: NodePos,
    used: Seq<usize>,
    verts: Seq<NodePos>,
    s: usize,
    w: NodePos,
)
    requires
        forall|ext: Seq<usize>, wext: Seq<NodePos>|
            !#[trigger] closing_walk(segs, orig, is_inner, first_pos, used.push(s), verts.push(w), ext, wext),
        !(w == first_pos && used.len() + 1 >= 3),
    ensures
        forall|ext: Seq<usize>, wext: Seq<NodePos>|
            ext.len() > 0 && wext.len() > 0 && ext[0] == s && wext[0] == w ==> !#[trigger] closing_walk(
                segs,
                orig,
                is_inner,
                first_pos,
                used,
                verts,
                ext,
                wext,
            ),
{
    assert forall|ext: Seq<usize>, wext: Seq<NodePos>|
        ext.len() > 0 && wext.len() > 0 && ext[0] == s && wext[0] == w implies !#[trigger] closing_walk(
        segs,
        orig,
        is_inner,
        first_pos,
        used,
        verts,
        ext,
        wext,
    ) by {
        if ext.len() > 1 && wext.len() == ext.len() {
            assert(!closing_walk(segs, orig, is_inner, first_pos, used.push(s), verts.push(w), ext.drop_first(), wext.drop_first()));
        }
    }
}

/// Pushes onto `stack` the frame that tries the segments touching `from_pos`: the index of
/// their adjacency list (`connections.len()` where there is none) and how many are left to try.
pub fn push_next_segments(
    from_pos: NodePos,
    connections: &Vec<Connection>,
    stack: &mut Vec<(usize, usize)>,
)
    ensures
        final(stack)@.drop_last() == old(stack)@,
        final(stack)@.len() == old(stack)@.len() + 1,
        ({
            let f = final(stack)@.last();
            &&& f.0 <= connections@.len()
            &&& f.1 <= longest(connections@)
            &&& f.0 < connections@.len() ==> connections@[f.0 as int].pos == from_pos && f.1
                == connections@[f.0 as int].segments@.len()
            &&& f.0 == connections@.len() ==> f.1 == 0 && forall|e: int|
                0 <= e < connections@.len() ==> connections@[e].pos != from_pos
        }),
{
    let entry = find_connection(connections, from_pos);
    let remaining = if entry < connections.len() {
        connections[entry].segments.len()
    } else {
        0
    };
    proof {
        if entry < connections@.len() {
            lemma_longest(connections@, entry as int);
        }
    }
    stack.push((entry, remaining));
    assert(stack@.drop_last() =~= old(stack)@);
}

/// Frame `k` of the search (list `f`) has tried its entries from position `from` on: no
/// closing walk from the first `k + 1` segments of the path starts with one of them.
pub open spec fn frame_done(
    segs: Seq<NodeDescPair>,
    conns: Seq<Connection>,
    orig: Seq<bool>,
    is_inner: bool,
    first_pos: NodePos,
    used: Seq<usize>,
    verts: Seq<NodePos>,
    f: (usize, usize),
    k: int,
    from: int,
) -> bool {
    f.0 < conns.len() ==> no_walk_from(
        segs,
        orig,
        is_inner,
        first_pos,
        used.subrange(0, k + 1),
        verts.subrange(0, k + 2),
        conns[f.0 as int].segments@,
        from,
    )
}

/// The entry that frame `k` (list `f`) is exploring is the next step of the path.
pub open spec fn in_progress(
    conns: Seq<Connection>,
    is_inner: bool,
    used: Seq<usize>,
    verts: Seq<NodePos>,
    f: (usize, usize),
    k: int,
) -> bool {
    &&& f.0 < conns.len()
    &&& f.1 < conns[f.0 as int].segments@.len()
    &&& conns[f.0 as int].segments@[f.1 as int] == ConnectedSegment {
        other_side: verts[k + 2],
        segment_index: used[k + 1],
        is_inner,
    }
}

/// Vertex `k + 1` of the walk `verts` is new on it, or is its start `first_pos`.
pub open spec fn fresh_or_start(verts: Seq<NodePos>, k: int, first_pos: NodePos) -> bool {
    !verts.subrange(0, k + 1).contains(verts[k + 1]) || verts[k + 1] == first_pos
}

/// The partial ring in `ring` is a walk from `first_pos` through segments of class
/// `is_inner`, taken from those free in `orig` (the seed `used[0]` being already taken there).
pub open spec fn path_ok(
    segs: Seq<NodeDescPair>,
    ring: CurrentRing,
    orig: Seq<bool>,
    first_pos: NodePos,
    is_inner: bool,
) -> bool {
    let used = ring.used_segments@;
    let verts = ring.used_vertices@;
    let avail = ring.available_segments@;
    &&& used.len() >= 1
    &&& verts.len() == used.len() + 1
    &&& avail.len() == segs.len()
    &&& orig.len() == segs.len()
    &&& used.no_duplicates()
    &&& verts[0] == first_pos
    &&& first_pos == segs[used[0] as int].node1.pos
    &&& !orig[used[0] as int]
    &&& forall|k: int|
        0 <= k < used.len() ==> (#[trigger] used[k]) < segs.len() && segs[used[k] as int].is_inner
            == is_inner
    &&& forall|k: int| 1 <= k < used.len() ==> orig[#[trigger] used[k] as int]
    &&& forall|k: int|
        0 <= k < used.len() ==> #[trigger] joins(segs[used[k] as int], verts[k], verts[k + 1])
    &&& forall|i: usize| i < segs.len() ==> avail[i as int] == (orig[i as int] && !used.contains(i))
    &&& count_true(avail) + used.len() == count_true(orig) + 1
    &&& forall|k: int| 1 <= k < used.len() ==> #[trigger] fresh_or_start(verts, k, first_pos)
}

/// A closed path found by the search is a closing walk from each of its prefixes.
proof fn lemma_path_closes(
    segs: Seq<NodeDescPair>,
    ring: CurrentRing,
    orig: Seq<bool>,
    first_pos: NodePos,
    is_inner: bool,
    k: int,
)
    requires
        path_ok(segs, ring, orig, first_pos, is_inner),
        ring.used_segments@.len() >= 3,
        ring.used_vertices@.last() == first_pos,
        1 <= k < ring.used_segments@.len(),
    ensures
        closing_walk(
            segs,
            orig,
            is_inner,
            first_pos,
            ring.used_segments@.subrange(0, k),
            ring.used_vertices@.subrange(0, k + 1),
            ring.used_segments@.subrange(k, ring.used_segments@.len() as int),
            ring.used_vertices@.subrange(k + 1, ring.used_vertices@.len() as int),
        ),
    decreases ring.used_segments@.len() - k,
{
    let used = ring.used_segments@;
    let verts = ring.used_vertices@;
    let l = used.len() as int;
    let pu = used.subrange(0, k);
    let pv = verts.subrange(0, k + 1);
    let ext = used.subrange(k, l);
    let wext = verts.subrange(k + 1, l + 1);
    let s = used[k];
    assert(ext[0] == s);
    assert(wext[0] == verts[k + 1]);
    assert(!pu.contains(s)) by {
        if pu.contains(s) {
            let m = choose|m: int| 0 <= m < pu.len() && pu[m] == s;
            assert(used[m] == used[k]);
        }
    }
    assert(pv.last() == verts[k]);
    assert(joins(segs[used[k] as int], verts[k], verts[k + 1]));
    assert(fresh_or_start(verts, k, first_pos));
    assert(orig[used[k] as int]);
    assert(step_ok(segs, orig, is_inner, first_pos, pu, pv, ext[0], wext[0]));
    if k + 1 < l {
        lemma_path_closes(segs, ring, orig, first_pos, is_inner, k + 1);
        assert(pu.push(s) =~= used.subrange(0, k + 1));
        assert(pv.push(verts[k + 1]) =~= verts.subrange(0, k + 2));
        assert(ext.drop_first() =~= used.subrange(k + 1, l));
        assert(wext.drop_first() =~= verts.subrange(k + 2, l + 1));
    } else {
        assert(verts[k + 1] == verts.last());
    }
}

/// Depth-first search for a way from `last_pos` back to `first_pos` that closes the ring
/// seeded in `ring`. Candidates at each position are tried from the most recently
/// registered one; the explicit stack of frames keeps the depth of the search off the
/// call stack.
#[verifier::rlimit(100)]
pub fn find_ring_from(
    last_pos: NodePos,
    first_pos: NodePos,
    is_inner: bool,
    relation_segments: &Vec<NodeDescPair>,
    connections: &Vec<Connection>,
    ring: &mut CurrentRing,
) -> (found: bool)
    requires
        connections_wf(relation_segments@, connections@),
        keys_unique(connections@),
        connections_complete(relation_segments@, connections@),
        path_ok(relation_segments@, *old(ring), old(ring).available_segments@, first_pos, is_inner),
        old(ring).used_segments@.len() == 1,
        old(ring).used_vertices@[1] == last_pos,
    ensures
        final(ring).available_segments@.len() == relation_segments@.len(),
        found ==> path_ok(
            relation_segments@,
            *final(ring),
            old(ring).available_segments@,
            first_pos,
            is_inner,
        ) && final(ring).used_segments@.len() >= 3 && final(ring).used_vertices@.last() == first_pos
            && final(ring).used_segments@[0] == old(ring).used_segments@[0]
            && final(ring).used_vertices@[1] == old(ring).used_vertices@[1],
        !found ==> final(ring).available_segments@ == old(ring).available_segments@
            && final(ring).used_segments@ == old(ring).used_segments@,
        !found ==> forall|ext: Seq<usize>, wext: Seq<NodePos>|
            !#[trigger] closing_walk(
                relation_segments@,
                old(ring).available_segments@,
                is_inner,
                first_pos,
                old(ring).used_segments@,
                old(ring).used_vertices@,
                ext,
                wext,
            ),
{
    let ghost segs = relation_segments@;
    let ghost orig = ring.available_segments@;
    let ghost seed = ring.used_segments@;
    let ghost base: nat = longest(connections@) + 2;
    let n = relation_segments.len();
    // Each frame: the adjacency list being walked (or `connections.len()` for none), and how
    // many of its entries are still to be tried.
    let mut frames: Vec<(usize, usize)> = Vec::new();
    let ghost verts_start = ring.used_vertices@;
    push_next_segments(last_pos, connections, &mut frames);
    assert(frames@[0] == frames@.last());
    proof {
        let f = frames@[0];
        if f.0 < connections@.len() {
            assert(!covered_by(connections@[f.0 as int].segments@, f.1 as int, 0, first_pos));
        }
    }
    loop
        invariant
            connections_wf(segs, connections@),
            keys_unique(connections@),
            connections_complete(segs, connections@),
            verts_start == old(ring).used_vertices@,
            ring.used_vertices@[1] == verts_start[1],
            verts_start.len() == 2,
            verts_start[0] == first_pos,
            segs == relation_segments@,
            n == segs.len(),
            orig == old(ring).available_segments@,
            seed == old(ring).used_segments@,
            base == longest(connections@) + 2,
            path_ok(segs, *ring, orig, first_pos, is_inner),
            ring.used_segments@[0] == seed[0],
            seed.len() == 1,
            frames@.len() == ring.used_segments@.len(),
            forall|k: int|
                0 <= k < frames@.len() ==> {
                    let f = #[trigger] frames@[k];
                    &&& f.0 <= connections@.len()
                    &&& f.1 + 2 <= base
                    &&& f.0 < connections@.len() ==> connections@[f.0 as int].pos
                        == ring.used_vertices@[k + 1] && f.1 <= connections@[f.0 as int].segments@.len()
                    &&& f.0 == connections@.len() ==> f.1 == 0 && forall|e: int|
                        0 <= e < connections@.len() ==> connections@[e].pos != ring.used_vertices@[k + 1]
                },
            forall|k: int|
                0 <= k < frames@.len() - 1 ==> frame_done(
                    segs,
                    connections@,
                    orig,
                    is_inner,
                    first_pos,
                    ring.used_segments@,
                    ring.used_vertices@,
                    #[trigger] frames@[k],
                    k,
                    frames@[k].1 + 1,
                ) && in_progress(connections@, is_inner, ring.used_segments@, ring.used_vertices@, frames@[k], k),
            frame_done(
                segs,
                connections@,
                orig,
                is_inner,
                first_pos,
                ring.used_segments@,
                ring.used_vertices@,
                frames@.last(),
                frames@.len() - 1,
                frames@.last().1 as int,
            ),
            forall|k: int|
                1 <= k < ring.used_segments@.len() ==> !(#[trigger] ring.used_vertices@[k + 1] == first_pos && k + 1 >= 3),
        decreases weight(frames@, base, count_true(ring.available_segments@)),
    {
        let top = frames.len() - 1;
        let (e, rem) = frames[top];
        let ghost w0 = frames@;
        let ghost before = ring.available_segments@;
        let ghost used0 = ring.used_segments@;
        let ghost verts0 = ring.used_vertices@;
        if rem == 0 {
            if top == 0 {
                proof {
                    assert(ring.used_segments@ =~= seed);
                    assert forall|i: usize| i < segs.len() implies ring.available_segments@[i as int]
                        == orig[i as int] by {
                        if seed.contains(i) {
                            let k = choose|k: int| 0 <= k < seed.len() && seed[k] == i;
                            assert(k == 0);
                        }
                    }
                    assert forall|j: int| 0 <= j < segs.len() implies ring.available_segments@[j]
                        == orig[j] by {
                        assert(ring.available_segments@[(j as usize) as int] == orig[(j as usize) as int]);
                    }
                    assert(ring.available_segments@ =~= orig);
                    assert(used0.subrange(0, 1) =~= used0);
                    assert(verts0.subrange(0, 2) =~= verts0);
                    assert(verts0 =~= verts_start);
                    lemma_exhausted(segs, connections@, orig, is_inner, first_pos, used0, verts0, e);
                }
                return false;
            }
            let ghost last = used0.last();
            assert(used0.contains(last));
            let ghost qu = used0.subrange(0, top as int);
            let ghost qv = verts0.subrange(0, top + 1);
            proof {
                assert(used0.subrange(0, top + 1) =~= used0);
                assert(verts0.subrange(0, top + 2) =~= verts0);
                lemma_exhausted(segs, connections@, orig, is_inner, first_pos, used0, verts0, e);
                assert(qu.push(used0[top as int]) =~= used0);
                assert(qv.push(verts0[top + 1]) =~= verts0);
                assert(!(verts0[top + 1] == first_pos && top + 1 >= 3));
                lemma_dead_step(segs, orig, is_inner, first_pos, qu, qv, used0[top as int], verts0[top + 1]);
            }
            ring.exclude_segment();
            frames.pop();
            proof {
                let nu = ring.used_segments@;
                let nv = ring.used_vertices@;
                assert forall|k: int| 0 <= k < frames@.len() - 1 implies frame_done(
                    segs,
                    connections@,
                    orig,
                    is_inner,
                    first_pos,
                    nu,
                    nv,
                    #[trigger] frames@[k],
                    k,
                    frames@[k].1 + 1,
                ) && in_progress(connections@, is_inner, nu, nv, frames@[k], k) by {
                    assert(frames@[k] == w0[k]);
                    assert(nu.subrange(0, k + 1) =~= used0.subrange(0, k + 1));
                    assert(nv.subrange(0, k + 2) =~= verts0.subrange(0, k + 2));
                    assert(frame_done(segs, connections@, orig, is_inner, first_pos, used0, verts0, w0[k], k, w0[k].1 + 1));
                    assert(in_progress(connections@, is_inner, used0, verts0, w0[k], k));
                }
                let t = top - 1;
                let f = frames@[t];
                assert(f == w0[t]);
                assert(in_progress(connections@, is_inner, used0, verts0, w0[t], t));
                assert(frame_done(segs, connections@, orig, is_inner, first_pos, used0, verts0, w0[t], t, w0[t].1 + 1));
                assert(nu.subrange(0, t + 1) =~= qu);
                assert(nv.subrange(0, t + 2) =~= qv);
                assert(used0.subrange(0, t + 1) =~= qu);
                assert(verts0.subrange(0, t + 2) =~= qv);
                let list = connections@[f.0 as int].segments@;
                assert forall|ext: Seq<usize>, wext: Seq<NodePos>|
                    #[trigger] closing_walk(segs, orig, is_inner, first_pos, qu, qv, ext, wext) implies !covered_by(
                    list,
                    f.1 as int,
                    ext[0],
                    wext[0],
                ) by {
                    if covered_by(list, f.1 as int, ext[0], wext[0]) {
                        let p = choose|p: int|
                            f.1 <= p < list.len() && (#[trigger] list[p]).segment_index == ext[0] && list[p].other_side == wext[0];
                        if p > f.1 {
                            assert(covered_by(list, f.1 + 1, ext[0], wext[0]));
                        }
                    }
                }
                assert(frame_done(segs, connections@, orig, is_inner, first_pos, nu, nv, frames@.last(), frames@.len() - 1, frames@.last().1 as int));
                lemma_count_update(before, last as int, true);
                let used = ring.used_segments@;
                assert(used0[used0.len() - 1] == last);
                assert(orig[last as int]);
                assert forall|i: usize| i < segs.len() implies ring.available_segments@[i as int] == (
                orig[i as int] && !used.contains(i)) by {
                    if i == last {
                        if used.contains(i) {
                            let k = choose|k: int| 0 <= k < used.len() && used[k] == i;
                            assert(used0[k] == used0[used0.len() - 1]);
                        }
                    } else {
                        if used0.contains(i) {
                            let k = choose|k: int| 0 <= k < used0.len() && used0[k] == i;
                            assert(k < used0.len() - 1);
                            assert(used[k] == used0[k]);
                        }
                    }
                }
                assert forall|k: int| 1 <= k < used.len() implies #[trigger] fresh_or_start(
                    ring.used_vertices@,
                    k,
                    first_pos,
                ) by {
                    assert(fresh_or_start(verts0, k, first_pos));
                    assert(ring.used_vertices@.subrange(0, k + 1) =~= verts0.subrange(0, k + 1));
                }
                assert(w0.drop_last() =~= frames@);
                assert(w0.last() == (e, rem));
                lemma_power_pos(base, count_true(before));
                lemma_weight_pop(w0, base, count_true(before));
                assert(weight(frames@, base, count_true(ring.available_segments@)) < weight(w0, base, count_true(before)));
            }
        } else {
            frames.set(top, (e, rem - 1));
            proof {
                lemma_weight_step(w0, base, count_true(before), e);
                lemma_power_pos(base, count_true(before));
            }
            let c = connections[e].segments[rem - 1];
            assert(entry_ok(segs, connections@[e as int].pos, connections@[e as int].segments@[rem - 1]));
            let usable = c.is_inner == is_inner && ring.available_segments[c.segment_index] && (
            !contains_pos(&ring.used_vertices, c.other_side) || same_pos(c.other_side, first_pos));
            proof {
                let list = connections@[e as int].segments@;
                assert(list[rem - 1] == c);
                assert(used0.subrange(0, top + 1) =~= used0);
                assert(verts0.subrange(0, top + 2) =~= verts0);
                assert(frame_done(segs, connections@, orig, is_inner, first_pos, used0, verts0, w0[top as int], top as int, rem as int));
                if !usable {
                    assert forall|ext: Seq<usize>, wext: Seq<NodePos>|
                        #[trigger] closing_walk(segs, orig, is_inner, first_pos, used0, verts0, ext, wext) implies !covered_by(
                        list,
                        rem - 1,
                        ext[0],
                        wext[0],
                    ) by {
                        if covered_by(list, rem - 1, ext[0], wext[0]) {
                            let p = choose|p: int|
                                rem - 1 <= p < list.len() && (#[trigger] list[p]).segment_index == ext[0] && list[p].other_side == wext[0];
                            if p > rem - 1 {
                                assert(covered_by(list, rem as int, ext[0], wext[0]));
                            } else {
                                assert(step_ok(segs, orig, is_inner, first_pos, used0, verts0, ext[0], wext[0]));
                            }
                        }
                    }
                    assert forall|k: int| 0 <= k < frames@.len() - 1 implies #[trigger] frames@[k] == w0[k] by {}
                }
            }
            if usable {
                let ghost w1 = frames@;
                ring.include_segment(&c);
                proof {
                    lemma_count_update(before, c.segment_index as int, false);
                    let used = ring.used_segments@;
                    assert(!used0.contains(c.segment_index));
                    assert(used.last() == c.segment_index);
                    assert forall|i: usize| i < segs.len() implies ring.available_segments@[i as int]
                        == (orig[i as int] && !used.contains(i)) by {
                        if used.contains(i) && i != c.segment_index {
                            let k = choose|k: int| 0 <= k < used.len() && used[k] == i;
                            assert(k < used0.len());
                            assert(used0[k] == i);
                        }
                        if used0.contains(i) {
                            let k = choose|k: int| 0 <= k < used0.len() && used0[k] == i;
                            assert(used[k] == i);
                        }
                    }
                    assert(verts0[top + 1] == verts0.last());
                    assert forall|k: int| 1 <= k < used.len() implies #[trigger] fresh_or_start(
                        ring.used_vertices@,
                        k,
                        first_pos,
                    ) by {
                        if k < used0.len() {
                            assert(fresh_or_start(verts0, k, first_pos));
                            assert(ring.used_vertices@.subrange(0, k + 1) =~= verts0.subrange(0, k + 1));
                        } else {
                            assert(ring.used_vertices@.subrange(0, k + 1) =~= verts0);
                        }
                    }
                    assert(joins(segs[used[top + 1] as int], ring.used_vertices@[top + 1], ring.used_vertices@[top + 2]));
                }
                if same_pos(first_pos, c.other_side) && ring.used_segments.len() >= 3 {
                    return true;
                }
                push_next_segments(c.other_side, connections, &mut frames);
                proof {
                    assert(frames@ =~= w1.push(frames@.last()));
                    assert forall|k: int| 0 <= k < top implies #[trigger] w1[k] == w0[k] by {}
                    let nu = ring.used_segments@;
                    let nv = ring.used_vertices@;
                    assert forall|k: int| 0 <= k < frames@.len() - 1 implies frame_done(
                        segs,
                        connections@,
                        orig,
                        is_inner,
                        first_pos,
                        nu,
                        nv,
                        #[trigger] frames@[k],
                        k,
                        frames@[k].1 + 1,
                    ) && in_progress(connections@, is_inner, nu, nv, frames@[k], k) by {
                        assert(nu.subrange(0, k + 1) =~= used0.subrange(0, k + 1));
                        assert(nv.subrange(0, k + 2) =~= verts0.subrange(0, k + 2));
                        if k < top {
                            assert(frames@[k] == w0[k]);
                            assert(frame_done(segs, connections@, orig, is_inner, first_pos, used0, verts0, w0[k], k, w0[k].1 + 1));
                            assert(in_progress(connections@, is_inner, used0, verts0, w0[k], k));
                        } else {
                            assert(frames@[k] == (e, (rem - 1) as usize));
                        }
                    }
                    let f = frames@.last();
                    if f.0 < connections@.len() {
                        let list = connections@[f.0 as int].segments@;
                        assert forall|ext: Seq<usize>, wext: Seq<NodePos>|
                            #[trigger] closing_walk(segs, orig, is_inner, first_pos, nu.subrange(0, top + 2), nv.subrange(0, top + 3), ext, wext)
                            implies !covered_by(list, f.1 as int, ext[0], wext[0]) by {}
                    }
                    assert(frames@ =~= w1.push(frames@.last()));
                    lemma_weight_push(w1, base, count_true(ring.available_segments@), frames@.last());
                }
                assert(weight(frames@, base, count_true(ring.available_segments@)) < weight(w0, base, count_true(before)));
            } else {
                assert(weight(frames@, base, count_true(ring.available_segments@)) < weight(w0, base, count_true(before)));
            }
        }
    }
}


/// Seeds a ring at each free segment in turn, lowest index first, and returns the first ring
/// that closes; its segments are taken out of `available_segments`.
pub fn find_ring(
    relation_segments: &Vec<NodeDescPair>,
    connections: &Vec<Connection>,
    ring: &mut CurrentRing,
) -> (res: Option<Vec<usize>>)
    requires
        connections_wf(relation_segments@, connections@),
        keys_unique(connections@),
        connections_complete(relation_segments@, connections@),
        old(ring).available_segments@.len() == relation_segments@.len(),
    ensures
        final(ring).available_segments@.len() == relation_segments@.len(),
        res is None ==> final(ring).available_segments@ == old(ring).available_segments@,
        res is None ==> forall|s: usize|
            s < relation_segments@.len() && old(ring).available_segments@[s as int] ==> !#[trigger] seeds_ring(
                relation_segments@,
                old(ring).available_segments@,
                s,
            ),
        res is Some ==> {
                let r = res->Some_0;
                &&& is_ring(relation_segments@, r@)
                &&& seeds_ring(relation_segments@, old(ring).available_segments@, r@[0])
                &&& forall|t: usize|
                    t < r@[0] && old(ring).available_segments@[t as int] ==> !#[trigger] seeds_ring(
                        relation_segments@,
                        old(ring).available_segments@,
                        t,
                    )
                &&& forall|k: int|
                    0 <= k < r@.len() ==> old(ring).available_segments@[#[trigger] r@[k] as int]
                &&& forall|i: usize|
                    #![trigger final(ring).available_segments@[i as int]]
                    i < relation_segments@.len() ==> final(ring).available_segments@[i as int] == (
                    old(ring).available_segments@[i as int] && !r@.contains(i))
                &&& count_true(final(ring).available_segments@) + r@.len() == count_true(
                    old(ring).available_segments@,
                )
            },
{
    let ghost segs = relation_segments@;
    let ghost orig = ring.available_segments@;
    let n = relation_segments.len();
    let mut start_idx: usize = 0;
    while start_idx < n
        invariant
            segs == relation_segments@,
            n == segs.len(),
            connections_wf(segs, connections@),
            keys_unique(connections@),
            connections_complete(segs, connections@),
            orig == old(ring).available_segments@,
            ring.available_segments@ == orig,
            orig.len() == n,
            start_idx <= n,
            forall|s: usize|
                s < start_idx && orig[s as int] ==> !#[trigger] seeds_ring(segs, orig, s),
        decreases n - start_idx,
    {
        if ring.available_segments[start_idx] {
            ring.available_segments.set(start_idx, false);
            let start_segment = &relation_segments[start_idx];
            ring.used_segments = Vec::new();
            ring.used_segments.push(start_idx);
            ring.used_vertices = Vec::new();
            ring.used_vertices.push(start_segment.node1.pos);
            ring.used_vertices.push(start_segment.node2.pos);
            let ghost seeded = ring.available_segments@;
            let ghost seed_used = ring.used_segments@;
            let ghost seed_verts = ring.used_vertices@;
            proof {
                let used = ring.used_segments@;
                assert(used[0] == start_idx);
                assert forall|i: usize| i < segs.len() implies seeded[i as int] == (seeded[i as int]
                    && !used.contains(i)) by {
                    if used.contains(i) {
                        let k = choose|k: int| 0 <= k < used.len() && used[k] == i;
                        assert(k == 0);
                    }
                }
                assert(joins(segs[used[0] as int], ring.used_vertices@[0], ring.used_vertices@[1]));
                lemma_count_update(orig, start_idx as int, false);
            }
            if find_ring_from(
                start_segment.node2.pos,
                start_segment.node1.pos,
                start_segment.is_inner,
                relation_segments,
                connections,
                ring,
            ) {
                proof {
                    lemma_path_closes(segs, *ring, seeded, start_segment.node1.pos, start_segment.is_inner, 1);
                    let used = ring.used_segments@;
                    let verts = ring.used_vertices@;
                    assert(used.subrange(0, 1) =~= seq![start_idx]);
                    assert(seed_verts[1] == start_segment.node2.pos);
                    assert(verts.subrange(0, 2) =~= seq![start_segment.node1.pos, start_segment.node2.pos]);
                    assert(seeded =~= orig.update(start_idx as int, false));
                    assert(seed_walk_closes(
                        segs,
                        orig,
                        start_idx,
                        used.subrange(1, used.len() as int),
                        verts.subrange(2, verts.len() as int),
                    ));
                }
                let mut out: Vec<usize> = Vec::new();
                std::mem::swap(&mut out, &mut ring.used_segments);
                proof {
                    let r = out@;
                    let v = ring.used_vertices@;
                    assert(closes(segs, r, v));
                    assert forall|k: int| 0 <= k < r.len() implies orig[#[trigger] r[k] as int] by {
                        if k > 0 {
                            assert(seeded[r[k] as int]);
                        }
                    }
                    assert(r.contains(start_idx));
                }
                return Some(out);
            }
            ring.available_segments.set(start_idx, true);
            assert(ring.available_segments@ =~= orig);
            proof {
                assert(seeded =~= orig.update(start_idx as int, false));
                assert(seed_used =~= seq![start_idx]);
                assert(seed_verts =~= seq![start_segment.node1.pos, start_segment.node2.pos]);
                assert forall|ext: Seq<usize>, wext: Seq<NodePos>|
                    !#[trigger] seed_walk_closes(segs, orig, start_idx, ext, wext) by {
                    assert(!closing_walk(segs, seeded, start_segment.is_inner, start_segment.node1.pos, seed_used, seed_verts, ext, wext));
                }
            }
        }
        start_idx += 1;
    }
    None
}

/// Walks the segments of `ring` and lists the node met at the start of each.
fn ring_to_polygon(relation_segments: &Vec<NodeDescPair>, ring: &Vec<usize>) -> (r: Polygon)
    requires
        ring@.len() > 0,
        forall|k: int| 0 <= k < ring@.len() ==> #[trigger] ring@[k] < relation_segments@.len(),
    ensures
        r@ == walk_ids(relation_segments@, ring@),
        r@.len() == ring@.len(),
{
    let mut polygon: Polygon = Vec::new();
    polygon.push(relation_segments[ring[0]].node1.id);
    let mut idx: usize = 0;
    assert(ring@.subrange(0, 1).drop_last().len() == 0);
    while idx < ring.len() - 1
        invariant
            idx + 1 <= ring@.len(),
            forall|k: int| 0 <= k < ring@.len() ==> #[trigger] ring@[k] < relation_segments@.len(),
            polygon@ == walk_ids(relation_segments@, ring@.subrange(0, idx + 1)),
            polygon@.len() == idx + 1,
        decreases ring.len() - idx,
    {
        let seg = &relation_segments[ring[idx]];
        let last_node = polygon[polygon.len() - 1];
        polygon.push(
            if last_node == seg.node1.id {
                seg.node2.id
            } else {
                seg.node1.id
            },
        );
        assert(ring@.subrange(0, idx + 2).drop_last() =~= ring@.subrange(0, idx + 1));
        idx += 1;
    }
    assert(ring@.subrange(0, ring@.len() as int) =~= ring@);
    polygon
}


/// Each ring starts at the lowest-indexed segment, among those left free by the rings before
/// it, that starts a ring among the free segments.
pub open spec fn seeded_in_order(segs: Seq<NodeDescPair>, rings: Seq<Seq<usize>>) -> bool {
    forall|j: int|
        0 <= j < rings.len() ==> {
            let free = left_over(rings.subrange(0, j), segs.len());
            &&& free[(#[trigger] rings[j])[0] as int]
            &&& seeds_ring(segs, free, rings[j][0])
            &&& forall|t: usize|
                t < rings[j][0] && free[t as int] ==> !#[trigger] seeds_ring(segs, free, t)
        }
}

/// Arranges the segments of a multipolygon relation into closed rings and returns the node
/// walk of each ring. Rings are seeded at the lowest-indexed free segment. Where some
/// segments cannot be placed on any ring, the relation is reported as malformed, with the
/// number of rings completed and of segments left over.
pub fn find_polygons_in_multipolygon(
    relation_id: u64,
    relation_segments: &Vec<NodeDescPair>,
) -> (res: Result<Vec<Polygon>, ReconstructionFailure>)
    ensures
        res is Ok ==> exists|rings: Seq<Seq<usize>>|
            #[trigger] decomposes(relation_segments@, rings, (res->Ok_0)@) && seeded_in_order(
                relation_segments@,
                rings,
            ),
        res is Err ==> {
                let failure = res->Err_0;
                &&& failure.relation_id == relation_id
                &&& failure.unmatched_segments > 0
                &&& exists|rings: Seq<Seq<usize>>|
                    #[trigger] disjoint_rings(relation_segments@, rings) && seeded_in_order(
                        relation_segments@,
                        rings,
                    ) && failure.complete_rings == rings.len() && failure.unmatched_segments == unmatched(
                        rings,
                        relation_segments@.len(),
                    ) && forall|s: usize|
                        s < relation_segments@.len() && !covered(rings, s) ==> !#[trigger] seeds_ring(
                            relation_segments@,
                            left_over(rings, relation_segments@.len()),
                            s,
                        )
            },
{
    let ghost segs = relation_segments@;
    let connections = get_connections(relation_segments);
    let n = relation_segments.len();
    let mut available: Vec<bool> = Vec::new();
    while available.len() < n
        invariant
            available@.len() <= n,
            forall|i: int| 0 <= i < available@.len() ==> available@[i],
        decreases n - available.len(),
    {
        available.push(true);
    }
    let mut ring = CurrentRing {
        available_segments: available,
        used_segments: Vec::new(),
        used_vertices: Vec::new(),
    };
    let mut unmatched_count: usize = n;
    let mut all_rings: Vec<Vec<usize>> = Vec::new();
    let ghost mut rings: Seq<Seq<usize>> = seq![];
    proof {
        lemma_count_all(ring.available_segments@);
    }
    while unmatched_count > 0
        invariant
            segs == relation_segments@,
            n == segs.len(),
            connections_wf(segs, connections@),
            keys_unique(connections@),
            connections_complete(segs, connections@),
            ring.available_segments@.len() == n,
            unmatched_count == count_true(ring.available_segments@),
            all_rings@.len() == rings.len(),
            forall|j: int| 0 <= j < rings.len() ==> (#[trigger] all_rings@[j])@ == rings[j],
            disjoint_rings(segs, rings),
            seeded_in_order(segs, rings),
            forall|i: usize| i < n ==> ring.available_segments@[i as int] == !covered(rings, i),
        decreases unmatched_count,
    {
        let ghost before = ring.available_segments@;
        match find_ring(relation_segments, &connections, &mut ring) {
            Some(r) => {
                let ghost nr = rings.push(r@);
                proof {
                    assert forall|i: usize| #[trigger] covered(nr, i) == (covered(rings, i) || r@.contains(i)) by {
                        if covered(rings, i) {
                            let j = choose|j: int| 0 <= j < rings.len() && #[trigger] rings[j].contains(i);
                            assert(nr[j] == rings[j]);
                        }
                        if r@.contains(i) {
                            assert(nr[rings.len() as int] == r@);
                        }
                        if covered(nr, i) {
                            let j = choose|j: int| 0 <= j < nr.len() && #[trigger] nr[j].contains(i);
                            if j < rings.len() {
                                assert(nr[j] == rings[j]);
                            }
                        }
                    }
                    assert forall|j: int| 0 <= j < nr.len() implies is_ring(segs, #[trigger] nr[j]) by {
                        if j < rings.len() {
                            assert(nr[j] == rings[j]);
                        }
                    }
                    assert forall|a: int, b: int, k: int|
                        0 <= a < nr.len() && 0 <= b < nr.len() && a != b && 0 <= k < nr[a].len()
                        implies !(#[trigger] nr[b].contains(nr[a][k])) by {
                        let x = nr[a][k];
                        if a == rings.len() {
                            assert(nr[b] == rings[b]);
                            assert(r@[k] < n);
                            assert(before[x as int]);
                            if rings[b].contains(x) {
                                assert(covered(rings, x));
                            }
                        } else if b == rings.len() {
                            assert(nr[a] == rings[a]);
                            assert(is_ring(segs, rings[a]));
                            assert(rings[a][k] < n);
                            assert(rings[a].contains(x));
                            assert(covered(rings, x));
                            if r@.contains(x) {
                                let t = choose|t: int| 0 <= t < r@.len() && r@[t] == x;
                                assert(before[r@[t] as int]);
                            }
                        } else {
                            assert(nr[a] == rings[a]);
                            assert(nr[b] == rings[b]);
                        }
                    }
                    assert forall|i: usize| i < n implies ring.available_segments@[i as int]
                        == !covered(nr, i) by {
                        assert(covered(nr, i) == (covered(rings, i) || r@.contains(i)));
                        assert(ring.available_segments@[i as int] == (before[i as int] && !r@.contains(i)));
                        assert(before[i as int] == !covered(rings, i));
                    }
                }
                unmatched_count = unmatched_count - r.len();
                all_rings.push(r);
                proof {
                    assert(before =~= left_over(rings, n as nat));
                    assert forall|j: int| 0 <= j < nr.len() implies {
                        let free = left_over(nr.subrange(0, j), segs.len());
                        &&& free[(#[trigger] nr[j])[0] as int]
                        &&& seeds_ring(segs, free, nr[j][0])
                        &&& forall|t: usize|
                            t < nr[j][0] && free[t as int] ==> !#[trigger] seeds_ring(segs, free, t)
                    } by {
                        if j < rings.len() {
                            assert(nr.subrange(0, j) =~= rings.subrange(0, j));
                            assert(nr[j] == rings[j]);
                        } else {
                            assert(nr.subrange(0, j) =~= rings);
                            assert(r@[0] < n);
                        }
                    }
                    rings = nr;
                }
            },
            None => {
                let failure = ReconstructionFailure {
                    relation_id,
                    complete_rings: all_rings.len(),
                    unmatched_segments: unmatched_count,
                };
                proof {
                    assert(ring.available_segments@ =~= left_over(rings, n as nat));
                    assert(before =~= left_over(rings, n as nat));
                    assert(disjoint_rings(segs, rings));
                }
                return Err(failure);
            },
        }
    }
    proof {
        lemma_count_zero(ring.available_segments@);
        assert forall|i: usize| i < segs.len() implies #[trigger] covered(rings, i) by {
            assert(!ring.available_segments@[i as int]);
        }
    }
    let mut polygons: Vec<Polygon> = Vec::new();
    let mut j: usize = 0;
    while j < all_rings.len()
        invariant
            segs == relation_segments@,
            disjoint_rings(segs, rings),
            seeded_in_order(segs, rings),
            forall|i: usize| i < segs.len() ==> #[trigger] covered(rings, i),
            all_rings@.len() == rings.len(),
            forall|t: int| 0 <= t < rings.len() ==> (#[trigger] all_rings@[t])@ == rings[t],
            j <= all_rings@.len(),
            polygons@.len() == j,
            forall|t: int| 0 <= t < j ==> (#[trigger] polygons@[t])@ == walk_ids(segs, rings[t]),
        decreases all_rings.len() - j,
    {
        assert(is_ring(segs, rings[j as int]));
        let polygon = ring_to_polygon(relation_segments, &all_rings[j]);
        polygons.push(polygon);
        j += 1;
    }
    let out: Result<Vec<Polygon>, ReconstructionFailure> = Ok(polygons);
    assert(decomposes(relation_segments@, rings, (out->Ok_0)@));
    out
}


/// Every ring of a decomposition stays on one side of the boundary: inner and outer
/// segments never share a ring, even where they share an endpoint.
pub proof fn lemma_rings_are_homogeneous(
    segs: Seq<NodeDescPair>,
    rings: Seq<Seq<usize>>,
    polys: Seq<Vec<usize>>,
)
    requires
        decomposes(segs, rings, polys),
    ensures
        forall|j: int, k: int|
            0 <= j < rings.len() && 0 <= k < rings[j].len() ==> segs[#[trigger] rings[j][k] as int].is_inner
                == segs[rings[j][0] as int].is_inner,
{
    assert forall|j: int, k: int|
        0 <= j < rings.len() && 0 <= k < rings[j].len() implies segs[#[trigger] rings[j][k] as int].is_inner
        == segs[rings[j][0] as int].is_inner by {
        assert(is_ring(segs, rings[j]));
    }
}

/// A ring takes at least three segments, so one or two segments (such as a pair that goes
/// from A to B and back) never decompose into rings.
pub proof fn lemma_too_few_segments_for_a_ring(
    segs: Seq<NodeDescPair>,
    rings: Seq<Seq<usize>>,
    polys: Seq<Vec<usize>>,
)
    requires
        1 <= segs.len() <= 2,
    ensures
        !decomposes(segs, rings, polys),
{
    if decomposes(segs, rings, polys) {
        assert(covered(rings, 0));
        let j = choose|j: int| 0 <= j < rings.len() && #[trigger] rings[j].contains(0usize);
        let r = rings[j];
        assert(is_ring(segs, r));
        assert(r[0] < segs.len() && r[1] < segs.len() && r[2] < segs.len());
        assert(r[0] != r[1] && r[0] != r[2] && r[1] != r[2]);
    }
}


/// The position after `i` on a loop of `n` positions.
pub open spec fn succ(i: int, n: int) -> int {
    if i + 1 < n {
        i + 1
    } else {
        0
    }
}

/// `m` positions after `j` on a loop of `n` positions, for `m <= n`.
spec fn advance(j: int, m: int, n: int) -> int {
    if j + m < n {
        j + m
    } else {
        j + m - n
    }
}

proof fn lemma_count_none(s: Seq<bool>)
    requires
        forall|i: int| 0 <= i < s.len() ==> !s[i],
    ensures
        count_true(s) == 0,
    decreases s.len(),
{
    if s.len() > 0 {
        lemma_count_none(s.drop_last());
    }
}

proof fn lemma_walk_len(segs: Seq<NodeDescPair>, r: Seq<usize>)
    requires
        r.len() > 0,
    ensures
        walk_ids(segs, r).len() == r.len(),
    decreases r.len(),
{
    if r.len() > 1 {
        lemma_walk_len(segs, r.drop_last());
    }
}

/// `m` positions before `p` on a loop of `n` positions, for `m <= n`.
spec fn retreat(p: int, m: int, n: int) -> int {
    if p - m >= 0 {
        p - m
    } else {
        p - m + n
    }
}

/// The segments form one simple loop through the distinct positions `v`, in any order and
/// direction: segment `i` is the loop's edge `e[i]`, joining position `e[i]` to the next one,
/// `f` tells which segment each edge is, and all segments lie on the same side.
pub open spec fn loop_through(segs: Seq<NodeDescPair>, v: Seq<NodePos>, e: Seq<int>, f: Seq<usize>) -> bool {
    let n = segs.len() as int;
    &&& n >= 3
    &&& n <= usize::MAX
    &&& v.len() == n
    &&& v.no_duplicates()
    &&& e.len() == n
    &&& f.len() == n
    &&& forall|i: int|
        0 <= i < n ==> 0 <= #[trigger] e[i] < n && f[e[i]] as int == i && joins(
            segs[i],
            v[e[i]],
            v[succ(e[i], n)],
        ) && segs[i].is_inner == segs[0].is_inner
    &&& forall|q: int| 0 <= q < n ==> (#[trigger] f[q]) < n && e[f[q] as int] == q
}

/// Position `k` of a walk round the loop from position `p0`, forwards or backwards.
spec fn loop_pos(fwd: bool, p0: int, k: int, n: int) -> int {
    if fwd {
        advance(p0, k, n)
    } else {
        retreat(p0, k, n)
    }
}

/// The edge taken at step `m` of that walk.
spec fn loop_edge(fwd: bool, p0: int, m: int, n: int) -> int {
    if fwd {
        advance(p0, m, n)
    } else {
        retreat(p0, m + 1, n)
    }
}

proof fn lemma_general_walk_prefix(
    segs: Seq<NodeDescPair>,
    v: Seq<NodePos>,
    e: Seq<int>,
    f: Seq<usize>,
    r: Seq<usize>,
    vv: Seq<NodePos>,
    fwd: bool,
    p0: int,
    k: int,
)
    requires
        loop_through(segs, v, e, f),
        is_ring(segs, r),
        closes(segs, r, vv),
        0 <= p0 < segs.len(),
        vv[0] == v[p0],
        fwd ==> e[r[0] as int] == p0,
        !fwd ==> succ(e[r[0] as int], segs.len() as int) == p0,
        0 <= k <= r.len(),
        k <= segs.len(),
    ensures
        vv[k] == v[loop_pos(fwd, p0, k, segs.len() as int)],
        forall|m: int| 0 <= m < k ==> e[#[trigger] r[m] as int] == loop_edge(fwd, p0, m, segs.len() as int),
    decreases k,
{
    let n = segs.len() as int;
    if k > 0 {
        let q = k - 1;
        lemma_general_walk_prefix(segs, v, e, f, r, vv, fwd, p0, q);
        let t = r[q] as int;
        let g = e[t];
        let p = loop_pos(fwd, p0, q, n);
        assert(joins(segs[r[q] as int], vv[q], vv[q + 1]));
        assert(joins(segs[t], v[g], v[succ(g, n)]));
        assert(0 <= g < n);
        if g == p {
            assert(vv[q + 1] == v[succ(g, n)]);
            if !fwd {
                if q == 0 {
                    assert(succ(g, n) == g);
                    assert(false);
                } else {
                    assert(e[r[q - 1] as int] == loop_edge(fwd, p0, q - 1, n));
                    assert(f[e[r[q - 1] as int]] == r[q - 1]);
                    assert(r[q - 1] == r[q]);
                    assert(false);
                }
            }
        } else {
            assert(v[succ(g, n)] == v[p]);
            assert(succ(g, n) == p);
            assert(vv[q + 1] == v[g]);
            if fwd {
                if q == 0 {
                    assert(succ(g, n) == g);
                    assert(false);
                } else {
                    assert(e[r[q - 1] as int] == loop_edge(fwd, p0, q - 1, n));
                    assert(f[e[r[q - 1] as int]] == r[q - 1]);
                    assert(r[q - 1] == r[q]);
                    assert(false);
                }
            }
        }
    }
}


/// The step at which a walk round the loop from `p0` takes edge `g`.
spec fn step_of_edge(fwd: bool, p0: int, g: int, n: int) -> int {
    if fwd {
        if g >= p0 {
            g - p0
        } else {
            g + n - p0
        }
    } else if p0 - 1 - g >= 0 {
        p0 - 1 - g
    } else {
        p0 - 1 - g + n
    }
}

/// On a simple loop in any order and direction, a ring goes all the way round.
proof fn lemma_general_ring_goes_round(
    segs: Seq<NodeDescPair>,
    v: Seq<NodePos>,
    e: Seq<int>,
    f: Seq<usize>,
    r: Seq<usize>,
)
    requires
        loop_through(segs, v, e, f),
        is_ring(segs, r),
    ensures
        r.len() == segs.len(),
        forall|i: usize| i < segs.len() ==> r.contains(i),
{
    let n = segs.len() as int;
    let vv = choose|vv: Seq<NodePos>| #[trigger] closes(segs, r, vv);
    let len = r.len() as int;
    let q0 = e[r[0] as int];
    assert(joins(segs[r[0] as int], v[q0], v[succ(q0, n)]));
    let fwd = vv[0] == v[q0];
    let p0 = if fwd {
        q0
    } else {
        succ(q0, n)
    };
    if len > n {
        lemma_general_walk_prefix(segs, v, e, f, r, vv, fwd, p0, n);
        let g = e[r[n] as int];
        let m = step_of_edge(fwd, p0, g, n);
        assert(loop_edge(fwd, p0, m, n) == g);
        assert(e[r[m] as int] == g);
        assert(r[m] == r[n]);
        assert(false);
    }
    lemma_general_walk_prefix(segs, v, e, f, r, vv, fwd, p0, len);
    assert(vv[len] == vv[0]);
    assert(loop_pos(fwd, p0, len, n) == p0);
    assert(len == n);
    assert forall|i: usize| i < segs.len() implies r.contains(i) by {
        let g = e[i as int];
        let m = step_of_edge(fwd, p0, g, n);
        assert(loop_edge(fwd, p0, m, n) == g);
        assert(e[r[m] as int] == g);
        assert(r[m] == i);
    }
}

/// Going on round a simple loop from step `k` closes the walk that has come along its first
/// `k` edges from position `p0`.
proof fn lemma_general_walk_closes(
    segs: Seq<NodeDescPair>,
    v: Seq<NodePos>,
    e: Seq<int>,
    f: Seq<usize>,
    avail: Seq<bool>,
    fwd: bool,
    p0: int,
    k: int,
)
    requires
        loop_through(segs, v, e, f),
        0 <= p0 < segs.len(),
        avail.len() == segs.len(),
        forall|i: int|
            0 <= i < segs.len() && i != f[loop_edge(fwd, p0, 0, segs.len() as int)] as int ==> #[trigger] avail[i],
        1 <= k < segs.len(),
    ensures
        closing_walk(
            segs,
            avail,
            segs[0].is_inner,
            v[p0],
            Seq::new(k as nat, |i: int| f[loop_edge(fwd, p0, i, segs.len() as int)]),
            Seq::new((k + 1) as nat, |i: int| v[loop_pos(fwd, p0, i, segs.len() as int)]),
            Seq::new((segs.len() - k) as nat, |i: int| f[loop_edge(fwd, p0, k + i, segs.len() as int)]),
            Seq::new((segs.len() - k) as nat, |i: int| v[loop_pos(fwd, p0, k + i + 1, segs.len() as int)]),
        ),
    decreases segs.len() - k,
{
    let n = segs.len() as int;
    let used = Seq::new(k as nat, |i: int| f[loop_edge(fwd, p0, i, n)]);
    let verts = Seq::new((k + 1) as nat, |i: int| v[loop_pos(fwd, p0, i, n)]);
    let ext = Seq::new((n - k) as nat, |i: int| f[loop_edge(fwd, p0, k + i, n)]);
    let wext = Seq::new((n - k) as nat, |i: int| v[loop_pos(fwd, p0, k + i + 1, n)]);
    let g = loop_edge(fwd, p0, k, n);
    let s = f[g];
    let w = v[loop_pos(fwd, p0, k + 1, n)];
    assert(e[s as int] == g);
    assert(s as int != f[loop_edge(fwd, p0, 0, n)] as int) by {
        if s as int == f[loop_edge(fwd, p0, 0, n)] as int {
            assert(e[f[loop_edge(fwd, p0, 0, n)] as int] == loop_edge(fwd, p0, 0, n));
        }
    }
    assert(!used.contains(s)) by {
        if used.contains(s) {
            let m = choose|m: int| 0 <= m < used.len() && used[m] == s;
            assert(e[f[loop_edge(fwd, p0, m, n)] as int] == loop_edge(fwd, p0, m, n));
        }
    }
    if k + 1 < n {
        assert(!verts.contains(w)) by {
            if verts.contains(w) {
                let m = choose|m: int| 0 <= m < verts.len() && verts[m] == w;
                assert(v[loop_pos(fwd, p0, m, n)] == v[loop_pos(fwd, p0, k + 1, n)]);
            }
        }
    }
    assert(joins(segs[s as int], v[g], v[succ(g, n)]));
    assert(verts.last() == v[loop_pos(fwd, p0, k, n)]);
    assert(step_ok(segs, avail, segs[0].is_inner, v[p0], used, verts, ext[0], wext[0]));
    if k + 1 < n {
        lemma_general_walk_closes(segs, v, e, f, avail, fwd, p0, k + 1);
        assert(used.push(s) =~= Seq::new((k + 1) as nat, |i: int| f[loop_edge(fwd, p0, i, n)]));
        assert(verts.push(w) =~= Seq::new((k + 2) as nat, |i: int| v[loop_pos(fwd, p0, i, n)]));
        assert(ext.drop_first() =~= Seq::new((n - (k + 1)) as nat, |i: int| f[loop_edge(fwd, p0, k + 1 + i, n)]));
        assert(wext.drop_first() =~= Seq::new((n - (k + 1)) as nat, |i: int| v[loop_pos(fwd, p0, k + 1 + i + 1, n)]));
    }
}


/// Segments that form one simple loop can never end in failure: either some ring already
/// takes up all of them or, with no ring yet, the first segment starts one.
pub proof fn lemma_loop_never_fails(
    segs: Seq<NodeDescPair>,
    v: Seq<NodePos>,
    e: Seq<int>,
    f: Seq<usize>,
    rings: Seq<Seq<usize>>,
)
    requires
        loop_through(segs, v, e, f),
        disjoint_rings(segs, rings),
    ensures
        unmatched(rings, segs.len()) > 0 ==> exists|s: usize|
            s < segs.len() && !covered(rings, s) && #[trigger] seeds_ring(
                segs,
                left_over(rings, segs.len()),
                s,
            ),
{
    let n = segs.len() as int;
    let free = left_over(rings, segs.len());
    if rings.len() > 0 {
        assert(is_ring(segs, rings[0]));
        lemma_general_ring_goes_round(segs, v, e, f, rings[0]);
        assert forall|i: int| 0 <= i < free.len() implies !free[i] by {
            assert(rings[0].contains(i as usize));
            assert(covered(rings, i as usize));
        }
        lemma_count_none(free);
    } else {
        let q = e[0];
        assert(joins(segs[0], v[q], v[succ(q, n)]));
        let fwd = segs[0].node1.pos == v[q];
        let p0 = if fwd {
            q
        } else {
            succ(q, n)
        };
        assert(loop_edge(fwd, p0, 0, n) == q);
        assert(f[q] == 0);
        let avail = free.update(0, false);
        assert forall|i: int| 0 <= i < n && i != f[loop_edge(fwd, p0, 0, n)] as int implies #[trigger] avail[i] by {
            if covered(rings, i as usize) {
                let j = choose|j: int| 0 <= j < rings.len() && #[trigger] rings[j].contains(i as usize);
            }
        }
        lemma_general_walk_closes(segs, v, e, f, avail, fwd, p0, 1);
        assert(segs[0].node1.pos == v[p0]);
        assert(segs[0].node2.pos == v[loop_pos(fwd, p0, 1, n)]);
        assert(seq![0usize] =~= Seq::new(1nat, |i: int| f[loop_edge(fwd, p0, i, n)]));
        assert(seq![segs[0].node1.pos, segs[0].node2.pos] =~= Seq::new(
            2nat,
            |i: int| v[loop_pos(fwd, p0, i, n)],
        ));
        let ext = Seq::new((n - 1) as nat, |i: int| f[loop_edge(fwd, p0, 1 + i, n)]);
        let wext = Seq::new((n - 1) as nat, |i: int| v[loop_pos(fwd, p0, 1 + i + 1, n)]);
        assert(seed_walk_closes(segs, free, 0, ext, wext));
        assert(seeds_ring(segs, free, 0));
        assert(!covered(rings, 0));
    }
}

/// Segments that form one simple loop decompose only as one ring that takes them all, so its
/// polygon has as many nodes as there are segments.
pub proof fn lemma_loop_gives_one_polygon(
    segs: Seq<NodeDescPair>,
    v: Seq<NodePos>,
    e: Seq<int>,
    f: Seq<usize>,
    rings: Seq<Seq<usize>>,
    polys: Seq<Vec<usize>>,
)
    requires
        loop_through(segs, v, e, f),
        decomposes(segs, rings, polys),
    ensures
        polys.len() == 1,
        rings[0].len() == segs.len(),
        polys[0]@.len() == segs.len(),
{
    assert(covered(rings, 0));
    assert(is_ring(segs, rings[0]));
    lemma_general_ring_goes_round(segs, v, e, f, rings[0]);
    if rings.len() > 1 {
        assert(is_ring(segs, rings[1]));
        assert(rings[0].contains(rings[1][0]));
        assert(false);
    }
    lemma_walk_len(segs, rings[0]);
}

/// The nodes at the loop's positions carry the distinct identifiers `ids`.
pub open spec fn loop_ids(segs: Seq<NodeDescPair>, v: Seq<NodePos>, ids: Seq<usize>) -> bool {
    &&& ids.len() == v.len()
    &&& ids.no_duplicates()
    &&& forall|i: int, p: int|
        0 <= i < segs.len() && 0 <= p < v.len() ==> (#[trigger] segs[i].node1.pos == #[trigger] v[p]
            ==> segs[i].node1.id == ids[p]) && (segs[i].node2.pos == v[p] ==> segs[i].node2.id == ids[p])
}

/// The step at which a walk round the loop from `p0` reaches position `p`.
spec fn step_of_pos(fwd: bool, p0: int, p: int, n: int) -> int {
    if fwd {
        if p >= p0 {
            p - p0
        } else {
            p + n - p0
        }
    } else if p0 - p >= 0 {
        p0 - p
    } else {
        p0 - p + n
    }
}

proof fn lemma_general_walk_ids(
    segs: Seq<NodeDescPair>,
    v: Seq<NodePos>,
    e: Seq<int>,
    f: Seq<usize>,
    ids: Seq<usize>,
    r: Seq<usize>,
    vv: Seq<NodePos>,
    fwd: bool,
    p0: int,
    k: int,
)
    requires
        loop_through(segs, v, e, f),
        loop_ids(segs, v, ids),
        is_ring(segs, r),
        closes(segs, r, vv),
        r.len() == segs.len(),
        0 <= p0 < segs.len(),
        forall|m: int| 0 <= m <= segs.len() ==> #[trigger] vv[m] == v[loop_pos(fwd, p0, m, segs.len() as int)],
        1 <= k <= r.len(),
    ensures
        walk_ids(segs, r.subrange(0, k)) == Seq::new(k as nat, |m: int| ids[loop_pos(fwd, p0, m, segs.len() as int)]),
    decreases k,
{
    let n = segs.len() as int;
    let target = Seq::new(k as nat, |m: int| ids[loop_pos(fwd, p0, m, n)]);
    assert(vv[0] == v[loop_pos(fwd, p0, 0, n)]);
    if k == 1 {
        assert(segs[r[0] as int].node1.pos == v[loop_pos(fwd, p0, 0, n)]);
        assert(walk_ids(segs, r.subrange(0, 1)) =~= target);
    } else {
        lemma_general_walk_ids(segs, v, e, f, ids, r, vv, fwd, p0, k - 1);
        let sub = r.subrange(0, k);
        assert(sub.drop_last() =~= r.subrange(0, k - 1));
        let a = loop_pos(fwd, p0, k - 2, n);
        let b = loop_pos(fwd, p0, k - 1, n);
        let t = r[k - 2] as int;
        assert(vv[k - 2] == v[a]);
        assert(vv[k - 1] == v[b]);
        let c = k - 2;
        assert(joins(segs[r[c] as int], vv[c], vv[c + 1]));
        assert(a != b);
        assert(ids[a] != ids[b]);
        assert(walk_ids(segs, sub) =~= target);
    }
}

/// In the one polygon that a simple loop yields, each node of the loop appears exactly once.
pub proof fn lemma_loop_polygon_has_each_node_once(
    segs: Seq<NodeDescPair>,
    v: Seq<NodePos>,
    e: Seq<int>,
    f: Seq<usize>,
    ids: Seq<usize>,
    rings: Seq<Seq<usize>>,
    polys: Seq<Vec<usize>>,
)
    requires
        loop_through(segs, v, e, f),
        loop_ids(segs, v, ids),
        decomposes(segs, rings, polys),
    ensures
        polys.len() == 1,
        polys[0]@.len() == segs.len(),
        polys[0]@.no_duplicates(),
        forall|p: int| 0 <= p < ids.len() ==> polys[0]@.contains(#[trigger] ids[p]),
{
    lemma_loop_gives_one_polygon(segs, v, e, f, rings, polys);
    let n = segs.len() as int;
    let r = rings[0];
    assert(is_ring(segs, r));
    let vv = choose|vv: Seq<NodePos>| #[trigger] closes(segs, r, vv);
    let q0 = e[r[0] as int];
    assert(joins(segs[r[0] as int], v[q0], v[succ(q0, n)]));
    let fwd = vv[0] == v[q0];
    let p0 = if fwd {
        q0
    } else {
        succ(q0, n)
    };
    lemma_general_walk_prefix(segs, v, e, f, r, vv, fwd, p0, n);
    assert forall|m: int| 0 <= m <= n implies #[trigger] vv[m] == v[loop_pos(fwd, p0, m, n)] by {
        lemma_general_walk_prefix(segs, v, e, f, r, vv, fwd, p0, m);
    }
    lemma_general_walk_ids(segs, v, e, f, ids, r, vv, fwd, p0, n);
    assert(r.subrange(0, n) =~= r);
    let w = polys[0]@;
    assert(w == Seq::new(n as nat, |m: int| ids[loop_pos(fwd, p0, m, n)]));
    assert forall|a: int, b: int| 0 <= a < w.len() && 0 <= b < w.len() && a != b implies w[a] != w[b] by {
        assert(loop_pos(fwd, p0, a, n) != loop_pos(fwd, p0, b, n));
    }
    assert forall|p: int| 0 <= p < ids.len() implies w.contains(#[trigger] ids[p]) by {
        let m = step_of_pos(fwd, p0, p, n);
        assert(loop_pos(fwd, p0, m, n) == p);
        assert(w[m] == ids[p]);
    }
}

} // verus!
