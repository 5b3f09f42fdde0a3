use vstd::prelude::*;
use vstd::multiset::Multiset;
use crate::rendering::bvh::node::BvhNode;

verus! {

/// A collection of primitives, each counted as often as it occurs.
pub type PrimitiveSet = Multiset<u32>;

/// The geometric decisions that building a hierarchy needs, made by whoever knows the
/// primitives' boxes: the box around a run of primitives, the split of a run (or `None`
/// to keep it as one leaf), and on which side of a split a primitive falls. The box of a
/// run depends on which primitives it holds (`bounds_of`), not on their order.
pub trait BvhGeometry {
    type Bounds: Copy;
    type Split;

    /// The box around a collection of primitives.
    spec fn bounds_of(&self, prims: PrimitiveSet) -> Self::Bounds;

    /// The box around the primitives at positions `start .. end` of `order`: the box of
    /// that collection of primitives, whatever their order.
    fn node_bounds(&self, order: &Vec<u32>, start: usize, end: usize) -> (r: Self::Bounds)
        requires
            start <= end <= order.len(),
        ensures
            r == self.bounds_of(order@.subrange(start as int, end as int).to_multiset()),
    ;

    /// How to split the primitives at positions `start .. end` of `order`, whose box is
    /// `bounds`, or `None` when splitting costs more than it saves.
    fn find_split(&self, order: &Vec<u32>, start: usize, end: usize, bounds: &Self::Bounds) -> (r: Option<Self::Split>)
        requires
            start <= end <= order.len(),
        ensures
            r == self.split_for(order@.subrange(start as int, end as int).to_multiset(), *bounds),
    ;

    /// The split chosen for a collection of primitives whose box is `bounds`, or `None`
    /// when they are best kept as one leaf.
    spec fn split_for(&self, prims: PrimitiveSet, bounds: Self::Bounds) -> Option<Self::Split>;

    /// Whether a primitive falls on the left side of a split.
    spec fn left_of(&self, split: Self::Split, primitive: u32) -> bool;

    /// Whether `primitive` goes to the left half of `split`.
    fn goes_left(&self, split: &Self::Split, primitive: u32) -> (r: bool)
        ensures
            r == self.left_of(*split, primitive),
    ;
}

/// A run of positions `start_index .. end_index` in the primitive order.
#[derive(Clone, Copy)]
pub struct IndexRange {
    pub start_index: usize,
    pub end_index: usize,
}

impl IndexRange {
    /// How many primitives the run holds.
    pub fn primitive_count(&self) -> (c: u32)
        requires
            self.start_index <= self.end_index,
        ensures
            c == (self.end_index - self.start_index) as u32,
    {
        (self.end_index - self.start_index) as u32
    }
}

/// The leaf size up to which a run is never split.
pub const LEAF_SIZE: u32 = 4;

/// The run of primitive positions that the subtree rooted at node `idx` covers when it
/// starts at position `start`, and the index just past the subtree's last node; `None`
/// when the nodes there do not form a well-shaped subtree.
pub open spec fn span<B>(nodes: Seq<BvhNode<B>>, idx: int, start: int) -> Option<(int, int)>
    decreases nodes.len() - idx,
{
    if idx < 0 || idx >= nodes.len() {
        None
    } else if nodes[idx].count > 0 {
        if nodes[idx].data0 == start {
            Some((start + nodes[idx].count, idx + 1))
        } else {
            None
        }
    } else if nodes[idx].data0 <= idx + 1 || nodes[idx].data0 >= nodes.len() {
        None
    } else {
        match span(nodes, idx + 1, start) {
            Some((mid, next)) => {
                if next == nodes[idx].data0 {
                    span(nodes, nodes[idx].data0 as int, mid)
                } else {
                    None
                }
            },
            None => None,
        }
    }
}

/// A well-shaped subtree covers a nonempty run and lies within the nodes.
pub proof fn lemma_span_bounds<B>(nodes: Seq<BvhNode<B>>, idx: int, start: int)
    requires
        span(nodes, idx, start) is Some,
    ensures
        0 <= idx < span(nodes, idx, start).unwrap().1 <= nodes.len(),
        start < span(nodes, idx, start).unwrap().0,
    decreases nodes.len() - idx,
{
    if nodes[idx].count == 0 {
        lemma_span_bounds(nodes, idx + 1, start);
        let (mid, next) = span(nodes, idx + 1, start).unwrap();
        lemma_span_bounds(nodes, next, mid);
    }
}

/// A subtree's shape depends only on its own nodes.
pub proof fn lemma_span_frame<B>(a: Seq<BvhNode<B>>, b: Seq<BvhNode<B>>, idx: int, start: int)
    requires
        span(a, idx, start) is Some,
        span(a, idx, start).unwrap().1 <= b.len(),
        forall|j: int| idx <= j < span(a, idx, start).unwrap().1 ==> #[trigger] b[j] == a[j],
    ensures
        span(b, idx, start) == span(a, idx, start),
    decreases a.len() - idx,
{
    lemma_span_bounds(a, idx, start);
    assert(b[idx] == a[idx]);
    if a[idx].count == 0 {
        lemma_span_bounds(a, idx + 1, start);
        let (mid, next) = span(a, idx + 1, start).unwrap();
        lemma_span_bounds(a, next, mid);
        lemma_span_frame(a, b, idx + 1, start);
        lemma_span_frame(a, b, next, mid);
    }
}

/// Whether a node is a leaf that holds position `p` of the primitive order.
pub open spec fn covers<B>(node: BvhNode<B>, p: int) -> bool {
    node.count > 0 && node.data0 <= p < node.data0 + node.count
}

/// Whether some leaf among nodes `lo .. hi` holds position `p`.
pub open spec fn held_by_leaf<B>(nodes: Seq<BvhNode<B>>, lo: int, hi: int, p: int) -> bool {
    exists|i: int| lo <= i < hi && #[trigger] covers(nodes[i], p)
}

/// The leaves of a well-shaped subtree divide its run of positions among them: each
/// position of the run is held by exactly one leaf of the subtree, and no leaf of the
/// subtree holds a position outside the run.
pub proof fn lemma_leaves_partition<B>(nodes: Seq<BvhNode<B>>, idx: int, start: int)
    requires
        span(nodes, idx, start) is Some,
    ensures
        forall|p: int| start <= p < span(nodes, idx, start).unwrap().0
            ==> #[trigger] held_by_leaf(nodes, idx, span(nodes, idx, start).unwrap().1, p),
        forall|i: int, p: int| idx <= i < span(nodes, idx, start).unwrap().1 && #[trigger] covers(nodes[i], p)
            ==> start <= p < span(nodes, idx, start).unwrap().0,
        forall|i: int, j: int, p: int|
            idx <= i < span(nodes, idx, start).unwrap().1 && idx <= j < span(nodes, idx, start).unwrap().1
            && #[trigger] covers(nodes[i], p) && #[trigger] covers(nodes[j], p) ==> i == j,
    decreases nodes.len() - idx,
{
    lemma_span_bounds(nodes, idx, start);
    let (end, next) = span(nodes, idx, start).unwrap();
    if nodes[idx].count > 0 {
        assert forall|p: int| start <= p < end implies #[trigger] held_by_leaf(nodes, idx, next, p) by {
            assert(covers(nodes[idx], p));
        }
    } else {
        lemma_span_bounds(nodes, idx + 1, start);
        let (mid, next1) = span(nodes, idx + 1, start).unwrap();
        lemma_span_bounds(nodes, next1, mid);
        lemma_leaves_partition(nodes, idx + 1, start);
        lemma_leaves_partition(nodes, next1, mid);
        assert forall|p: int| start <= p < end implies #[trigger] held_by_leaf(nodes, idx, next, p) by {
            if p < mid {
                assert(held_by_leaf(nodes, idx + 1, next1, p));
                let i = choose|i: int| idx + 1 <= i < next1 && #[trigger] covers(nodes[i], p);
                assert(covers(nodes[i], p));
            } else {
                assert(held_by_leaf(nodes, next1, next, p));
                let i = choose|i: int| next1 <= i < next && #[trigger] covers(nodes[i], p);
                assert(covers(nodes[i], p));
            }
        }
        assert forall|i: int, j: int, p: int|
            idx <= i < next && idx <= j < next && #[trigger] covers(nodes[i], p) && #[trigger] covers(nodes[j], p)
            implies i == j by {
            assert(i != idx && j != idx);
        }
    }
}

/// The positions of a primitive order hold distinct primitives, all below `n`.
pub open spec fn distinct_below(order: Seq<u32>, n: int) -> bool {
    &&& forall|i: int| 0 <= i < order.len() ==> #[trigger] order[i] < n
    &&& forall|i: int, j: int| 0 <= i < j < order.len() ==> #[trigger] order[i] != #[trigger] order[j]
}

/// The primitives at positions `lo .. hi` of an order, as a collection.
pub open spec fn run_prims(order: Seq<u32>, lo: int, hi: int) -> Multiset<u32> {
    order.subrange(lo, hi).to_multiset()
}

/// Whether every node of the subtree at `idx`, whose run starts at `start`, has for its
/// box the box of the primitives of its run.
pub open spec fn boxes_ok<G: BvhGeometry>(g: G, nodes: Seq<BvhNode<G::Bounds>>, order: Seq<u32>, idx: int, start: int) -> bool
    decreases nodes.len() - idx,
{
    match span(nodes, idx, start) {
        None => false,
        Some((end, next)) => {
            &&& nodes[idx].bounds == g.bounds_of(run_prims(order, start, end))
            &&& (nodes[idx].count == 0 ==> boxes_ok(g, nodes, order, idx + 1, start)
                && boxes_ok(g, nodes, order, nodes[idx].data0 as int, span(nodes, idx + 1, start).unwrap().0))
        },
    }
}

/// Whether every node of the subtree at `idx`, whose run starts at `start`, has the shape
/// the geometry chose: a run of at most `LEAF_SIZE` primitives, or one for which the
/// geometry gives no split, is a leaf; any other is an inner node, split as the geometry
/// chose, whose left child's run ends at the boundary of the split, kept one position
/// away from either end.
pub open spec fn shape_ok<G: BvhGeometry>(g: G, nodes: Seq<BvhNode<G::Bounds>>, order: Seq<u32>, idx: int, start: int) -> bool
    decreases nodes.len() - idx,
{
    match span(nodes, idx, start) {
        None => false,
        Some((end, next)) => if end - start <= LEAF_SIZE {
            nodes[idx].count > 0
        } else {
            match g.split_for(run_prims(order, start, end), nodes[idx].bounds) {
                None => nodes[idx].count > 0,
                Some(sp) => {
                    &&& nodes[idx].count == 0
                    &&& (exists|p: int| #![trigger partitioned_at(g, sp, order, start, end, p)]
                        partitioned_at(g, sp, order, start, end, p)
                        && span(nodes, idx + 1, start).unwrap().0 == clamped(p, start + 1, end - 1))
                    &&& shape_ok(g, nodes, order, idx + 1, start)
                    &&& shape_ok(g, nodes, order, nodes[idx].data0 as int, span(nodes, idx + 1, start).unwrap().0)
                },
            }
        },
    }
}

/// An inner node split as the geometry chose, over children of the right shape, has the
/// right shape.
proof fn lemma_shape_inner<G: BvhGeometry>(g: G, nodes: Seq<BvhNode<G::Bounds>>, order: Seq<u32>, idx: int, start: int, sp: G::Split, p: int)
    requires
        span(nodes, idx, start) is Some,
        span(nodes, idx, start).unwrap().0 - start > LEAF_SIZE,
        g.split_for(run_prims(order, start, span(nodes, idx, start).unwrap().0), nodes[idx].bounds) == Some(sp),
        nodes[idx].count == 0,
        partitioned_at(g, sp, order, start, span(nodes, idx, start).unwrap().0, p),
        span(nodes, idx + 1, start).unwrap().0 == clamped(p, start + 1, span(nodes, idx, start).unwrap().0 - 1),
        shape_ok(g, nodes, order, idx + 1, start),
        shape_ok(g, nodes, order, nodes[idx].data0 as int, span(nodes, idx + 1, start).unwrap().0),
    ensures
        shape_ok(g, nodes, order, idx, start),
{
    let (end, next) = span(nodes, idx, start).unwrap();
    let r = g.split_for(run_prims(order, start, end), nodes[idx].bounds);
    assert(r->0 == sp);
    assert(partitioned_at(g, r->0, order, start, end, p));
    assert(match g.split_for(run_prims(order, start, end), nodes[idx].bounds) {
        None => nodes[idx].count > 0,
        Some(sp2) => {
            &&& nodes[idx].count == 0
            &&& (exists|q: int| #![trigger partitioned_at(g, sp2, order, start, end, q)]
                partitioned_at(g, sp2, order, start, end, q)
                && span(nodes, idx + 1, start).unwrap().0 == clamped(q, start + 1, end - 1))
            &&& shape_ok(g, nodes, order, idx + 1, start)
            &&& shape_ok(g, nodes, order, nodes[idx].data0 as int, span(nodes, idx + 1, start).unwrap().0)
        },
    });
}

/// The shapes of a subtree depend only on its own nodes and the positions of its run.
proof fn lemma_shape_frame<G: BvhGeometry>(
    g: G,
    n1: Seq<BvhNode<G::Bounds>>,
    o1: Seq<u32>,
    n2: Seq<BvhNode<G::Bounds>>,
    o2: Seq<u32>,
    idx: int,
    start: int,
)
    requires
        shape_ok(g, n1, o1, idx, start),
        span(n1, idx, start).unwrap().1 <= n2.len(),
        forall|j: int| idx <= j < span(n1, idx, start).unwrap().1 ==> #[trigger] n2[j] == n1[j],
        0 <= start,
        span(n1, idx, start).unwrap().0 <= o1.len(),
        span(n1, idx, start).unwrap().0 <= o2.len(),
        forall|j: int| start <= j < span(n1, idx, start).unwrap().0 ==> #[trigger] o2[j] == o1[j],
    ensures
        shape_ok(g, n2, o2, idx, start),
    decreases n1.len() - idx,
{
    lemma_span_bounds(n1, idx, start);
    lemma_span_frame(n1, n2, idx, start);
    let (end, next) = span(n1, idx, start).unwrap();
    assert(o2.subrange(start, end) =~= o1.subrange(start, end));
    assert(n2[idx] == n1[idx]);
    if end - start > LEAF_SIZE {
        match g.split_for(run_prims(o1, start, end), n1[idx].bounds) {
            None => {},
            Some(sp) => {
                lemma_span_bounds(n1, idx + 1, start);
                let (mid, next1) = span(n1, idx + 1, start).unwrap();
                lemma_span_bounds(n1, n1[idx].data0 as int, mid);
                lemma_span_frame(n1, n2, idx + 1, start);
                let p = choose|p: int| #![trigger partitioned_at(g, sp, o1, start, end, p)]
                    partitioned_at(g, sp, o1, start, end, p) && mid == clamped(p, start + 1, end - 1);
                assert(partitioned_at(g, sp, o2, start, end, p));
                lemma_shape_frame(g, n1, o1, n2, o2, idx + 1, start);
                lemma_shape_frame(g, n1, o1, n2, o2, n1[idx].data0 as int, mid);
            },
        }
    }
}

/// Rearranging the primitives of a run keeps them on the side of a split they were on.
proof fn lemma_side_kept<G: BvhGeometry>(g: G, sp: G::Split, o1: Seq<u32>, o2: Seq<u32>, lo: int, hi: int, side: bool)
    requires
        0 <= lo <= hi <= o1.len(),
        hi <= o2.len(),
        run_prims(o2, lo, hi) == run_prims(o1, lo, hi),
        forall|j: int| lo <= j < hi ==> g.left_of(sp, #[trigger] o1[j]) == side,
    ensures
        forall|j: int| lo <= j < hi ==> g.left_of(sp, #[trigger] o2[j]) == side,
{
    broadcast use vstd::seq_lib::to_multiset_contains;
    assert forall|j: int| lo <= j < hi implies g.left_of(sp, #[trigger] o2[j]) == side by {
        let a = o1.subrange(lo, hi);
        let b = o2.subrange(lo, hi);
        assert(b[j - lo] == o2[j]);
        assert(b.contains(o2[j]));
        assert(a.to_multiset().count(o2[j]) > 0);
        assert(a.contains(o2[j]));
        let k = choose|k: int| 0 <= k < a.len() && a[k] == o2[j];
        assert(o1[k + lo] == a[k]);
    }
}

/// Swapping two positions of a run keeps its primitives.
proof fn lemma_swap_run(a: Seq<u32>, b: Seq<u32>, lo: int, hi: int, i: int, j: int)
    requires
        0 <= lo <= i < hi,
        lo <= j < hi,
        hi <= a.len(),
        b == a.update(i, a[j]).update(j, a[i]),
    ensures
        run_prims(b, lo, hi) == run_prims(a, lo, hi),
{
    broadcast use vstd::multiset::group_multiset_axioms;
    broadcast use vstd::seq_lib::to_multiset_update;
    let sa = a.subrange(lo, hi);
    let sb = b.subrange(lo, hi);
    assert(sa[j - lo] == a[j] && sa[i - lo] == a[i]);
    let s1 = sa.update(i - lo, sa[j - lo]);
    assert forall|k: int| 0 <= k < sb.len() implies sb[k] == s1.update(j - lo, sa[i - lo])[k] by {
        assert(sb[k] == b[k + lo]);
        assert(sa[k] == a[k + lo]);
    }
    assert(sb =~= s1.update(j - lo, sa[i - lo]));
    if i != j {
        assert(s1[j - lo] == sa[j - lo]);
        assert(s1.to_multiset() == sa.to_multiset().insert(sa[j - lo]).remove(sa[i - lo]));
        assert(sb.to_multiset() == s1.to_multiset().insert(sa[i - lo]).remove(sa[j - lo]));
        broadcast use vstd::seq_lib::to_multiset_contains;
        assert(sa.contains(sa[i - lo]));
        assert(s1.contains(sa[j - lo]));
        assert(sa.to_multiset().count(sa[i - lo]) > 0);
        let m = sa.to_multiset();
        let x = sa[j - lo];
        let y = sa[i - lo];
        assert forall|v: u32| #[trigger] sb.to_multiset().count(v) == m.count(v) by {
            assert(m.insert(x).count(v) == m.count(v) + if v == x { 1int } else { 0int });
        }
        assert(sb.to_multiset() =~= sa.to_multiset());
    } else {
        assert(sb =~= sa);
    }
}

/// The primitives of a run are those of its two parts.
proof fn lemma_split_run(o: Seq<u32>, lo: int, mid: int, hi: int)
    requires
        0 <= lo <= mid <= hi <= o.len(),
    ensures
        run_prims(o, lo, hi) == run_prims(o, lo, mid).add(run_prims(o, mid, hi)),
{
    assert(o.subrange(lo, hi) =~= o.subrange(lo, mid) + o.subrange(mid, hi));
    vstd::seq_lib::lemma_multiset_commutative(o.subrange(lo, mid), o.subrange(mid, hi));
}

/// The boxes of a subtree depend only on its own nodes and the positions of its run.
proof fn lemma_boxes_frame<G: BvhGeometry>(
    g: G,
    n1: Seq<BvhNode<G::Bounds>>,
    o1: Seq<u32>,
    n2: Seq<BvhNode<G::Bounds>>,
    o2: Seq<u32>,
    idx: int,
    start: int,
)
    requires
        boxes_ok(g, n1, o1, idx, start),
        span(n1, idx, start).unwrap().1 <= n2.len(),
        forall|j: int| idx <= j < span(n1, idx, start).unwrap().1 ==> #[trigger] n2[j] == n1[j],
        0 <= start,
        span(n1, idx, start).unwrap().0 <= o1.len(),
        span(n1, idx, start).unwrap().0 <= o2.len(),
        forall|j: int| start <= j < span(n1, idx, start).unwrap().0 ==> #[trigger] o2[j] == o1[j],
    ensures
        boxes_ok(g, n2, o2, idx, start),
    decreases n1.len() - idx,
{
    lemma_span_bounds(n1, idx, start);
    lemma_span_frame(n1, n2, idx, start);
    let (end, next) = span(n1, idx, start).unwrap();
    assert(o2.subrange(start, end) =~= o1.subrange(start, end));
    assert(n2[idx] == n1[idx]);
    if n1[idx].count == 0 {
        lemma_span_bounds(n1, idx + 1, start);
        let (mid, next1) = span(n1, idx + 1, start).unwrap();
        lemma_span_bounds(n1, n1[idx].data0 as int, mid);
        lemma_span_frame(n1, n2, idx + 1, start);
        lemma_boxes_frame(g, n1, o1, n2, o2, idx + 1, start);
        lemma_boxes_frame(g, n1, o1, n2, o2, n1[idx].data0 as int, mid);
    }
}

/// Whether positions `lo .. p` of `order` hold primitives on the left of `split`, and
/// positions `p .. hi` ones on its right.
pub open spec fn partitioned_at<G: BvhGeometry>(g: G, split: G::Split, order: Seq<u32>, lo: int, hi: int, p: int) -> bool {
    &&& lo <= p <= hi
    &&& forall|j: int| lo <= j < p ==> g.left_of(split, #[trigger] order[j])
    &&& forall|j: int| p <= j < hi ==> !g.left_of(split, #[trigger] order[j])
}

/// `p` moved into `lo ..= hi`.
pub open spec fn clamped(p: int, lo: int, hi: int) -> int {
    if p < lo {
        lo
    } else if p > hi {
        hi
    } else {
        p
    }
}

/// Builds a bounding volume hierarchy over primitives `0 .. n` as a flat node array in
/// depth-first order, together with the order of primitives that the leaves index.
pub struct BvhBuilder<'a, G: BvhGeometry> {
    geometry: &'a G,
    spatial_indices: Vec<u32>,
    flat_nodes: Vec<BvhNode<G::Bounds>>,
}

impl<'a, G: BvhGeometry> BvhBuilder<'a, G> {
    /// Builds the hierarchy of `primitive_count` primitives. The order returned holds each
    /// primitive exactly once; the nodes form one well-shaped tree whose leaves cover the
    /// whole order, with fewer than twice as many nodes as primitives. With no primitive
    /// at all the result is a single empty node.
    pub fn build(geometry: &'a G, primitive_count: usize) -> (r: (Vec<BvhNode<G::Bounds>>, Vec<u32>))
        requires
            primitive_count < 0x8000_0000,
        ensures
            r.1@.len() == primitive_count,
            distinct_below(r.1@, primitive_count as int),
            primitive_count > 0 ==> span(r.0@, 0, 0) == Some((primitive_count as int, r.0@.len() as int)),
            primitive_count > 0 ==> r.0@.len() < 2 * primitive_count,
            primitive_count == 0 ==> r.0@.len() == 1 && r.0@[0].count == 0 && r.0@[0].data0 == 0,
            primitive_count > 0 ==> boxes_ok(*geometry, r.0@, r.1@, 0, 0),
            primitive_count > 0 ==> shape_ok(*geometry, r.0@, r.1@, 0, 0),
            primitive_count <= LEAF_SIZE ==> r.0@.len() == 1 && r.0@[0].count == primitive_count && r.0@[0].data0 == 0
                && forall|j: int| 0 <= j < primitive_count ==> #[trigger] r.1@[j] == j,
            primitive_count == 0 ==> r.0@[0].bounds == geometry.bounds_of(run_prims(r.1@, 0, 0)),
    {
        let mut indices: Vec<u32> = Vec::new();
        let mut i: usize = 0;
        while i < primitive_count
            invariant
                i <= primitive_count < 0x8000_0000,
                indices@.len() == i,
                forall|j: int| 0 <= j < i ==> #[trigger] indices@[j] == j,
            decreases primitive_count - i,
        {
            indices.push(i as u32);
            i = i + 1;
        }
        let mut builder = BvhBuilder {
            geometry,
            spatial_indices: indices,
            flat_nodes: Vec::new(),
        };
        builder.recursive_build(IndexRange { start_index: 0, end_index: primitive_count });
        (builder.flat_nodes, builder.spatial_indices)
    }

    fn recursive_build(&mut self, range: IndexRange) -> (r: usize)
        requires
            range.start_index <= range.end_index <= old(self).spatial_indices@.len(),
            distinct_below(old(self).spatial_indices@, old(self).spatial_indices@.len() as int),
            old(self).spatial_indices@.len() < 0x8000_0000,
            old(self).flat_nodes@.len() + 2 * (range.end_index - range.start_index) <= 0x1_0000_0000,
        ensures
            r == old(self).flat_nodes@.len(),
            final(self).geometry == old(self).geometry,
            final(self).spatial_indices@.len() == old(self).spatial_indices@.len(),
            distinct_below(final(self).spatial_indices@, old(self).spatial_indices@.len() as int),
            forall|j: int| 0 <= j < old(self).spatial_indices@.len() && !(range.start_index <= j < range.end_index)
                ==> #[trigger] final(self).spatial_indices@[j] == old(self).spatial_indices@[j],
            final(self).flat_nodes@.len() > r,
            final(self).flat_nodes@.take(r as int) == old(self).flat_nodes@,
            range.start_index == range.end_index ==> final(self).flat_nodes@.len() == r + 1
                && final(self).flat_nodes@[r as int].count == 0
                && final(self).flat_nodes@[r as int].data0 == range.start_index,
            range.start_index < range.end_index ==> final(self).flat_nodes@.len() - r < 2 * (range.end_index - range.start_index)
                && span(final(self).flat_nodes@, r as int, range.start_index as int)
                    == Some((range.end_index as int, final(self).flat_nodes@.len() as int)),
            run_prims(final(self).spatial_indices@, range.start_index as int, range.end_index as int)
                == run_prims(old(self).spatial_indices@, range.start_index as int, range.end_index as int),
            range.start_index < range.end_index ==> boxes_ok(*final(self).geometry, final(self).flat_nodes@,
                final(self).spatial_indices@, r as int, range.start_index as int),
            range.start_index == range.end_index ==> final(self).flat_nodes@[r as int].bounds
                == final(self).geometry.bounds_of(run_prims(final(self).spatial_indices@, range.start_index as int, range.end_index as int)),
            range.end_index - range.start_index <= LEAF_SIZE ==> final(self).flat_nodes@.len() == r + 1
                && final(self).flat_nodes@[r as int].count == range.end_index - range.start_index
                && final(self).flat_nodes@[r as int].data0 == range.start_index
                && final(self).spatial_indices@ == old(self).spatial_indices@,
            range.start_index < range.end_index ==> shape_ok(*final(self).geometry, final(self).flat_nodes@,
                final(self).spatial_indices@, r as int, range.start_index as int),
        decreases range.end_index - range.start_index,
    {
        let current_node_index = self.flat_nodes.len();
        let node_bounds = self.geometry.node_bounds(&self.spatial_indices, range.start_index, range.end_index);
        self.flat_nodes.push(BvhNode { bounds: node_bounds, data0: 0, count: 0 });
        if range.primitive_count() <= LEAF_SIZE {
            let r = self.initialize_leaf_node(current_node_index, node_bounds, range);
            proof {
                if range.start_index < range.end_index {
                    assert(boxes_ok(*self.geometry, self.flat_nodes@, self.spatial_indices@, r as int, range.start_index as int));
                    assert(shape_ok(*self.geometry, self.flat_nodes@, self.spatial_indices@, r as int, range.start_index as int));
                }
            }
            return r;
        }
        let best_split = match self.geometry.find_split(
            &self.spatial_indices,
            range.start_index,
            range.end_index,
            &node_bounds,
        ) {
            Some(s) => s,
            None => {
                let r = self.initialize_leaf_node(current_node_index, node_bounds, range);
                assert(boxes_ok(*self.geometry, self.flat_nodes@, self.spatial_indices@, r as int, range.start_index as int));
                assert(shape_ok(*self.geometry, self.flat_nodes@, self.spatial_indices@, r as int, range.start_index as int));
                return r;
            },
        };
        let partition_index = self.perform_spatial_partition(range, &best_split);
        let ghost p = choose|p: int| #![trigger partitioned_at(*self.geometry, best_split, self.spatial_indices@, range.start_index as int, range.end_index as int, p)]
            partitioned_at(*self.geometry, best_split, self.spatial_indices@, range.start_index as int, range.end_index as int, p)
            && partition_index == clamped(p, range.start_index + 1, range.end_index - 1);
        self.initialize_internal_node(current_node_index, node_bounds, range, partition_index, Ghost(best_split), Ghost(p))
    }

    fn initialize_leaf_node(&mut self, node_index: usize, bounds: G::Bounds, range: IndexRange) -> (r: usize)
        requires
            node_index + 1 == old(self).flat_nodes@.len(),
            range.start_index <= range.end_index <= old(self).spatial_indices@.len() < 0x8000_0000,
        ensures
            r == node_index,
            final(self).geometry == old(self).geometry,
            final(self).spatial_indices == old(self).spatial_indices,
            final(self).flat_nodes@ == old(self).flat_nodes@.update(
                node_index as int,
                BvhNode { bounds, data0: range.start_index as u32, count: (range.end_index - range.start_index) as u32 },
            ),
    {
        let count = range.primitive_count();
        let mut node = self.flat_nodes[node_index];
        node.set_data(bounds, range.start_index as u32, count);
        self.flat_nodes.set(node_index, node);
        node_index
    }

    fn initialize_internal_node(
        &mut self,
        node_index: usize,
        bounds: G::Bounds,
        range: IndexRange,
        mid: usize,
        Ghost(sp): Ghost<G::Split>,
        Ghost(p): Ghost<int>,
    ) -> (r: usize)
        requires
            range.end_index - range.start_index > LEAF_SIZE,
            old(self).geometry.split_for(run_prims(old(self).spatial_indices@, range.start_index as int, range.end_index as int), bounds) == Some(sp),
            partitioned_at(*old(self).geometry, sp, old(self).spatial_indices@, range.start_index as int, range.end_index as int, p),
            mid == clamped(p, range.start_index + 1, range.end_index - 1),
            node_index + 1 == old(self).flat_nodes@.len(),
            range.start_index < mid < range.end_index <= old(self).spatial_indices@.len(),
            distinct_below(old(self).spatial_indices@, old(self).spatial_indices@.len() as int),
            old(self).spatial_indices@.len() < 0x8000_0000,
            old(self).flat_nodes@.len() + 2 * (range.end_index - range.start_index) <= 0x1_0000_0001,
            bounds == old(self).geometry.bounds_of(run_prims(old(self).spatial_indices@, range.start_index as int, range.end_index as int)),
        ensures
            r == node_index,
            run_prims(final(self).spatial_indices@, range.start_index as int, range.end_index as int)
                == run_prims(old(self).spatial_indices@, range.start_index as int, range.end_index as int),
            boxes_ok(*final(self).geometry, final(self).flat_nodes@, final(self).spatial_indices@, r as int, range.start_index as int),
            shape_ok(*final(self).geometry, final(self).flat_nodes@, final(self).spatial_indices@, r as int, range.start_index as int),
            final(self).geometry == old(self).geometry,
            final(self).spatial_indices@.len() == old(self).spatial_indices@.len(),
            distinct_below(final(self).spatial_indices@, old(self).spatial_indices@.len() as int),
            forall|j: int| 0 <= j < old(self).spatial_indices@.len() && !(range.start_index <= j < range.end_index)
                ==> #[trigger] final(self).spatial_indices@[j] == old(self).spatial_indices@[j],
            final(self).flat_nodes@.len() > r,
            final(self).flat_nodes@.take(r as int) == old(self).flat_nodes@.take(r as int),
            final(self).flat_nodes@.len() - r < 2 * (range.end_index - range.start_index),
            span(final(self).flat_nodes@, r as int, range.start_index as int)
                == Some((range.end_index as int, final(self).flat_nodes@.len() as int)),
        decreases range.end_index - range.start_index, 0int,
    {
        let ghost n0 = self.flat_nodes@;
        let ghost o0 = self.spatial_indices@;
        let left = self.recursive_build(IndexRange { start_index: range.start_index, end_index: mid });
        let ghost n1 = self.flat_nodes@;
        let ghost o1 = self.spatial_indices@;
        let right_child_index = self.recursive_build(IndexRange { start_index: mid, end_index: range.end_index });
        let ghost n2 = self.flat_nodes@;
        let ghost o2 = self.spatial_indices@;
        let mut node = self.flat_nodes[node_index];
        node.set_data(bounds, right_child_index as u32, 0);
        self.flat_nodes.set(node_index, node);
        proof {
            let n3 = self.flat_nodes@;
            assert(n2.take(left as int) =~= n1.take(left as int));
            lemma_span_frame(n1, n2, left as int, range.start_index as int);
            lemma_span_frame(n2, n3, left as int, range.start_index as int);
            lemma_span_frame(n2, n3, right_child_index as int, mid as int);
            assert(n3.take(node_index as int) =~= n0.take(node_index as int));
            let (s0, e0) = (range.start_index as int, range.end_index as int);
            let g = *self.geometry;
            assert(o1.subrange(mid as int, e0) =~= o0.subrange(mid as int, e0));
            assert(o2.subrange(s0, mid as int) =~= o1.subrange(s0, mid as int));
            lemma_split_run(o0, s0, mid as int, e0);
            lemma_split_run(o2, s0, mid as int, e0);
            lemma_span_bounds(n1, left as int, s0);
            lemma_span_bounds(n2, right_child_index as int, mid as int);
            assert forall|j: int| left <= j < span(n1, left as int, s0).unwrap().1 implies #[trigger] n3[j] == n1[j] by {
                assert(n2.take(n1.len() as int)[j] == n1[j]);
            }
            lemma_boxes_frame(g, n1, o1, n3, o2, left as int, s0);
            lemma_boxes_frame(g, n2, o2, n3, o2, right_child_index as int, mid as int);
            assert(boxes_ok(g, n3, o2, node_index as int, s0));
            lemma_shape_frame(g, n1, o1, n3, o2, left as int, s0);
            lemma_shape_frame(g, n2, o2, n3, o2, right_child_index as int, mid as int);
            let m = mid as int;
            assert(run_prims(o2, s0, m) == run_prims(o0, s0, m));
            assert(run_prims(o2, m, e0) == run_prims(o0, m, e0));
            if m == p {
                lemma_side_kept(g, sp, o0, o2, s0, m, true);
                lemma_side_kept(g, sp, o0, o2, m, e0, false);
            } else if p < m {
                lemma_side_kept(g, sp, o0, o2, s0, m, false);
                lemma_side_kept(g, sp, o0, o2, m, e0, false);
            } else {
                lemma_side_kept(g, sp, o0, o2, s0, m, true);
                lemma_side_kept(g, sp, o0, o2, m, e0, true);
            }
            assert(partitioned_at(g, sp, o2, s0, e0, p));
            assert(span(n3, left as int, s0).unwrap().0 == m);
            assert(run_prims(o2, s0, e0) == run_prims(o0, s0, e0));
            assert(n3[node_index as int].bounds == bounds && n3[node_index as int].count == 0);
            assert(n3[node_index as int].data0 == right_child_index);
            lemma_shape_inner(g, n3, o2, node_index as int, s0, sp, p);
        }
        node_index
    }

    fn perform_spatial_partition(&mut self, range: IndexRange, split: &G::Split) -> (mid: usize)
        requires
            range.start_index + 1 < range.end_index <= old(self).spatial_indices@.len(),
            distinct_below(old(self).spatial_indices@, old(self).spatial_indices@.len() as int),
        ensures
            range.start_index < mid < range.end_index,
            final(self).geometry == old(self).geometry,
            final(self).flat_nodes == old(self).flat_nodes,
            final(self).spatial_indices@.len() == old(self).spatial_indices@.len(),
            distinct_below(final(self).spatial_indices@, old(self).spatial_indices@.len() as int),
            forall|j: int| 0 <= j < old(self).spatial_indices@.len() && !(range.start_index <= j < range.end_index)
                ==> #[trigger] final(self).spatial_indices@[j] == old(self).spatial_indices@[j],
            run_prims(final(self).spatial_indices@, range.start_index as int, range.end_index as int)
                == run_prims(old(self).spatial_indices@, range.start_index as int, range.end_index as int),
            exists|p: int| #![trigger partitioned_at(*old(self).geometry, *split, final(self).spatial_indices@, range.start_index as int, range.end_index as int, p)]
                partitioned_at(*old(self).geometry, *split, final(self).spatial_indices@, range.start_index as int, range.end_index as int, p)
                && mid == clamped(p, range.start_index + 1, range.end_index - 1),
    {
        let ghost orig = self.spatial_indices@;
        let ghost n = orig.len() as int;
        let mut left_ptr = range.start_index;
        let mut right_ptr = range.end_index;
        while left_ptr < right_ptr
            invariant
                range.start_index <= left_ptr <= right_ptr <= range.end_index <= orig.len(),
                orig.len() == n,
                self.spatial_indices.len() == n,
                self.geometry == old(self).geometry,
                self.flat_nodes == old(self).flat_nodes,
                self.spatial_indices@.len() == n,
                distinct_below(self.spatial_indices@, n),
                forall|j: int| 0 <= j < n && !(range.start_index <= j < range.end_index)
                    ==> #[trigger] self.spatial_indices@[j] == orig[j],
                run_prims(self.spatial_indices@, range.start_index as int, range.end_index as int)
                    == run_prims(orig, range.start_index as int, range.end_index as int),
                forall|j: int| range.start_index <= j < left_ptr
                    ==> self.geometry.left_of(*split, #[trigger] self.spatial_indices@[j]),
                forall|j: int| right_ptr <= j < range.end_index
                    ==> !self.geometry.left_of(*split, #[trigger] self.spatial_indices@[j]),
            decreases right_ptr - left_ptr,
        {
            let primitive_index = self.spatial_indices[left_ptr];
            if self.geometry.goes_left(split, primitive_index) {
                left_ptr = left_ptr + 1;
            } else {
                right_ptr = right_ptr - 1;
                let a = self.spatial_indices[left_ptr];
                let b = self.spatial_indices[right_ptr];
                let ghost before = self.spatial_indices@;
                self.spatial_indices.set(left_ptr, b);
                self.spatial_indices.set(right_ptr, a);
                proof {
                    let after = self.spatial_indices@;
                    assert(after[right_ptr as int] == before[left_ptr as int]);
                    assert forall|j: int| range.start_index <= j < left_ptr implies self.geometry.left_of(*split, #[trigger] after[j]) by {
                        assert(after[j] == before[j]);
                    }
                    assert forall|j: int| right_ptr <= j < range.end_index implies !self.geometry.left_of(*split, #[trigger] after[j]) by {
                        if j > right_ptr {
                            assert(after[j] == before[j]);
                        }
                    }
                    lemma_swap_run(before, after, range.start_index as int, range.end_index as int, left_ptr as int, right_ptr as int);
                    assert forall|i: int, j: int| 0 <= i < j < after.len() implies #[trigger] after[i] != #[trigger] after[j] by {
                        let pi = if i == left_ptr { right_ptr as int } else if i == right_ptr { left_ptr as int } else { i };
                        let pj = if j == left_ptr { right_ptr as int } else if j == right_ptr { left_ptr as int } else { j };
                        assert(after[i] == before[pi]);
                        assert(after[j] == before[pj]);
                        if pi < pj {
                            assert(before[pi] != before[pj]);
                        } else {
                            assert(before[pj] != before[pi]);
                        }
                    }
                }
            }
        }
        let lo = range.start_index + 1;
        let hi = range.end_index - 1;
        assert(partitioned_at(*self.geometry, *split, self.spatial_indices@, range.start_index as int, range.end_index as int, left_ptr as int));
        if left_ptr < lo {
            lo
        } else if left_ptr > hi {
            hi
        } else {
            left_ptr
        }
    }
}

} // verus!
