use vstd::prelude::*;
use crate::rendering::bvh::builder::{
    BvhBuilder, BvhGeometry, span, distinct_below, lemma_span_bounds, boxes_ok, shape_ok,
};
use crate::rendering::bvh::node::BvhNode;

verus! {

/// What a traversal asks of the ray it follows, answered by whoever knows the geometry:
/// where the ray enters a box, what it hits on a primitive and how far away, and how
/// distances compare. `before` is a strict order (irreflexive and transitive), as `<` is
/// on numbers. Each answer is a function of the question: an implementation answers `enter_distance`, `hit_primitive`, `hit_distance`, `less` and `unbounded` as
/// the spec functions `enters`, `hits`, `distance_of`, `before`, `no_later` and `limit` say, which is
/// what the traversals' contracts are stated over.
pub trait RayQuery {
    type Bounds;
    type Distance: Copy;
    type Hit;

    /// Where the ray enters a box, if it meets it.
    spec fn enters(&self, bounds: Self::Bounds) -> Option<Self::Distance>;

    /// The ray's hit on a primitive, if any.
    spec fn hits(&self, primitive: u32) -> Option<Self::Hit>;

    /// How far along the ray a hit lies.
    spec fn distance_of(&self, hit: Self::Hit) -> Self::Distance;

    /// Whether one distance is less than another.
    spec fn before(&self, a: Self::Distance, b: Self::Distance) -> bool;

    /// The distance beyond every hit that a closest-hit search starts from.
    spec fn limit(&self) -> Self::Distance;

    /// No distance is before itself.
    proof fn lemma_before_irreflexive(&self, a: Self::Distance)
        ensures
            !self.before(a, a),
    ;

    /// Being before is transitive.
    proof fn lemma_before_transitive(&self, a: Self::Distance, b: Self::Distance, c: Self::Distance)
        requires
            self.before(a, b),
            self.before(b, c),
        ensures
            self.before(a, c),
    ;

    /// The distance at which the ray enters `bounds`, if it meets the box at all.
    fn enter_distance(&self, bounds: &Self::Bounds) -> (r: Option<Self::Distance>)
        ensures
            r == self.enters(*bounds),
    ;

    /// The ray's hit on `primitive`, if any.
    fn hit_primitive(&self, primitive: u32) -> (r: Option<Self::Hit>)
        ensures
            r == self.hits(primitive),
    ;

    /// How far along the ray a hit lies.
    fn hit_distance(&self, hit: &Self::Hit) -> (r: Self::Distance)
        ensures
            r == self.distance_of(*hit),
    ;

    /// Whether distance `a` is less than `b`.
    fn less(&self, a: &Self::Distance, b: &Self::Distance) -> (r: bool)
        ensures
            r == self.before(*a, *b),
    ;

    /// Whether one distance is no later than another.
    spec fn no_later(&self, a: Self::Distance, b: Self::Distance) -> bool;

    /// Whether distance `a` is at most `b`.
    fn at_most(&self, a: &Self::Distance, b: &Self::Distance) -> (r: bool)
        ensures
            r == self.no_later(*a, *b),
    ;

    /// A distance beyond every hit.
    fn unbounded(&self) -> (r: Self::Distance)
        ensures
            r == self.limit(),
    ;
}

/// Whether a walk bounded by `lim` goes into a child whose box is `bounds`: the ray
/// enters the box before `lim`.
pub open spec fn opens<Q: RayQuery>(q: Q, lim: Q::Distance, bounds: Q::Bounds) -> bool {
    match q.enters(bounds) {
        Some(d) => q.before(d, lim),
        None => false,
    }
}

/// Whether a walk bounded by `lim` from node `idx`, whose subtree starts at position
/// `start`, reaches the leaf that holds position `i`: every child box on the way down is
/// entered before `lim`. The box of `idx` itself is not asked.
pub open spec fn followed<Q: RayQuery>(q: Q, lim: Q::Distance, nodes: Seq<BvhNode<Q::Bounds>>, idx: int, start: int, i: int) -> bool
    decreases nodes.len() - idx,
{
    if idx < 0 || idx >= nodes.len() {
        false
    } else if nodes[idx].count > 0 {
        true
    } else if nodes[idx].data0 <= idx + 1 || nodes[idx].data0 >= nodes.len() {
        false
    } else {
        match span(nodes, idx + 1, start) {
            Some((mid, next)) => if i < mid {
                opens(q, lim, nodes[idx + 1].bounds) && followed(q, lim, nodes, idx + 1, start, i)
            } else {
                opens(q, lim, nodes[nodes[idx].data0 as int].bounds)
                    && followed(q, lim, nodes, nodes[idx].data0 as int, mid, i)
            },
            None => false,
        }
    }
}

/// Whether the ray hits `primitive` before `lim`.
pub open spec fn reports<Q: RayQuery>(q: Q, lim: Q::Distance, primitive: u32) -> bool {
    match q.hits(primitive) {
        Some(h) => q.before(q.distance_of(h), lim),
        None => false,
    }
}

/// Whether position `i` lies in the run of the subtree at `idx` that starts at `start`.
pub open spec fn in_run<B>(nodes: Seq<BvhNode<B>>, idx: int, start: int, i: int) -> bool {
    match span(nodes, idx, start) {
        Some((end, _)) => start <= i < end,
        None => false,
    }
}

/// Whether position `i` still waits on the stack: it lies in the run of some entry, and the
/// walk from that entry reaches it.
pub open spec fn pending<Q: RayQuery>(
    q: Q,
    lim: Q::Distance,
    nodes: Seq<BvhNode<Q::Bounds>>,
    stack: Seq<usize>,
    starts: Seq<int>,
    i: int,
) -> bool {
    exists|k: int| #![trigger stack[k], starts[k]]
        0 <= k < stack.len() && in_run(nodes, stack[k] as int, starts[k], i)
            && followed(q, lim, nodes, stack[k] as int, starts[k], i)
}

/// Every position that the walk from the root reaches is either known not to hold a
/// primitive hit before `lim`, or still waits on the stack.
pub open spec fn covered<Q: RayQuery>(
    q: Q,
    lim: Q::Distance,
    nodes: Seq<BvhNode<Q::Bounds>>,
    order: Seq<u32>,
    stack: Seq<usize>,
    starts: Seq<int>,
) -> bool {
    forall|i: int| 0 <= i < order.len() && #[trigger] followed(q, lim, nodes, 0, 0, i)
        ==> !reports(q, lim, order[i]) || pending(q, lim, nodes, stack, starts, i)
}

/// Popping a leaf whose primitives are not hit before `lim` keeps every reached position
/// accounted for.
proof fn lemma_leaf_step<Q: RayQuery>(
    q: Q,
    lim: Q::Distance,
    nodes: Seq<BvhNode<Q::Bounds>>,
    order: Seq<u32>,
    stack: Seq<usize>,
    starts: Seq<int>,
)
    requires
        stack.len() > 0,
        starts.len() == stack.len(),
        covered(q, lim, nodes, order, stack, starts),
        0 <= stack.last() < nodes.len(),
        nodes[stack.last() as int].count > 0,
        forall|j: int| starts.last() <= j < starts.last() + nodes[stack.last() as int].count
            && 0 <= j < order.len() ==> !reports(q, lim, #[trigger] order[j]),
    ensures
        covered(q, lim, nodes, order, stack.drop_last(), starts.drop_last()),
{
    let l = stack.len() - 1;
    let s2 = stack.drop_last();
    let t2 = starts.drop_last();
    assert forall|i: int| 0 <= i < order.len() && #[trigger] followed(q, lim, nodes, 0, 0, i)
        implies !reports(q, lim, order[i]) || pending(q, lim, nodes, s2, t2, i) by {
        if reports(q, lim, order[i]) {
            let k = choose|k: int| #![trigger stack[k], starts[k]]
                0 <= k < stack.len() && in_run(nodes, stack[k] as int, starts[k], i)
                    && followed(q, lim, nodes, stack[k] as int, starts[k], i);
            if k == l {
                assert(!reports(q, lim, order[i]));
            } else {
                assert(s2[k] == stack[k] && t2[k] == starts[k]);
            }
        }
    }
}

/// Popping an inner node and pushing each child whose box is entered before `lim` keeps
/// every reached position accounted for. `kl` and `kr` are where the children were pushed.
proof fn lemma_inner_step<Q: RayQuery>(
    q: Q,
    lim: Q::Distance,
    nodes: Seq<BvhNode<Q::Bounds>>,
    order: Seq<u32>,
    stack: Seq<usize>,
    starts: Seq<int>,
    stack2: Seq<usize>,
    starts2: Seq<int>,
    kl: int,
    kr: int,
)
    requires
        stack.len() > 0,
        starts.len() == stack.len(),
        covered(q, lim, nodes, order, stack, starts),
        span(nodes, stack.last() as int, starts.last()) is Some,
        nodes[stack.last() as int].count == 0,
        stack2.len() >= stack.len() - 1,
        starts2.len() == stack2.len(),
        forall|k: int| 0 <= k < stack.len() - 1 ==> stack2[k] == stack[k] && starts2[k] == starts[k],
        opens(q, lim, nodes[stack.last() + 1].bounds) ==> 0 <= kl < stack2.len()
            && stack2[kl] == stack.last() + 1 && starts2[kl] == starts.last(),
        opens(q, lim, nodes[nodes[stack.last() as int].data0 as int].bounds) ==> 0 <= kr < stack2.len()
            && stack2[kr] == nodes[stack.last() as int].data0
            && starts2[kr] == span(nodes, stack.last() + 1, starts.last()).unwrap().0,
    ensures
        covered(q, lim, nodes, order, stack2, starts2),
{
    let l = stack.len() - 1;
    let x = stack.last() as int;
    let s = starts.last();
    lemma_span_bounds(nodes, x, s);
    lemma_span_bounds(nodes, x + 1, s);
    let (mid, next) = span(nodes, x + 1, s).unwrap();
    let right = nodes[x].data0 as int;
    lemma_span_bounds(nodes, right, mid);
    assert forall|i: int| 0 <= i < order.len() && #[trigger] followed(q, lim, nodes, 0, 0, i)
        implies !reports(q, lim, order[i]) || pending(q, lim, nodes, stack2, starts2, i) by {
        if reports(q, lim, order[i]) {
            let k = choose|k: int| #![trigger stack[k], starts[k]]
                0 <= k < stack.len() && in_run(nodes, stack[k] as int, starts[k], i)
                    && followed(q, lim, nodes, stack[k] as int, starts[k], i);
            if k == l {
                if i < mid {
                    assert(stack2[kl] == x + 1 && starts2[kl] == s);
                    assert(in_run(nodes, stack2[kl] as int, starts2[kl], i));
                } else {
                    assert(stack2[kr] == right && starts2[kr] == mid);
                    assert(in_run(nodes, stack2[kr] as int, starts2[kr], i));
                }
            } else {
                assert(stack2[k] == stack[k] && starts2[k] == starts[k]);
            }
        }
    }
}

/// Whether the subtree at `x` starting at position `s` lies in the subtree at `idx` that
/// starts at `start` (or is that subtree).
pub open spec fn descends<B>(nodes: Seq<BvhNode<B>>, idx: int, start: int, x: int, s: int) -> bool
    decreases nodes.len() - idx,
{
    if idx < 0 || idx >= nodes.len() {
        false
    } else if idx == x && start == s {
        true
    } else if nodes[idx].count > 0 {
        false
    } else if nodes[idx].data0 <= idx + 1 || nodes[idx].data0 >= nodes.len() {
        false
    } else {
        match span(nodes, idx + 1, start) {
            Some((mid, next)) => descends(nodes, idx + 1, start, x, s)
                || descends(nodes, nodes[idx].data0 as int, mid, x, s),
            None => false,
        }
    }
}

/// A subtree within a well-shaped subtree is well-shaped, and its run lies within the run
/// of the enclosing one.
proof fn lemma_descends_run<B>(nodes: Seq<BvhNode<B>>, idx: int, start: int, x: int, s: int)
    requires
        span(nodes, idx, start) is Some,
        descends(nodes, idx, start, x, s),
    ensures
        span(nodes, x, s) is Some,
        start <= s,
        span(nodes, x, s).unwrap().0 <= span(nodes, idx, start).unwrap().0,
    decreases nodes.len() - idx,
{
    lemma_span_bounds(nodes, idx, start);
    if !(idx == x && start == s) {
        let (mid, next) = span(nodes, idx + 1, start).unwrap();
        lemma_span_bounds(nodes, idx + 1, start);
        lemma_span_bounds(nodes, nodes[idx].data0 as int, mid);
        if descends(nodes, idx + 1, start, x, s) {
            lemma_descends_run(nodes, idx + 1, start, x, s);
        } else {
            lemma_descends_run(nodes, nodes[idx].data0 as int, mid, x, s);
        }
    }
}

/// The children of an inner node within a subtree lie within it too.
proof fn lemma_descends_children<B>(nodes: Seq<BvhNode<B>>, idx: int, start: int, x: int, s: int)
    requires
        span(nodes, idx, start) is Some,
        descends(nodes, idx, start, x, s),
        nodes[x].count == 0,
    ensures
        descends(nodes, idx, start, x + 1, s),
        descends(nodes, idx, start, nodes[x].data0 as int, span(nodes, x + 1, s).unwrap().0),
    decreases nodes.len() - idx,
{
    lemma_descends_run(nodes, idx, start, x, s);
    lemma_span_bounds(nodes, idx, start);
    lemma_span_bounds(nodes, x, s);
    let (xm, xn) = span(nodes, x + 1, s).unwrap();
    lemma_span_bounds(nodes, x + 1, s);
    lemma_span_bounds(nodes, nodes[x].data0 as int, xm);
    assert(descends(nodes, x + 1, s, x + 1, s));
    assert(descends(nodes, nodes[x].data0 as int, xm, nodes[x].data0 as int, xm));
    if !(idx == x && start == s) {
        let (mid, next) = span(nodes, idx + 1, start).unwrap();
        lemma_span_bounds(nodes, idx + 1, start);
        lemma_span_bounds(nodes, nodes[idx].data0 as int, mid);
        if descends(nodes, idx + 1, start, x, s) {
            lemma_descends_children(nodes, idx + 1, start, x, s);
        } else {
            lemma_descends_children(nodes, nodes[idx].data0 as int, mid, x, s);
        }
    }
}

/// A walk that reaches position `i` from a subtree also reaches it from every subtree on
/// the way that holds `i`.
proof fn lemma_followed_descends<Q: RayQuery>(
    q: Q,
    lim: Q::Distance,
    nodes: Seq<BvhNode<Q::Bounds>>,
    idx: int,
    start: int,
    x: int,
    s: int,
    i: int,
)
    requires
        span(nodes, idx, start) is Some,
        descends(nodes, idx, start, x, s),
        in_run(nodes, x, s, i),
        followed(q, lim, nodes, idx, start, i),
    ensures
        followed(q, lim, nodes, x, s, i),
    decreases nodes.len() - idx,
{
    lemma_span_bounds(nodes, idx, start);
    if !(idx == x && start == s) {
        let (mid, next) = span(nodes, idx + 1, start).unwrap();
        lemma_span_bounds(nodes, idx + 1, start);
        lemma_span_bounds(nodes, nodes[idx].data0 as int, mid);
        lemma_descends_run(nodes, idx, start, x, s);
        if descends(nodes, idx + 1, start, x, s) {
            lemma_descends_run(nodes, idx + 1, start, x, s);
            lemma_followed_descends(q, lim, nodes, idx + 1, start, x, s, i);
        } else {
            lemma_descends_run(nodes, nodes[idx].data0 as int, mid, x, s);
            lemma_followed_descends(q, lim, nodes, nodes[idx].data0 as int, mid, x, s, i);
        }
    }
}

/// A walk bounded by a nearer distance reaches only positions that a walk bounded by a
/// farther one reaches.
proof fn lemma_followed_narrows<Q: RayQuery>(
    q: Q,
    near: Q::Distance,
    far: Q::Distance,
    nodes: Seq<BvhNode<Q::Bounds>>,
    idx: int,
    start: int,
    i: int,
)
    requires
        q.before(near, far),
        followed(q, near, nodes, idx, start, i),
    ensures
        followed(q, far, nodes, idx, start, i),
    decreases nodes.len() - idx,
{
    if nodes[idx].count == 0 {
        let (mid, next) = span(nodes, idx + 1, start).unwrap();
        if i < mid {
            let b = nodes[idx + 1].bounds;
            q.lemma_before_transitive(q.enters(b).unwrap(), near, far);
            lemma_followed_narrows(q, near, far, nodes, idx + 1, start, i);
        } else {
            let b = nodes[nodes[idx].data0 as int].bounds;
            q.lemma_before_transitive(q.enters(b).unwrap(), near, far);
            lemma_followed_narrows(q, near, far, nodes, nodes[idx].data0 as int, mid, i);
        }
    }
}

/// Every position that a walk bounded by `lim` reaches from the root is either known not
/// to hold a primitive hit before `lim`, or lies in the run of an entry of the stack.
pub open spec fn near_covered<Q: RayQuery>(
    q: Q,
    lim: Q::Distance,
    nodes: Seq<BvhNode<Q::Bounds>>,
    order: Seq<u32>,
    stack: Seq<usize>,
    starts: Seq<int>,
) -> bool {
    forall|i: int| 0 <= i < order.len() && #[trigger] followed(q, lim, nodes, 0, 0, i)
        ==> !reports(q, lim, order[i])
            || exists|k: int| #![trigger stack[k], starts[k]]
                0 <= k < stack.len() && in_run(nodes, stack[k] as int, starts[k], i)
}

/// Finding a nearer bound keeps every reached position accounted for.
proof fn lemma_near_covered_narrows<Q: RayQuery>(
    q: Q,
    near: Q::Distance,
    far: Q::Distance,
    nodes: Seq<BvhNode<Q::Bounds>>,
    order: Seq<u32>,
    stack: Seq<usize>,
    starts: Seq<int>,
)
    requires
        q.before(near, far),
        near_covered(q, far, nodes, order, stack, starts),
    ensures
        near_covered(q, near, nodes, order, stack, starts),
{
    assert forall|i: int| 0 <= i < order.len() && #[trigger] followed(q, near, nodes, 0, 0, i)
        implies !reports(q, near, order[i]) || exists|k: int| #![trigger stack[k], starts[k]]
            0 <= k < stack.len() && in_run(nodes, stack[k] as int, starts[k], i) by {
        lemma_followed_narrows(q, near, far, nodes, 0, 0, i);
        if reports(q, near, order[i]) {
            let h = q.hits(order[i]).unwrap();
            q.lemma_before_transitive(q.distance_of(h), near, far);
        }
    }
}

/// Popping a leaf whose primitives are not hit before `lim` keeps every reached position
/// accounted for.
proof fn lemma_near_leaf_step<Q: RayQuery>(
    q: Q,
    lim: Q::Distance,
    nodes: Seq<BvhNode<Q::Bounds>>,
    order: Seq<u32>,
    stack: Seq<usize>,
    starts: Seq<int>,
)
    requires
        stack.len() > 0,
        starts.len() == stack.len(),
        near_covered(q, lim, nodes, order, stack, starts),
        span(nodes, stack.last() as int, starts.last()) is Some,
        nodes[stack.last() as int].count > 0,
        forall|j: int| starts.last() <= j < starts.last() + nodes[stack.last() as int].count
            && 0 <= j < order.len() ==> !reports(q, lim, #[trigger] order[j]),
    ensures
        near_covered(q, lim, nodes, order, stack.drop_last(), starts.drop_last()),
{
    let l = stack.len() - 1;
    let s2 = stack.drop_last();
    let t2 = starts.drop_last();
    assert forall|i: int| 0 <= i < order.len() && #[trigger] followed(q, lim, nodes, 0, 0, i)
        implies !reports(q, lim, order[i]) || exists|k: int| #![trigger s2[k], t2[k]]
            0 <= k < s2.len() && in_run(nodes, s2[k] as int, t2[k], i) by {
        if reports(q, lim, order[i]) {
            let k = choose|k: int| #![trigger stack[k], starts[k]]
                0 <= k < stack.len() && in_run(nodes, stack[k] as int, starts[k], i);
            if k != l {
                assert(s2[k] == stack[k] && t2[k] == starts[k]);
            }
        }
    }
}

/// Popping an inner node and pushing each child whose box is entered before `lim` keeps
/// every reached position accounted for. `kl` and `kr` are where the children were pushed.
proof fn lemma_near_inner_step<Q: RayQuery>(
    q: Q,
    lim: Q::Distance,
    nodes: Seq<BvhNode<Q::Bounds>>,
    order: Seq<u32>,
    stack: Seq<usize>,
    starts: Seq<int>,
    stack2: Seq<usize>,
    starts2: Seq<int>,
    kl: int,
    kr: int,
)
    requires
        stack.len() > 0,
        starts.len() == stack.len(),
        span(nodes, 0, 0) is Some,
        descends(nodes, 0, 0, stack.last() as int, starts.last()),
        near_covered(q, lim, nodes, order, stack, starts),
        nodes[stack.last() as int].count == 0,
        stack2.len() >= stack.len() - 1,
        starts2.len() == stack2.len(),
        forall|k: int| 0 <= k < stack.len() - 1 ==> stack2[k] == stack[k] && starts2[k] == starts[k],
        opens(q, lim, nodes[stack.last() + 1].bounds) ==> 0 <= kl < stack2.len()
            && stack2[kl] == stack.last() + 1 && starts2[kl] == starts.last(),
        opens(q, lim, nodes[nodes[stack.last() as int].data0 as int].bounds) ==> 0 <= kr < stack2.len()
            && stack2[kr] == nodes[stack.last() as int].data0
            && starts2[kr] == span(nodes, stack.last() + 1, starts.last()).unwrap().0,
    ensures
        near_covered(q, lim, nodes, order, stack2, starts2),
{
    let l = stack.len() - 1;
    let x = stack.last() as int;
    let s = starts.last();
    lemma_descends_run(nodes, 0, 0, x, s);
    lemma_span_bounds(nodes, x, s);
    lemma_span_bounds(nodes, x + 1, s);
    let (mid, next) = span(nodes, x + 1, s).unwrap();
    let right = nodes[x].data0 as int;
    lemma_span_bounds(nodes, right, mid);
    assert forall|i: int| 0 <= i < order.len() && #[trigger] followed(q, lim, nodes, 0, 0, i)
        implies !reports(q, lim, order[i]) || exists|k: int| #![trigger stack2[k], starts2[k]]
            0 <= k < stack2.len() && in_run(nodes, stack2[k] as int, starts2[k], i) by {
        if reports(q, lim, order[i]) {
            let k = choose|k: int| #![trigger stack[k], starts[k]]
                0 <= k < stack.len() && in_run(nodes, stack[k] as int, starts[k], i);
            if k == l {
                lemma_followed_descends(q, lim, nodes, 0, 0, x, s, i);
                if i < mid {
                    assert(stack2[kl] == x + 1 && starts2[kl] == s);
                    assert(in_run(nodes, stack2[kl] as int, starts2[kl], i));
                } else {
                    assert(stack2[kr] == right && starts2[kr] == mid);
                    assert(in_run(nodes, stack2[kr] as int, starts2[kr], i));
                }
            } else {
                assert(stack2[k] == stack[k] && starts2[k] == starts[k]);
            }
        }
    }
}

/// Whether every primitive hit before `lim` lies inside the boxes above it: the ray enters
/// each box whose subtree holds the primitive before `lim`.
pub open spec fn hits_in_boxes<Q: RayQuery>(q: Q, lim: Q::Distance, nodes: Seq<BvhNode<Q::Bounds>>, order: Seq<u32>) -> bool {
    forall|idx: int, start: int, i: int|
        #![trigger descends(nodes, 0, 0, idx, start), in_run(nodes, idx, start, i)]
        descends(nodes, 0, 0, idx, start) && in_run(nodes, idx, start, i) && 0 <= i < order.len()
            && reports(q, lim, order[i]) ==> opens(q, lim, nodes[idx].bounds)
}

/// Where hits lie inside their boxes, a walk bounded by `lim` reaches every primitive hit
/// before `lim`.
proof fn lemma_reached_when_inside<Q: RayQuery>(
    q: Q,
    lim: Q::Distance,
    nodes: Seq<BvhNode<Q::Bounds>>,
    order: Seq<u32>,
    idx: int,
    start: int,
    i: int,
)
    requires
        span(nodes, 0, 0) is Some,
        descends(nodes, 0, 0, idx, start),
        in_run(nodes, idx, start, i),
        0 <= i < order.len(),
        reports(q, lim, order[i]),
        hits_in_boxes(q, lim, nodes, order),
    ensures
        followed(q, lim, nodes, idx, start, i),
    decreases nodes.len() - idx,
{
    lemma_descends_run(nodes, 0, 0, idx, start);
    lemma_span_bounds(nodes, idx, start);
    if nodes[idx].count == 0 {
        lemma_descends_children(nodes, 0, 0, idx, start);
        lemma_span_bounds(nodes, idx + 1, start);
        let (mid, next) = span(nodes, idx + 1, start).unwrap();
        let right = nodes[idx].data0 as int;
        lemma_span_bounds(nodes, right, mid);
        if i < mid {
            assert(in_run(nodes, idx + 1, start, i));
            assert(opens(q, lim, nodes[idx + 1].bounds));
            lemma_reached_when_inside(q, lim, nodes, order, idx + 1, start, i);
        } else {
            assert(in_run(nodes, right, mid, i));
            assert(opens(q, lim, nodes[right].bounds));
            lemma_reached_when_inside(q, lim, nodes, order, right, mid, i);
        }
    }
}

/// Where hits lie inside their boxes, a walk that misses nothing it reaches misses nothing:
/// no primitive at all is hit before `lim`.
proof fn lemma_scan<Q: RayQuery>(q: Q, lim: Q::Distance, nodes: Seq<BvhNode<Q::Bounds>>, order: Seq<u32>)
    requires
        span(nodes, 0, 0) is Some,
        span(nodes, 0, 0).unwrap().0 == order.len(),
        hits_in_boxes(q, lim, nodes, order),
        forall|i: int| 0 <= i < order.len() && #[trigger] followed(q, lim, nodes, 0, 0, i)
            ==> !reports(q, lim, order[i]),
    ensures
        forall|i: int| 0 <= i < order.len() ==> !reports(q, lim, #[trigger] order[i]),
{
    assert forall|i: int| 0 <= i < order.len() implies !reports(q, lim, #[trigger] order[i]) by {
        if reports(q, lim, order[i]) {
            assert(descends(nodes, 0, 0, 0, 0));
            assert(in_run(nodes, 0, 0, i));
            lemma_reached_when_inside(q, lim, nodes, order, 0, 0, i);
        }
    }
}

/// One of the two children of an inner node.
#[derive(Clone, Copy, PartialEq, Eq, Structural)]
pub enum Side {
    Left,
    Right,
}

/// The children of an inner node that a closest-hit traversal pushes, in push order (the
/// one pushed last is visited first). For each child, `None` means the ray misses its
/// box, `Some(b)` that it enters the box, before the closest hit so far when `b`;
/// `left_first` says the left box is entered no later than the right one, and counts only
/// when both are entered. The nearer child is pushed last.
pub open spec fn children_order(left_entry: Option<bool>, right_entry: Option<bool>, left_first: bool) -> (Option<Side>, Option<Side>) {
    let keep = |e: bool, side: Side| if e { Some(side) } else { None };
    match (left_entry, right_entry) {
        (Some(l), Some(r)) => if left_first {
            (keep(r, Side::Right), keep(l, Side::Left))
        } else {
            (keep(l, Side::Left), keep(r, Side::Right))
        },
        (Some(l), None) => (None, keep(l, Side::Left)),
        (None, Some(r)) => (None, keep(r, Side::Right)),
        (None, None) => (None, None),
    }
}

/// The children of an inner node that a closest-hit traversal pushes, in push order;
/// see [`children_order`].
pub fn ordered_children(left_entry: Option<bool>, right_entry: Option<bool>, left_first: bool) -> (r: (Option<Side>, Option<Side>))
    ensures
        r == children_order(left_entry, right_entry, left_first),
{
    let keep = |e: bool, side: Side| -> (o: Option<Side>) ensures o == (if e { Some(side) } else { None }) { if e { Some(side) } else { None } };
    match (left_entry, right_entry) {
        (Some(l), Some(r)) => if left_first {
            (keep(r, Side::Right), keep(l, Side::Left))
        } else {
            (keep(l, Side::Left), keep(r, Side::Right))
        },
        (Some(l), None) => (None, keep(l, Side::Left)),
        (None, Some(r)) => (None, keep(r, Side::Right)),
        (None, None) => (None, None),
    }
}

/// The children of an inner node that an occlusion test pushes, in push order: the left
/// child, then the right one, each when the ray enters its box before the limit (`None`
/// means the ray misses the box).
pub open spec fn occlusion_order(left_entry: Option<bool>, right_entry: Option<bool>) -> (Option<Side>, Option<Side>) {
    (
        if left_entry == Some(true) { Some(Side::Left) } else { None },
        if right_entry == Some(true) { Some(Side::Right) } else { None },
    )
}

/// The children of an inner node that an occlusion test pushes, in push order; see
/// [`occlusion_order`].
pub fn occluding_children(left_entry: Option<bool>, right_entry: Option<bool>) -> (r: (Option<Side>, Option<Side>))
    ensures
        r == occlusion_order(left_entry, right_entry),
{
    let first = match left_entry {
        Some(true) => Some(Side::Left),
        _ => None,
    };
    let second = match right_entry {
        Some(true) => Some(Side::Right),
        _ => None,
    };
    (first, second)
}

/// A bounding volume hierarchy: a flat array of nodes and the order of primitives that
/// its leaves index.
pub struct Bvh<B> {
    flat_nodes: Vec<BvhNode<B>>,
    spatial_indices: Vec<u32>,
}

/// The total number of nodes in the subtrees rooted at the entries of a traversal stack.
pub open spec fn weight<B>(nodes: Seq<BvhNode<B>>, stack: Seq<usize>, starts: Seq<int>) -> int
    decreases stack.len(),
{
    if stack.len() == 0 || starts.len() != stack.len() {
        0
    } else {
        weight(nodes, stack.drop_last(), starts.drop_last())
            + (span(nodes, stack.last() as int, starts.last()).unwrap().1 - stack.last())
    }
}

/// Every entry of a traversal stack is the root of a well-shaped subtree within the
/// first `n` positions.
pub open spec fn stack_ok<B>(nodes: Seq<BvhNode<B>>, stack: Seq<usize>, starts: Seq<int>, n: int) -> bool {
    &&& starts.len() == stack.len()
    &&& forall|k: int| 0 <= k < stack.len() ==> #[trigger] span(nodes, stack[k] as int, starts[k]) is Some
        && span(nodes, stack[k] as int, starts[k]).unwrap().0 <= n
        && 0 <= starts[k]
}

proof fn lemma_weight_nonneg<B>(nodes: Seq<BvhNode<B>>, stack: Seq<usize>, starts: Seq<int>, n: int)
    requires
        stack_ok(nodes, stack, starts, n),
    ensures
        weight(nodes, stack, starts) >= 0,
    decreases stack.len(),
{
    if stack.len() > 0 {
        let k = stack.len() - 1;
        assert(span(nodes, stack[k] as int, starts[k]) is Some);
        lemma_span_bounds(nodes, stack[k] as int, starts[k]);
        assert(stack_ok(nodes, stack.drop_last(), starts.drop_last(), n));
        lemma_weight_nonneg(nodes, stack.drop_last(), starts.drop_last(), n);
    }
}

proof fn lemma_weight_push<B>(nodes: Seq<BvhNode<B>>, stack: Seq<usize>, starts: Seq<int>, x: usize, s: int)
    requires
        starts.len() == stack.len(),
    ensures
        weight(nodes, stack.push(x), starts.push(s)) == weight(nodes, stack, starts)
            + (span(nodes, x as int, s).unwrap().1 - x),
{
    assert(stack.push(x).drop_last() =~= stack);
    assert(starts.push(s).drop_last() =~= starts);
}

impl<B> Bvh<B> {
    #[verifier::type_invariant]
    spec fn wf(&self) -> bool {
        ||| self.flat_nodes@.len() == 0 && self.spatial_indices@.len() == 0
        ||| {
            &&& 0 < self.spatial_indices@.len() < 0x8000_0000
            &&& distinct_below(self.spatial_indices@, self.spatial_indices@.len() as int)
            &&& span(self.flat_nodes@, 0, 0) == Some((self.spatial_indices@.len() as int, self.flat_nodes@.len() as int))
            &&& self.flat_nodes@.len() < 2 * self.spatial_indices@.len()
        }
    }
}

impl<B: Copy> Bvh<B> {
    /// The nodes, in depth-first order.
    pub closed spec fn nodes(&self) -> Seq<BvhNode<B>> {
        self.flat_nodes@
    }

    /// The order of primitives that the leaves index.
    pub closed spec fn order(&self) -> Seq<u32> {
        self.spatial_indices@
    }

    /// Builds the hierarchy of `object_count` objects; with none it is empty.
    pub fn build<G: BvhGeometry<Bounds = B>>(geometry: &G, object_count: usize) -> (r: Bvh<B>)
        requires
            object_count < 0x8000_0000,
        ensures
            r.order().len() == object_count,
            distinct_below(r.order(), object_count as int),
            object_count == 0 ==> r.nodes().len() == 0,
            object_count > 0 ==> r.nodes().len() < 2 * object_count
                && span(r.nodes(), 0, 0) == Some((object_count as int, r.nodes().len() as int)),
            object_count > 0 ==> boxes_ok(*geometry, r.nodes(), r.order(), 0, 0),
            object_count > 0 ==> shape_ok(*geometry, r.nodes(), r.order(), 0, 0),
    {
        if object_count == 0 {
            return Bvh { flat_nodes: Vec::new(), spatial_indices: Vec::new() };
        }
        let (nodes, indices) = BvhBuilder::build(geometry, object_count);
        Bvh { flat_nodes: nodes, spatial_indices: indices }
    }

    /// The closest hit of the ray among the primitives, with the primitive hit, visiting
    /// nearer subtrees first and skipping boxes beyond the closest hit found so far.
    pub fn traverse<Q: RayQuery<Bounds = B>>(&self, query: &Q) -> (r: Option<(Q::Hit, u32)>)
        ensures
            self.nodes().len() == 0 ==> r is None,
            r matches Some((h, p)) ==> self.order().contains(p) && query.hits(p) == Some(h)
                && query.before(query.distance_of(h), query.limit()),
            r matches Some((h, p)) ==> forall|i: int| 0 <= i < self.order().len()
                && #[trigger] followed(*query, query.distance_of(h), self.nodes(), 0, 0, i)
                ==> !reports(*query, query.distance_of(h), self.order()[i]),
            r is None ==> (hits_in_boxes(*query, query.limit(), self.nodes(), self.order())
                ==> forall|i: int| 0 <= i < self.order().len() ==> !reports(*query, query.limit(), #[trigger] self.order()[i])),
            r matches Some((h, p)) ==> (hits_in_boxes(*query, query.distance_of(h), self.nodes(), self.order())
                ==> forall|i: int| 0 <= i < self.order().len()
                    ==> !reports(*query, query.distance_of(h), #[trigger] self.order()[i])),
            r is None ==> forall|i: int| 0 <= i < self.order().len()
                && #[trigger] followed(*query, query.limit(), self.nodes(), 0, 0, i)
                ==> !reports(*query, query.limit(), self.order()[i]),
    {
        proof {
            use_type_invariant(self);
        }
        if self.flat_nodes.len() == 0 {
            return None;
        }
        let ghost nodes = self.flat_nodes@;
        let ghost n = self.spatial_indices@.len() as int;
        let mut stack: Vec<usize> = Vec::new();
        stack.push(0);
        let ghost mut starts: Seq<int> = seq![0int];
        let mut max_hit = query.unbounded();
        let mut closest: Option<(Q::Hit, u32)> = None;
        let ghost order = self.spatial_indices@;
        let ghost lim = query.limit();
        proof {
            assert forall|i: int| 0 <= i < order.len() && #[trigger] followed(*query, lim, nodes, 0, 0, i)
                implies !reports(*query, lim, order[i]) || exists|k: int| #![trigger stack@[k], starts[k]]
                    0 <= k < stack@.len() && in_run(nodes, stack@[k] as int, starts[k], i) by {
                assert(stack@[0] == 0 && starts[0] == 0);
                assert(in_run(nodes, stack@[0] as int, starts[0], i));
            }
            assert(descends(nodes, 0, 0, stack@[0] as int, starts[0]));
        }
        while stack.len() > 0
            invariant
                nodes == self.flat_nodes@,
                order == self.spatial_indices@,
                lim == query.limit(),
                n == self.spatial_indices@.len(),
                n < 0x8000_0000,
                nodes.len() <= 2 * n,
                stack_ok(nodes, stack@, starts, n),
                closest matches Some((h, p)) ==> order.contains(p) && query.hits(p) == Some(h)
                    && max_hit == query.distance_of(h) && query.before(max_hit, lim),
                closest is None ==> max_hit == lim,
                span(nodes, 0, 0) is Some,
                forall|k: int| #![trigger stack@[k], starts[k]]
                    0 <= k < stack@.len() ==> descends(nodes, 0, 0, stack@[k] as int, starts[k]),
                near_covered(*query, max_hit, nodes, order, stack@, starts),
            decreases weight(nodes, stack@, starts),
        {
            proof {
                lemma_weight_nonneg(nodes, stack@, starts, n);
            }
            let ghost old_stack = stack@;
            let ghost old_starts = starts;
            let node_index = stack.pop().unwrap();
            let ghost start = starts.last();
            proof {
                starts = starts.drop_last();
                assert(stack@ == old_stack.drop_last());
                assert(span(nodes, old_stack[old_stack.len() - 1] as int, old_starts[old_stack.len() - 1]) is Some);
                lemma_span_bounds(nodes, node_index as int, start);
                assert(old_stack.drop_last() =~= stack@);
                assert(old_starts.drop_last() =~= starts);
            }
            let ghost base_weight = weight(nodes, stack@, starts);
            let ghost size = span(nodes, node_index as int, start).unwrap().1 - node_index;
            assert(weight(nodes, old_stack, old_starts) == base_weight + size);
            let node = self.flat_nodes[node_index];
            if node.is_leaf() {
                let mut i: usize = node.data0 as usize;
                let end: usize = node.data0 as usize + node.count as usize;
                while i < end
                    invariant
                        node.data0 <= i <= end <= n,
                        n == self.spatial_indices@.len(),
                        order == self.spatial_indices@,
                        nodes == self.flat_nodes@,
                        lim == query.limit(),
                        closest matches Some((h, p)) ==> order.contains(p) && query.hits(p) == Some(h)
                            && max_hit == query.distance_of(h) && query.before(max_hit, lim),
                        closest is None ==> max_hit == lim,
                        near_covered(*query, max_hit, nodes, order, old_stack, old_starts),
                        forall|j: int| node.data0 <= j < i ==> !reports(*query, max_hit, #[trigger] order[j]),
                    decreases end - i,
                {
                    let primitive = self.spatial_indices[i];
                    match query.hit_primitive(primitive) {
                        Some(hit) => {
                            let t = query.hit_distance(&hit);
                            if query.less(&t, &max_hit) {
                                let ghost hit_seen = hit;
                                let ghost far = max_hit;
                                proof {
                                    lemma_near_covered_narrows(*query, t, far, nodes, order, old_stack, old_starts);
                                    assert forall|j: int| node.data0 <= j < i implies !reports(*query, t, #[trigger] order[j]) by {
                                        if reports(*query, t, order[j]) {
                                            let h2 = query.hits(order[j]).unwrap();
                                            query.lemma_before_transitive(query.distance_of(h2), t, far);
                                        }
                                    }
                                    query.lemma_before_irreflexive(t);
                                    if closest is Some {
                                        query.lemma_before_transitive(t, far, lim);
                                    }
                                }
                                max_hit = t;
                                closest = Some((hit, primitive));
                                proof {
                                    assert(self.spatial_indices@[i as int] == primitive);
                                    assert(query.hits(primitive) == Some(hit_seen));
                                    assert(!reports(*query, max_hit, order[i as int]));
                                }
                            } else {
                                assert(!reports(*query, max_hit, order[i as int]));
                            }
                        },
                        None => {},
                    }
                    i = i + 1;
                }
                proof {
                    assert(weight(nodes, stack@, starts) == base_weight);
                    assert(nodes[node_index as int] == node);
                    lemma_near_leaf_step(*query, max_hit, nodes, order, old_stack, old_starts);
                    assert forall|k: int| #![trigger stack@[k], starts[k]]
                        0 <= k < stack@.len() implies descends(nodes, 0, 0, stack@[k] as int, starts[k]) by {
                        assert(stack@[k] == old_stack[k] && starts[k] == old_starts[k]);
                    }
                }
            } else {
                let left = node_index + 1;
                let right = node.data0 as usize;
                let ghost (mid, next1) = span(nodes, left as int, start).unwrap();
                proof {
                    lemma_span_bounds(nodes, left as int, start);
                    lemma_span_bounds(nodes, right as int, mid);
                }
                let d_left = query.enter_distance(&self.flat_nodes[left].bounds);
                let d_right = query.enter_distance(&self.flat_nodes[right].bounds);
                let ghost left_size = next1 - left;
                let ghost right_size = span(nodes, right as int, mid).unwrap().1 - right;
                assert(left_size + right_size + 1 == size);
                let left_entry = match d_left {
                    Some(t) => Some(query.less(&t, &max_hit)),
                    None => None,
                };
                let right_entry = match d_right {
                    Some(t) => Some(query.less(&t, &max_hit)),
                    None => None,
                };
                let left_first = match (d_left, d_right) {
                    (Some(dl), Some(dr)) => query.at_most(&dl, &dr),
                    _ => false,
                };
                let (first, second) = ordered_children(left_entry, right_entry, left_first);
                let ghost pushed_first = first;
                let ghost pushed_second = second;
                let ghost popped = stack@;
                let ghost popped_starts = starts;
                match first {
                    Some(Side::Left) => {
                        let ghost s1 = stack@;
                        let ghost t1 = starts;
                        stack.push(left);
                        proof {
                            starts = starts.push(start);
                            lemma_weight_push(nodes, s1, t1, left, start);
                        }
                    },
                    Some(Side::Right) => {
                        let ghost s1 = stack@;
                        let ghost t1 = starts;
                        stack.push(right);
                        proof {
                            starts = starts.push(mid);
                            lemma_weight_push(nodes, s1, t1, right, mid);
                        }
                    },
                    None => {},
                }
                assert(weight(nodes, stack@, starts) <= base_weight + match pushed_first {
                    Some(Side::Left) => left_size,
                    Some(Side::Right) => right_size,
                    None => 0,
                });
                match second {
                    Some(Side::Left) => {
                        let ghost s1 = stack@;
                        let ghost t1 = starts;
                        stack.push(left);
                        proof {
                            starts = starts.push(start);
                            lemma_weight_push(nodes, s1, t1, left, start);
                        }
                    },
                    Some(Side::Right) => {
                        let ghost s1 = stack@;
                        let ghost t1 = starts;
                        stack.push(right);
                        proof {
                            starts = starts.push(mid);
                            lemma_weight_push(nodes, s1, t1, right, mid);
                        }
                    },
                    None => {},
                }
                assert(weight(nodes, stack@, starts) < base_weight + size);
                proof {
                    let base = popped.len() as int;
                    let after_first = if pushed_first is Some { base + 1 } else { base };
                    let kl = if pushed_first == Some(Side::Left) { base } else { after_first };
                    let kr = if pushed_first == Some(Side::Right) { base } else { after_first };
                    assert(nodes[node_index as int] == node);
                    assert forall|k: int| 0 <= k < old_stack.len() - 1 implies stack@[k] == old_stack[k] && starts[k] == old_starts[k] by {
                        assert(popped[k] == old_stack[k] && popped_starts[k] == old_starts[k]);
                    }
                    let top = old_stack.len() - 1;
                    assert(old_stack[top] == node_index && old_starts[top] == start);
                    lemma_near_inner_step(*query, max_hit, nodes, order, old_stack, old_starts, stack@, starts, kl, kr);
                    lemma_descends_children(nodes, 0, 0, node_index as int, start);
                    assert forall|k: int| #![trigger stack@[k], starts[k]]
                        0 <= k < stack@.len() implies descends(nodes, 0, 0, stack@[k] as int, starts[k]) by {
                        if k < base {
                            assert(stack@[k] == old_stack[k] && starts[k] == old_starts[k]);
                        }
                    }
                }
            }
            assert(weight(nodes, stack@, starts) < weight(nodes, old_stack, old_starts));
            proof {
                lemma_weight_nonneg(nodes, stack@, starts, n);
            }
        }
        proof {
            assert forall|i: int| 0 <= i < order.len() && #[trigger] followed(*query, max_hit, nodes, 0, 0, i)
                implies !reports(*query, max_hit, order[i]) by {}
            if hits_in_boxes(*query, max_hit, nodes, order) {
                lemma_scan(*query, max_hit, nodes, order);
            }
        }
        closest
    }

    /// Whether the ray hits some primitive closer than `max_t`; used for shadow rays.

    pub fn hit_any<Q: RayQuery<Bounds = B>>(&self, query: &Q, max_t: Q::Distance) -> (r: bool)
        ensures
            self.nodes().len() == 0 ==> !r,
            r ==> exists|i: int| 0 <= i < self.order().len() && reports(*query, max_t, #[trigger] self.order()[i]),
            !r ==> forall|i: int| 0 <= i < self.order().len() && #[trigger] followed(*query, max_t, self.nodes(), 0, 0, i)
                ==> !reports(*query, max_t, self.order()[i]),
            hits_in_boxes(*query, max_t, self.nodes(), self.order())
                ==> (r <==> exists|i: int| 0 <= i < self.order().len() && reports(*query, max_t, #[trigger] self.order()[i])),
    {
        proof {
            use_type_invariant(self);
        }
        if self.flat_nodes.len() == 0 {
            return false;
        }
        let ghost nodes = self.flat_nodes@;
        let ghost n = self.spatial_indices@.len() as int;
        let mut stack: Vec<usize> = Vec::new();
        stack.push(0);
        let ghost mut starts: Seq<int> = seq![0int];
        let ghost order = self.spatial_indices@;
        proof {
            assert forall|i: int| 0 <= i < order.len() && #[trigger] followed(*query, max_t, nodes, 0, 0, i)
                implies !reports(*query, max_t, order[i]) || pending(*query, max_t, nodes, stack@, starts, i) by {
                assert(stack@[0] == 0 && starts[0] == 0);
                assert(in_run(nodes, stack@[0] as int, starts[0], i));
            }
        }
        while stack.len() > 0
            invariant
                nodes == self.flat_nodes@,
                order == self.spatial_indices@,
                n == self.spatial_indices@.len(),
                n < 0x8000_0000,
                nodes.len() <= 2 * n,
                stack_ok(nodes, stack@, starts, n),
                covered(*query, max_t, nodes, order, stack@, starts),
            decreases weight(nodes, stack@, starts),
        {
            proof {
                lemma_weight_nonneg(nodes, stack@, starts, n);
            }
            let ghost old_stack = stack@;
            let ghost old_starts = starts;
            let node_index = stack.pop().unwrap();
            let ghost start = starts.last();
            proof {
                starts = starts.drop_last();
                assert(span(nodes, old_stack[old_stack.len() - 1] as int, old_starts[old_stack.len() - 1]) is Some);
                lemma_span_bounds(nodes, node_index as int, start);
                assert(old_stack.drop_last() =~= stack@);
                assert(old_starts.drop_last() =~= starts);
            }
            let ghost base_weight = weight(nodes, stack@, starts);
            let ghost size = span(nodes, node_index as int, start).unwrap().1 - node_index;
            assert(weight(nodes, old_stack, old_starts) == base_weight + size);
            let node = self.flat_nodes[node_index];
            if node.is_leaf() {
                let mut i: usize = node.data0 as usize;
                let end: usize = node.data0 as usize + node.count as usize;
                while i < end
                    invariant
                        node.data0 <= i <= end <= n,
                        n == self.spatial_indices@.len(),
                        order == self.spatial_indices@,
                        self.flat_nodes@.len() > 0,
                        forall|j: int| node.data0 <= j < i ==> !reports(*query, max_t, #[trigger] order[j]),
                    decreases end - i,
                {
                    let primitive = self.spatial_indices[i];
                    match query.hit_primitive(primitive) {
                        Some(hit) => {
                            let t = query.hit_distance(&hit);
                            if query.less(&t, &max_t) {
                                assert(reports(*query, max_t, order[i as int]));
                                assert(self.order()[i as int] == order[i as int]);
                                assert(0 <= i < self.order().len() && reports(*query, max_t, self.order()[i as int]));
                                return true;
                            }
                        },
                        None => {},
                    }
                    i = i + 1;
                }
                proof {
                    assert(nodes[node_index as int] == node);
                    lemma_leaf_step(*query, max_t, nodes, order, old_stack, old_starts);
                }
            } else {
                let left = node_index + 1;
                let right = node.data0 as usize;
                let ghost (mid, next1) = span(nodes, left as int, start).unwrap();
                proof {
                    lemma_span_bounds(nodes, left as int, start);
                    lemma_span_bounds(nodes, right as int, mid);
                }
                let d_left = query.enter_distance(&self.flat_nodes[left].bounds);
                let d_right = query.enter_distance(&self.flat_nodes[right].bounds);
                let ghost left_size = next1 - left;
                let ghost right_size = span(nodes, right as int, mid).unwrap().1 - right;
                assert(left_size + right_size + 1 == size);
                let left_entry = match d_left {
                    Some(t) => Some(query.less(&t, &max_t)),
                    None => None,
                };
                let right_entry = match d_right {
                    Some(t) => Some(query.less(&t, &max_t)),
                    None => None,
                };
                let (first, second) = occluding_children(left_entry, right_entry);
                let ghost popped = stack@;
                let ghost popped_starts = starts;
                if first.is_some() {
                    let ghost s1 = stack@;
                    let ghost t1 = starts;
                    stack.push(left);
                    proof {
                        starts = starts.push(start);
                        lemma_weight_push(nodes, s1, t1, left, start);
                    }
                }
                assert(weight(nodes, stack@, starts) <= base_weight + left_size);
                if second.is_some() {
                    let ghost s1 = stack@;
                    let ghost t1 = starts;
                    stack.push(right);
                    proof {
                        starts = starts.push(mid);
                        lemma_weight_push(nodes, s1, t1, right, mid);
                    }
                }
                assert(weight(nodes, stack@, starts) < base_weight + size);
                proof {
                    let base = popped.len() as int;
                    let kl = base;
                    let kr = if first.is_some() { base + 1 } else { base };
                    assert(nodes[node_index as int] == node);
                    assert forall|k: int| 0 <= k < old_stack.len() - 1 implies stack@[k] == old_stack[k] && starts[k] == old_starts[k] by {
                        assert(popped[k] == old_stack[k] && popped_starts[k] == old_starts[k]);
                    }
                    lemma_inner_step(*query, max_t, nodes, order, old_stack, old_starts, stack@, starts, kl, kr);
                }
            }
            assert(weight(nodes, stack@, starts) < weight(nodes, old_stack, old_starts));
            proof {
                lemma_weight_nonneg(nodes, stack@, starts, n);
            }
        }
        proof {
            assert forall|i: int| 0 <= i < order.len() && #[trigger] followed(*query, max_t, nodes, 0, 0, i)
                implies !reports(*query, max_t, order[i]) by {}
            if hits_in_boxes(*query, max_t, nodes, order) {
                lemma_scan(*query, max_t, nodes, order);
            }
        }
        false
    }
}

} // verus!
