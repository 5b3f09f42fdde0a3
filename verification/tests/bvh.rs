use raytracer::rendering::bvh::builder::{BvhBuilder, BvhGeometry, IndexRange, PrimitiveSet, LEAF_SIZE};
use raytracer::rendering::bvh::node::BvhNode;
use raytracer::rendering::bvh::tree::{occluding_children, ordered_children, Bvh, RayQuery, Side};

/// Segments `[lo, hi]` on a line; a ray starts at `origin` and runs towards +x.
struct Segments(Vec<(i64, i64)>);

impl BvhGeometry for Segments {
    type Bounds = (i64, i64);
    type Split = i64;

    // Only the library's contracts speak of this name; it is never called at run time.
    fn bounds_of(&self, _prims: PrimitiveSet) -> (i64, i64) {
        unreachable!("a name in the contracts")
    }

    fn split_for(&self, _prims: PrimitiveSet, _bounds: (i64, i64)) -> Option<i64> {
        unreachable!("a name in the contracts")
    }

    fn node_bounds(&self, order: &Vec<u32>, start: usize, end: usize) -> (i64, i64) {
        let mut b = (i64::MAX, i64::MIN);
        for &p in &order[start..end] {
            let (lo, hi) = self.0[p as usize];
            b = (b.0.min(lo), b.1.max(hi));
        }
        b
    }

    fn find_split(&self, order: &Vec<u32>, start: usize, end: usize, _b: &(i64, i64)) -> Option<i64> {
        if end - start <= LEAF_SIZE as usize {
            return None;
        }
        let mut c: Vec<i64> = order[start..end].iter().map(|&p| self.0[p as usize].0).collect();
        c.sort();
        Some(c[c.len() / 2])
    }

    fn left_of(&self, split: i64, primitive: u32) -> bool {
        self.goes_left(&split, primitive)
    }

    fn goes_left(&self, split: &i64, primitive: u32) -> bool {
        self.0[primitive as usize].0 < *split
    }
}

struct Ray<'a> {
    segments: &'a Segments,
    origin: i64,
}

impl<'a> RayQuery for Ray<'a> {
    type Bounds = (i64, i64);
    type Distance = i64;
    type Hit = i64;

    // The names the library's contracts speak of; here they answer as the calls do.
    fn enters(&self, b: (i64, i64)) -> Option<i64> {
        self.enter_distance(&b)
    }

    fn hits(&self, primitive: u32) -> Option<i64> {
        self.hit_primitive(primitive)
    }

    fn distance_of(&self, hit: i64) -> i64 {
        hit
    }

    fn before(&self, a: i64, b: i64) -> bool {
        a < b
    }

    fn no_later(&self, a: i64, b: i64) -> bool {
        a <= b
    }

    fn limit(&self) -> i64 {
        i64::MAX
    }

    // The order laws the library's proofs use; `<` obeys them.
    fn lemma_before_irreflexive(&self, _a: i64) {}

    fn lemma_before_transitive(&self, _a: i64, _b: i64, _c: i64) {}

    fn enter_distance(&self, b: &(i64, i64)) -> Option<i64> {
        if b.1 < self.origin { None } else { Some((b.0 - self.origin).max(0)) }
    }

    fn hit_primitive(&self, primitive: u32) -> Option<i64> {
        let (lo, hi) = self.segments.0[primitive as usize];
        if hi < self.origin { None } else { Some((lo - self.origin).max(0)) }
    }

    fn hit_distance(&self, hit: &i64) -> i64 {
        *hit
    }

    fn less(&self, a: &i64, b: &i64) -> bool {
        a < b
    }

    fn at_most(&self, a: &i64, b: &i64) -> bool {
        a <= b
    }

    fn unbounded(&self) -> i64 {
        i64::MAX
    }
}

fn scattered(n: usize) -> Segments {
    Segments((0..n).map(|i| {
        let lo = ((i * 37) % 101) as i64;
        (lo, lo + 1 + (i % 3) as i64)
    }).collect())
}

fn nearest(s: &Segments, origin: i64) -> Option<i64> {
    s.0.iter().filter(|(_, hi)| *hi >= origin).map(|(lo, _)| (lo - origin).max(0)).min()
}

#[test]
fn index_range_counts() {
    assert_eq!(IndexRange { start_index: 3, end_index: 10 }.primitive_count(), 7);
    assert_eq!(IndexRange { start_index: 5, end_index: 5 }.primitive_count(), 0);
}

#[test]
fn node_accessors() {
    let mut n = BvhNode { bounds: (1i64, 2i64), data0: 0, count: 0 };
    assert!(!n.is_leaf());
    n.set_data((3, 4), 7, 2);
    assert!(n.is_leaf());
    assert_eq!(n.aabb(), (3, 4));
    assert_eq!((n.data0, n.count), (7, 2));
}

#[test]
fn builder_order_is_a_permutation() {
    let s = scattered(50);
    let (nodes, order) = BvhBuilder::build(&s, 50);
    let mut sorted = order.clone();
    sorted.sort();
    assert_eq!(sorted, (0..50).collect::<Vec<u32>>());
    assert!(nodes.len() < 100);
    let covered: u32 = nodes.iter().filter(|n| n.count > 0).map(|n| n.count).sum();
    assert_eq!(covered, 50);
}

#[test]
fn builder_without_primitives_gives_one_empty_node() {
    let s = Segments(vec![]);
    let (nodes, order) = BvhBuilder::build(&s, 0);
    assert!(order.is_empty());
    assert_eq!(nodes.len(), 1);
    assert_eq!((nodes[0].count, nodes[0].data0), (0, 0));
}

#[test]
fn small_set_is_one_leaf() {
    let s = scattered(3);
    let (nodes, order) = BvhBuilder::build(&s, 3);
    assert_eq!(nodes.len(), 1);
    assert_eq!(nodes[0].count, 3);
    assert_eq!(order, vec![0, 1, 2]);
}

#[test]
fn traverse_finds_the_nearest_segment() {
    let s = scattered(64);
    let bvh = Bvh::build(&s, 64);
    for origin in [-5i64, 0, 10, 50, 99, 200] {
        let ray = Ray { segments: &s, origin };
        let got = bvh.traverse(&ray).map(|(t, _)| t);
        assert_eq!(got, nearest(&s, origin), "origin {}", origin);
    }
}

#[test]
fn traverse_reports_the_primitive_hit() {
    let s = Segments(vec![(50, 60), (10, 20), (30, 40)]);
    let bvh = Bvh::build(&s, 3);
    let ray = Ray { segments: &s, origin: 0 };
    assert_eq!(bvh.traverse(&ray), Some((10, 1)));
}

#[test]
fn empty_hierarchy_hits_nothing() {
    let s = Segments(vec![]);
    let bvh = Bvh::build(&s, 0);
    let ray = Ray { segments: &s, origin: 0 };
    assert!(bvh.traverse(&ray).is_none());
    assert!(!bvh.hit_any(&ray, i64::MAX));
}

#[test]
fn hit_any_respects_the_limit() {
    let s = scattered(40);
    let bvh = Bvh::build(&s, 40);
    let ray = Ray { segments: &s, origin: 20 };
    let d = nearest(&s, 20).unwrap();
    assert!(bvh.hit_any(&ray, d + 1));
    assert!(!bvh.hit_any(&ray, d));
    let past = Ray { segments: &s, origin: 1000 };
    assert!(!bvh.hit_any(&past, i64::MAX));
}

#[test]
fn children_pushed_far_first() {
    assert!(ordered_children(Some(true), Some(true), true) == (Some(Side::Right), Some(Side::Left)));
    assert!(ordered_children(Some(true), Some(true), false) == (Some(Side::Left), Some(Side::Right)));
    assert!(ordered_children(Some(true), Some(false), true) == (None, Some(Side::Left)));
    assert!(ordered_children(Some(false), Some(true), true) == (Some(Side::Right), None));
}

#[test]
fn children_missed_or_beyond_are_skipped() {
    assert!(ordered_children(None, None, false) == (None, None));
    assert!(ordered_children(Some(true), None, false) == (None, Some(Side::Left)));
    assert!(ordered_children(None, Some(true), true) == (None, Some(Side::Right)));
    assert!(ordered_children(Some(false), None, false) == (None, None));
    assert!(ordered_children(Some(false), Some(false), true) == (None, None));
}

#[test]
fn occlusion_pushes_left_then_right() {
    assert!(occluding_children(Some(true), Some(true)) == (Some(Side::Left), Some(Side::Right)));
    assert!(occluding_children(Some(false), Some(true)) == (None, Some(Side::Right)));
    assert!(occluding_children(None, Some(false)) == (None, None));
    assert!(occluding_children(Some(true), None) == (Some(Side::Left), None));
}

#[test]
fn node_boxes_bound_their_runs() {
    let s = scattered(40);
    let (nodes, order) = BvhBuilder::build(&s, 40);
    fn walk(s: &Segments, nodes: &[BvhNode<(i64, i64)>], order: &[u32], idx: usize, start: usize) -> usize {
        let n = &nodes[idx];
        let end = if n.count > 0 {
            start + n.count as usize
        } else {
            let mid = walk(s, nodes, order, idx + 1, start);
            walk(s, nodes, order, n.data0 as usize, mid)
        };
        assert_eq!(n.bounds, s.node_bounds(&order.to_vec(), start, end));
        end
    }
    assert_eq!(walk(&s, &nodes, &order, 0, 0), 40);
}

#[test]
fn large_runs_are_split_where_the_geometry_says() {
    let s = scattered(50);
    let (nodes, order) = BvhBuilder::build(&s, 50);
    assert_eq!(nodes[0].count, 0);
    let split = s.find_split(&(0..50).collect(), 0, 50, &nodes[0].bounds).unwrap();
    let boundary = order.iter().position(|&p| !s.goes_left(&split, p)).unwrap_or(50);
    assert!(order[..boundary].iter().all(|&p| s.goes_left(&split, p)));
    assert!(order[boundary..].iter().all(|&p| !s.goes_left(&split, p)));
}
