use vstd::prelude::*;

verus! {

/// A node of a flattened bounding volume hierarchy. A leaf (`count > 0`) holds the
/// primitives at positions `data0 .. data0 + count` of the hierarchy's primitive order;
/// an inner node (`count == 0`) has its left child right after it and its right child
/// at index `data0`.
#[derive(Clone, Copy)]
pub struct BvhNode<B> {
    pub bounds: B,
    pub data0: u32,
    pub count: u32,
}

impl<B: Copy> BvhNode<B> {
    /// Whether the node is a leaf.
    pub fn is_leaf(&self) -> (b: bool)
        ensures
            b == (self.count > 0),
    {
        self.count > 0
    }

    /// The node's bounding box.
    pub fn aabb(&self) -> (b: B)
        ensures
            b == self.bounds,
    {
        self.bounds
    }

    /// Sets the node's box, first index (or right child) and primitive count.
    pub fn set_data(&mut self, bbox: B, data0: u32, count: u32)
        ensures
            final(self).bounds == bbox,
            final(self).data0 == data0,
            final(self).count == count,
    {
        self.bounds = bbox;
        self.data0 = data0;
        self.count = count;
    }
}

} // verus!
