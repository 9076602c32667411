//! Tagged references, tree nodes and primitive records.
use vstd::prelude::*;

use crate::aabb::Aabb;

verus! {

/// Kind tag of a reference that points at another tree node.
pub const NODE: u32 = 0;

/// Kind tags of the six primitive kinds.
pub const SPHERE: u32 = 1;
pub const CUBE: u32 = 2;
pub const ELLIPSOID: u32 = 3;
pub const TORUS: u32 = 4;
pub const CYLINDER: u32 = 5;
pub const CONE: u32 = 6;

/// Number of primitive kinds.
pub const KIND_COUNT: u32 = 6;

/// A `(kind, index)` pair: kind `0` points at the tree node `index`; kind
/// `k` in `1..=6` points at slot `index` of the primitive array of kind `k`.
/// `(0, 0)` is the null reference.
#[derive(Clone, Copy, Debug, PartialEq, Eq, Structural)]
pub struct TaggedRef {
    pub kind: u32,
    pub index: u32,
}

impl TaggedRef {
    pub open spec fn spec_null() -> TaggedRef {
        TaggedRef { kind: NODE, index: 0 }
    }

    pub open spec fn spec_node(i: int) -> TaggedRef {
        TaggedRef { kind: NODE, index: i as u32 }
    }

    /// The null reference `(0, 0)`.
    pub fn null() -> (r: TaggedRef)
        ensures
            r == TaggedRef::spec_null(),
    {
        TaggedRef { kind: NODE, index: 0 }
    }

    /// A reference to tree node `i`.
    pub fn node(i: u32) -> (r: TaggedRef)
        ensures
            r == TaggedRef::spec_node(i as int),
    {
        TaggedRef { kind: NODE, index: i }
    }

    /// A reference to slot `index` of primitive kind `kind`.
    pub fn shape(kind: u32, index: u32) -> (r: TaggedRef)
        ensures
            r == (TaggedRef { kind, index }),
    {
        TaggedRef { kind, index }
    }

    /// Whether the kind tag names a primitive kind.
    pub open spec fn spec_is_shape(self) -> bool {
        1 <= self.kind <= KIND_COUNT
    }
}

/// One slot of the node pool.
///
/// A leaf has a primitive reference in `child1` and the null reference in
/// `child2`; an internal node has two node references.
#[derive(Clone, Copy, Debug, PartialEq, Eq, Structural)]
pub struct BvhNode {
    /// The slot this node occupies.
    pub self_index: u32,
    /// The slot of the parent node, `0` for the root.
    pub parent: u32,
    pub aabb: Aabb,
    pub child1: TaggedRef,
    pub child2: TaggedRef,
}

impl BvhNode {
    pub open spec fn sentinel_spec() -> BvhNode {
        BvhNode {
            self_index: 0,
            parent: 0,
            aabb: Aabb::spec_empty(),
            child1: TaggedRef::spec_null(),
            child2: TaggedRef::spec_null(),
        }
    }

    /// The unused node that fills the reserved slot `0`.
    pub fn sentinel() -> (r: BvhNode)
        ensures
            r == BvhNode::sentinel_spec(),
    {
        BvhNode {
            self_index: 0,
            parent: 0,
            aabb: Aabb::empty(),
            child1: TaggedRef::null(),
            child2: TaggedRef::null(),
        }
    }

    pub open spec fn spec_is_leaf(self) -> bool {
        self.child1.kind != NODE
    }
}

/// One primitive of the store: its geometry, the leaf that holds it (or the
/// null reference before it is inserted), and its own slot.
#[derive(Debug)]
pub struct PrimitiveRecord<G> {
    pub geometry: G,
    pub parent_idx: TaggedRef,
    pub slot_index: u32,
}

} // verus!
