//! The hierarchy: a node pool with a reserved null slot, a root index and a
//! live-node counter, together with one primitive array per kind.
use vstd::prelude::*;

use crate::aabb::{Aabb, aabb_union, aabb_area, union_spec, area_spec};
use crate::node::{TaggedRef, BvhNode, PrimitiveRecord, NODE, KIND_COUNT};

verus! {

/// Why an operation on the hierarchy was refused.
#[derive(Clone, Copy, Debug, PartialEq, Eq, Structural)]
pub enum BvhError {
    /// The reference names no primitive kind, or no slot of its kind.
    InvalidShape,
    /// The primitive already has a leaf.
    AlreadyInserted,
    /// The primitive has no leaf.
    NotInserted,
    /// An index would no longer fit in `u32`.
    CapacityExceeded,
}

/// Default number of pool slots scanned for a local rotation.
pub const DEFAULT_WINDOW: u32 = 4;

/// A bounding-volume hierarchy over primitives of six kinds, each primitive
/// carrying a payload `G` that the hierarchy never reads.
pub struct Bvh<G> {
    nodes: Vec<BvhNode>,
    root_index: u32,
    node_count: u32,
    shapes: Vec<Vec<PrimitiveRecord<G>>>,
    window: u32,
    /// A rank that grows strictly from each node to its children.
    depth: Ghost<Seq<nat>>,
    /// An upper bound on every rank.
    depth_bound: Ghost<nat>,
}

impl<G> Bvh<G> {
    /// The node pool, slot `0` included.
    pub closed spec fn pool(&self) -> Seq<BvhNode> {
        self.nodes@
    }

    /// The root slot, `0` when the tree is empty.
    pub closed spec fn root(&self) -> int {
        self.root_index as int
    }

    /// The number of live nodes.
    pub closed spec fn count(&self) -> int {
        self.node_count as int
    }

    /// The primitive arrays, one per kind.
    pub closed spec fn store(&self) -> Seq<Vec<PrimitiveRecord<G>>> {
        self.shapes@
    }

    /// The number of primitive arrays (one per kind).
    pub closed spec fn kinds(&self) -> int {
        self.shapes@.len() as int
    }

    /// The primitive array of kind tag `k + 1`.
    pub closed spec fn records(&self, k: int) -> Seq<PrimitiveRecord<G>> {
        self.shapes@[k]@
    }

    /// How many pool slots a local rotation scans.
    pub closed spec fn window_size(&self) -> int {
        self.window as int
    }

    pub closed spec fn depths(&self) -> Seq<nat> {
        self.depth@
    }

    pub closed spec fn bound(&self) -> nat {
        self.depth_bound@
    }

    /// Slot `i` is in use (slot `0` never is).
    pub open spec fn live(&self, i: int) -> bool {
        1 <= i < self.pool().len()
    }

    /// Slot `i` is in use and not among the slots `dead` about to be freed.
    pub open spec fn alive(&self, dead: Set<int>, i: int) -> bool {
        self.live(i) && !dead.contains(i)
    }

    /// `r` names an existing primitive.
    pub open spec fn valid_shape(&self, r: TaggedRef) -> bool {
        &&& r.spec_is_shape()
        &&& self.kinds() == KIND_COUNT
        &&& r.index < self.records(r.kind - 1).len()
    }

    pub open spec fn record_of(&self, r: TaggedRef) -> PrimitiveRecord<G> {
        self.records(r.kind - 1)[r.index as int]
    }

    /// The primitive `r` has a leaf in the tree.
    pub open spec fn is_inserted(&self, r: TaggedRef) -> bool {
        self.valid_shape(r) && self.record_of(r).parent_idx != TaggedRef::spec_null()
    }

    /// The box of the leaf of each inserted primitive.
    pub open spec fn leaf_boxes(&self) -> Map<TaggedRef, Aabb> {
        Map::new(
            |r: TaggedRef| self.is_inserted(r),
            |r: TaggedRef| self.pool()[self.record_of(r).parent_idx.index as int].aabb,
        )
    }

    /// Node `i` is a well-formed leaf or internal node whose children point
    /// back at it.
    pub open spec fn node_ok(&self, dead: Set<int>, i: int) -> bool {
        let nd = self.pool()[i];
        &&& nd.self_index == i
        &&& if nd.child1.kind != NODE {
            &&& self.valid_shape(nd.child1)
            &&& self.record_of(nd.child1).parent_idx == TaggedRef::spec_node(i)
            &&& nd.child2 == TaggedRef::spec_null()
        } else {
            &&& nd.child2.kind == NODE
            &&& self.alive(dead, nd.child1.index as int)
            &&& self.alive(dead, nd.child2.index as int)
            &&& nd.child1.index != nd.child2.index
            &&& self.pool()[nd.child1.index as int].parent == i
            &&& self.pool()[nd.child2.index as int].parent == i
        }
    }

    /// Node `i` is the root with the null parent, or its parent is an
    /// internal node that has it as a child and ranks below it.
    pub open spec fn parent_ok(&self, dead: Set<int>, i: int) -> bool {
        let p = self.pool()[i].parent as int;
        if i == self.root() {
            p == 0
        } else {
            &&& self.alive(dead, p)
            &&& self.pool()[p].child1.kind == NODE
            &&& (self.pool()[p].child1.index == i || self.pool()[p].child2.index == i)
            &&& self.depths()[p] < self.depths()[i]
        }
    }

    /// Primitive slot `j` of kind tag `k + 1` knows its slot, and is either
    /// not inserted or names a leaf that names it back.
    pub open spec fn record_ok(&self, dead: Set<int>, k: int, j: int) -> bool {
        let rec = self.records(k)[j];
        let leaf = rec.parent_idx.index as int;
        &&& rec.slot_index == j
        &&& rec.parent_idx == TaggedRef::spec_null() || {
            &&& rec.parent_idx.kind == NODE
            &&& self.alive(dead, leaf)
            &&& self.pool()[leaf].child1 == (TaggedRef { kind: (k + 1) as u32, index: j as u32 })
        }
    }

    /// An internal node's box is the union of its children's boxes.
    pub open spec fn box_ok(&self, i: int) -> bool {
        let nd = self.pool()[i];
        nd.child1.kind != NODE || nd.aabb == union_spec(
            self.pool()[nd.child1.index as int].aabb,
            self.pool()[nd.child2.index as int].aabb,
        )
    }

    /// The structure of the tree over the slots not in `dead`.
    pub open spec fn shape_ok(&self, dead: Set<int>) -> bool {
        let n = self.pool().len();
        &&& 1 <= n <= u32::MAX
        &&& self.pool()[0] == BvhNode::sentinel_spec()
        &&& self.depths().len() == n
        &&& forall|i: int| 0 <= i < n ==> #[trigger] self.depths()[i] <= self.bound()
        &&& forall|d: int| dead.contains(d) ==> self.live(d)
        &&& self.kinds() == KIND_COUNT
        &&& forall|k: int| 0 <= k < KIND_COUNT ==> #[trigger] self.records(k).len() < u32::MAX
        &&& self.root() == 0 ==> forall|i: int| !#[trigger] self.alive(dead, i)
        &&& self.root() != 0 ==> self.alive(dead, self.root())
        &&& forall|i: int| self.alive(dead, i) ==> #[trigger] self.node_ok(dead, i)
        &&& forall|i: int| self.alive(dead, i) ==> #[trigger] self.parent_ok(dead, i)
        &&& forall|k: int, j: int|
            0 <= k < KIND_COUNT && 0 <= j < self.records(k).len() ==> #[trigger] self.record_ok(
                dead,
                k,
                j,
            )
    }

    /// Every internal node outside `dead` and `stale` has the union box.
    pub open spec fn boxes_ok(&self, dead: Set<int>, stale: Set<int>) -> bool {
        forall|i: int| self.alive(dead, i) && !stale.contains(i) ==> #[trigger] self.box_ok(i)
    }

    /// The full invariant of a quiescent hierarchy.
    pub open spec fn wf(&self) -> bool {
        &&& self.shape_ok(Set::empty())
        &&& self.boxes_ok(Set::empty(), Set::empty())
        &&& self.count() == self.pool().len() - 1
    }

    /// An empty hierarchy whose local rotation scans `window` slots.
    pub fn with_window(window: u32) -> (r: Bvh<G>)
        ensures
            r.wf(),
            r.count() == 0,
            r.root() == 0,
            r.pool() == seq![BvhNode::sentinel_spec()],
            r.window_size() == window,
            forall|k: int| 0 <= k < KIND_COUNT ==> #[trigger] r.records(k).len() == 0,
    {
        let mut shapes: Vec<Vec<PrimitiveRecord<G>>> = Vec::new();
        let mut k: u32 = 0;
        while k < KIND_COUNT
            invariant
                k <= KIND_COUNT,
                shapes@.len() == k,
                forall|i: int| 0 <= i < k ==> #[trigger] shapes@[i]@.len() == 0,
            decreases KIND_COUNT - k,
        {
            shapes.push(Vec::new());
            k = k + 1;
        }
        let mut nodes: Vec<BvhNode> = Vec::new();
        nodes.push(BvhNode::sentinel());
        let ghost d = seq![0nat];
        let r = Bvh {
            nodes,
            root_index: 0,
            node_count: 0,
            shapes,
            window,
            depth: Ghost(d),
            depth_bound: Ghost(0nat),
        };
        assert(r.pool() =~= seq![BvhNode::sentinel_spec()]);
        r
    }

    /// An empty hierarchy with the default rotation window.
    pub fn new() -> (r: Bvh<G>)
        ensures
            r.wf(),
            r.count() == 0,
            r.root() == 0,
            r.pool() == seq![BvhNode::sentinel_spec()],
            r.window_size() == DEFAULT_WINDOW,
            forall|k: int| 0 <= k < KIND_COUNT ==> #[trigger] r.records(k).len() == 0,
    {
        Bvh::with_window(DEFAULT_WINDOW)
    }

    /// The tree and every primitive array but that of kind tag `k + 1` are
    /// the same in `self` and `other`.
    pub open spec fn same_but_records(&self, other: &Bvh<G>, k: int) -> bool {
        &&& self.pool() == other.pool()
        &&& self.root() == other.root()
        &&& self.count() == other.count()
        &&& self.window_size() == other.window_size()
        &&& self.kinds() == other.kinds()
        &&& forall|k2: int| 0 <= k2 < self.kinds() && k2 != k ==> #[trigger] self.records(k2) == other.records(k2)
    }

    /// Appends a primitive of kind tag `kind` to its array, not yet in the
    /// tree, and returns its slot.
    pub fn push_primitive(&mut self, kind: u32, geometry: G) -> (r: Result<u32, BvhError>)
        requires
            old(self).wf(),
        ensures
            final(self).wf(),
            r == Err::<u32, BvhError>(BvhError::InvalidShape) <==> !(1 <= kind <= KIND_COUNT),
            r.is_ok() <==> 1 <= kind <= KIND_COUNT && old(self).records(kind - 1).len() + 1 < u32::MAX,
            r == Err::<u32, BvhError>(BvhError::CapacityExceeded) <==> 1 <= kind <= KIND_COUNT
                && old(self).records(kind - 1).len() + 1 >= u32::MAX,
            r.is_err() ==> *final(self) == *old(self),
            r matches Ok(j) ==> {
                &&& j == old(self).records(kind - 1).len()
                &&& final(self).records(kind - 1) == old(self).records(kind - 1).push(
                    PrimitiveRecord { geometry, parent_idx: TaggedRef::spec_null(), slot_index: j },
                )
                &&& final(self).same_but_records(old(self), kind - 1)
                &&& final(self).leaf_boxes() == old(self).leaf_boxes()
            },
    {
        if kind < 1 || kind > KIND_COUNT {
            return Err(BvhError::InvalidShape);
        }
        let k = (kind - 1) as usize;
        let len = self.shapes[k].len();
        if len >= (u32::MAX - 1) as usize {
            return Err(BvhError::CapacityExceeded);
        }
        let rec = PrimitiveRecord { geometry, parent_idx: TaggedRef::null(), slot_index: len as u32 };
        self.shapes[k].push(rec);
        proof {
            let o = old(self);
            assert forall|k2: int, j: int|
                0 <= k2 < KIND_COUNT && 0 <= j < self.records(k2).len() implies #[trigger] self.record_ok(Set::empty(), k2, j) by {
                if k2 != k || j != len {
                    assert(o.record_ok(Set::empty(), k2, j));
                }
            }
            assert forall|i: int| self.alive(Set::empty(), i) implies #[trigger] self.node_ok(Set::empty(), i) by {
                assert(o.node_ok(Set::empty(), i));
                let c = self.pool()[i].child1;
                if c.kind != NODE {
                    assert(self.record_of(c) == o.record_of(c));
                }
            }
            assert forall|i: int| self.alive(Set::empty(), i) implies #[trigger] self.parent_ok(Set::empty(), i) by {
                assert(o.parent_ok(Set::empty(), i));
            }
            assert forall|i: int| self.alive(Set::empty(), i) && !Set::<int>::empty().contains(i) implies #[trigger] self.box_ok(i) by {
                assert(o.box_ok(i));
            }
            assert forall|r: TaggedRef| #[trigger] self.is_inserted(r) == o.is_inserted(r) by {
                if r.spec_is_shape() && r.kind - 1 != k {
                    assert(self.records(r.kind - 1) == o.records(r.kind - 1));
                }
            }
            assert forall|k2: int| 0 <= k2 < KIND_COUNT implies #[trigger] self.records(k2).len() < u32::MAX by {
                assert(o.records(k2).len() < u32::MAX);
            }
            assert(self.pool() == o.pool());
            assert(self.depths() == o.depths());
            assert(self.kinds() == KIND_COUNT);
            assert(self.root() == o.root());
            if self.root() == 0 {
                assert forall|i: int| !#[trigger] self.alive(Set::empty(), i) by {
                    assert(!o.alive(Set::empty(), i));
                }
            }
            assert(self.shape_ok(Set::empty()));
            assert(self.leaf_boxes() =~= o.leaf_boxes());
        }
        Ok(len as u32)
    }

    /// `self` and `other` link the same nodes in the same way and hold the
    /// same primitives; only node boxes may differ.
    pub open spec fn same_topology(&self, other: &Bvh<G>) -> bool {
        &&& self.pool().len() == other.pool().len()
        &&& forall|i: int|
            #![trigger self.pool()[i]]
            0 <= i < self.pool().len() ==> {
                &&& self.pool()[i].self_index == other.pool()[i].self_index
                &&& self.pool()[i].parent == other.pool()[i].parent
                &&& self.pool()[i].child1 == other.pool()[i].child1
                &&& self.pool()[i].child2 == other.pool()[i].child2
            }
        &&& self.pool().len() > 0 ==> self.pool()[0] == other.pool()[0]
        &&& self.root() == other.root()
        &&& self.count() == other.count()
        &&& self.window_size() == other.window_size()
        &&& self.depths() == other.depths()
        &&& self.bound() == other.bound()
        &&& self.store() == other.store()
    }

    proof fn lemma_same_topology(a: &Bvh<G>, b: &Bvh<G>, dead: Set<int>)
        requires
            a.same_topology(b),
            a.shape_ok(dead),
        ensures
            b.shape_ok(dead),
    {
        assert forall|k: int| 0 <= k < KIND_COUNT implies #[trigger] b.records(k).len() < u32::MAX by {
            assert(a.records(k).len() < u32::MAX);
        }
        if b.root() == 0 {
            assert forall|i: int| !#[trigger] b.alive(dead, i) by {
                assert(!a.alive(dead, i));
            }
        }
        assert forall|i: int| b.alive(dead, i) implies #[trigger] b.node_ok(dead, i) by {
            assert(a.node_ok(dead, i));
            let c = a.pool()[i];
            assert(b.pool()[i] == b.pool()[i]);
            if c.child1.kind == NODE {
                assert(b.pool()[c.child1.index as int] == b.pool()[c.child1.index as int]);
                assert(b.pool()[c.child2.index as int] == b.pool()[c.child2.index as int]);
            }
        }
        assert forall|i: int| b.alive(dead, i) implies #[trigger] b.parent_ok(dead, i) by {
            assert(a.parent_ok(dead, i));
            assert(b.pool()[i] == b.pool()[i]);
            let p = a.pool()[i].parent as int;
            if i != a.root() {
                assert(b.pool()[p] == b.pool()[p]);
            }
        }
        assert forall|k: int, j: int|
            0 <= k < KIND_COUNT && 0 <= j < b.records(k).len() implies #[trigger] b.record_ok(dead, k, j) by {
            assert(a.record_ok(dead, k, j));
            let leaf = a.records(k)[j].parent_idx.index as int;
            if 0 <= leaf < a.pool().len() {
                assert(b.pool()[leaf] == b.pool()[leaf]);
            }
        }
    }

    /// The greedy descent from `cur` towards the cheapest place for a box
    /// `b`: at an internal node it enters the child whose union with `b` has
    /// the smaller surface area (the first child on a tie), and it stops at
    /// a leaf.
    pub open spec fn descend(&self, cur: int, b: Aabb) -> int
        decreases self.bound() - self.depths()[cur],
    {
        let nd = self.pool()[cur];
        let c1 = nd.child1.index as int;
        let c2 = nd.child2.index as int;
        if nd.child1.kind == NODE && nd.child2.kind == NODE && 0 <= c1 < self.pool().len() && 0 <= c2
            < self.pool().len() && 0 <= cur < self.depths().len() && self.depths().len()
            == self.pool().len() && self.depths()[cur] < self.depths()[c1] <= self.bound()
            && self.depths()[cur] < self.depths()[c2] <= self.bound() {
            if area_spec(union_spec(self.pool()[c1].aabb, b)) <= area_spec(
                union_spec(self.pool()[c2].aabb, b),
            ) {
                self.descend(c1, b)
            } else {
                self.descend(c2, b)
            }
        } else {
            cur
        }
    }

    /// The leaf where a box `b` is best inserted: the greedy descent from
    /// the root.
    fn pick_best(&self, b: Aabb) -> (r: u32)
        requires
            self.wf(),
            self.root() != 0,
        ensures
            r == self.descend(self.root(), b),
            self.live(r as int),
            self.pool()[r as int].child1.kind != NODE,
    {
        let mut cur = self.root_index;
        loop
            invariant
                self.wf(),
                self.live(cur as int),
                self.descend(cur as int, b) == self.descend(self.root(), b),
            decreases self.bound() - self.depths()[cur as int],
        {
            let nd = self.nodes[cur as usize];
            proof {
                assert(self.node_ok(Set::empty(), cur as int));
            }
            if nd.child1.kind == NODE && nd.child2.kind == NODE {
                let c1 = nd.child1.index;
                let c2 = nd.child2.index;
                proof {
                    assert(self.parent_ok(Set::empty(), c1 as int));
                    assert(self.parent_ok(Set::empty(), c2 as int));
                    assert(self.depths()[c1 as int] <= self.bound());
                    assert(self.depths()[c2 as int] <= self.bound());
                }
                let cost1 = aabb_area(aabb_union(self.nodes[c1 as usize].aabb, b));
                let cost2 = aabb_area(aabb_union(self.nodes[c2 as usize].aabb, b));
                if cost1 <= cost2 {
                    cur = c1;
                } else {
                    cur = c2;
                }
            } else {
                return cur;
            }
        }
    }

    /// Sets the box of node `i`, leaving everything else as it was.
    fn set_box(&mut self, i: u32, b: Aabb)
        requires
            1 <= i < old(self).pool().len(),
        ensures
            final(self).pool() == old(self).pool().update(i as int, BvhNode { aabb: b, ..old(self).pool()[i as int] }),
            final(self).same_topology(old(self)),
    {
        self.nodes[i as usize].aabb = b;
        proof {
            assert forall|j: int| #![trigger self.pool()[j]] 0 <= j < self.pool().len() implies {
                &&& self.pool()[j].self_index == old(self).pool()[j].self_index
                &&& self.pool()[j].parent == old(self).pool()[j].parent
                &&& self.pool()[j].child1 == old(self).pool()[j].child1
                &&& self.pool()[j].child2 == old(self).pool()[j].child2
            } by {}
        }
    }

    /// Recomputes the boxes on the path from the internal node `start` up to
    /// the root; on entry only `start`, its parent and `pending` may hold a
    /// stale box, on exit only `pending` may.
    fn refit_path(&mut self, start: u32, pending: Ghost<int>)
        requires
            old(self).shape_ok(Set::empty()),
            old(self).live(start as int),
            old(self).pool()[start as int].child1.kind == NODE,
            old(self).boxes_ok(
                Set::empty(),
                set![start as int, old(self).pool()[start as int].parent as int, pending@],
            ),
        ensures
            final(self).shape_ok(Set::empty()),
            final(self).boxes_ok(Set::empty(), set![pending@]),
            final(self).same_topology(old(self)),
            forall|i: int|
                0 <= i < old(self).pool().len() && old(self).pool()[i].child1.kind != NODE
                    ==> #[trigger] final(self).pool()[i] == old(self).pool()[i],
            forall|i: int|
                0 <= i < old(self).pool().len() && !old(self).is_ancestor(i, start as int) ==> #[trigger] final(self).pool()[i]
                    == old(self).pool()[i],
    {
        let mut cur = start;
        loop
            invariant
                self.shape_ok(Set::empty()),
                old(self).shape_ok(Set::empty()),
                old(self).live(start as int),
                old(self).is_ancestor(cur as int, start as int),
                forall|i: int|
                    0 <= i < old(self).pool().len() && !old(self).is_ancestor(i, start as int) ==> #[trigger] self.pool()[i]
                        == old(self).pool()[i],
                self.same_topology(old(self)),
                self.live(cur as int),
                self.pool()[cur as int].child1.kind == NODE,
                self.boxes_ok(Set::empty(), set![cur as int, self.pool()[cur as int].parent as int, pending@]),
                forall|i: int|
                    0 <= i < old(self).pool().len() && old(self).pool()[i].child1.kind != NODE
                        ==> #[trigger] self.pool()[i] == old(self).pool()[i],
            decreases self.depths()[cur as int],
        {
            let nd = self.nodes[cur as usize];
            proof {
                assert(self.node_ok(Set::empty(), cur as int));
            }
            let b = aabb_union(self.nodes[nd.child1.index as usize].aabb, self.nodes[nd.child2.index as usize].aabb);
            let ghost before = *self;
            self.set_box(cur, b);
            proof {
                Self::lemma_same_topology(&before, self, Set::empty());
                let p = nd.parent as int;
                assert forall|i: int| self.alive(Set::empty(), i) && !set![p, pending@].contains(i) implies #[trigger] self.box_ok(i) by {
                    if i != cur as int {
                        assert(before.box_ok(i));
                        assert(before.node_ok(Set::empty(), i));
                        let c = before.pool()[i];
                        if c.child1.kind == NODE {
                            assert(before.parent_ok(Set::empty(), c.child1.index as int));
                            assert(before.parent_ok(Set::empty(), c.child2.index as int));
                        }
                    }
                }
            }
            if nd.parent == 0 {
                proof {
                    assert forall|i: int| self.alive(Set::empty(), i) && !set![pending@].contains(i) implies #[trigger] self.box_ok(i) by {
                        assert(!set![nd.parent as int, pending@].contains(i));
                    }
                }
                return;
            }
            proof {
                assert(self.parent_ok(Set::empty(), cur as int));
                assert(old(self).pool()[cur as int].parent == nd.parent);
                assert(cur as int != old(self).root());
                old(self).lemma_ancestor_parent(cur as int, start as int);
            }
            cur = nd.parent;
        }
    }

    /// Node `a` is `x` or lies on the path from `x` up to the root.
    pub open spec fn is_ancestor(&self, a: int, x: int) -> bool
        decreases self.depths()[x],
    {
        if x == a {
            true
        } else if 0 <= x < self.pool().len() && self.depths().len() == self.pool().len() && x != self.root()
            && 0 < self.pool()[x].parent < self.pool().len() && self.depths()[self.pool()[x].parent as int]
            < self.depths()[x] {
            self.is_ancestor(a, self.pool()[x].parent as int)
        } else {
            false
        }
    }

    proof fn lemma_ancestor_unfold(&self, a: int, x: int)
        requires
            self.shape_ok(Set::empty()),
            self.alive(Set::empty(), x),
            x != self.root(),
            x != a,
        ensures
            self.is_ancestor(a, x) == self.is_ancestor(a, self.pool()[x].parent as int),
    {
        assert(self.parent_ok(Set::empty(), x));
    }

    proof fn lemma_ancestor_depth(&self, a: int, x: int)
        requires
            self.shape_ok(Set::empty()),
            self.is_ancestor(a, x),
        ensures
            self.depths()[a] <= self.depths()[x],
        decreases self.depths()[x],
    {
        if x != a {
            self.lemma_ancestor_depth(a, self.pool()[x].parent as int);
        }
    }

    proof fn lemma_ancestor_parent(&self, c: int, x: int)
        requires
            self.shape_ok(Set::empty()),
            self.alive(Set::empty(), x),
            self.alive(Set::empty(), c),
            c != self.root(),
            self.is_ancestor(c, x),
        ensures
            self.is_ancestor(self.pool()[c].parent as int, x),
        decreases self.depths()[x],
    {
        let p = self.pool()[c].parent as int;
        assert(self.parent_ok(Set::empty(), c));
        if x == c {
            self.lemma_ancestor_unfold(p, x);
        } else if x != p {
            self.lemma_ancestor_unfold(c, x);
            self.lemma_ancestor_unfold(p, x);
            assert(self.parent_ok(Set::empty(), x));
            self.lemma_ancestor_parent(c, self.pool()[x].parent as int);
        }
    }

    proof fn lemma_ancestor_same_topology(a: &Bvh<G>, b: &Bvh<G>, c: int, x: int)
        requires
            a.same_topology(b),
        ensures
            a.is_ancestor(c, x) == b.is_ancestor(c, x),
        decreases a.depths()[x],
    {
        if x != c && 0 <= x < a.pool().len() {
            assert(a.pool()[x] == a.pool()[x]);
            let p = a.pool()[x].parent as int;
            if 0 < p < a.pool().len() && a.depths()[p] < a.depths()[x] {
                Self::lemma_ancestor_same_topology(a, b, c, p);
            }
        }
    }

    /// Whether node `a` is `x` or an ancestor of `x`.
    fn ancestor_check(&self, a: u32, x: u32) -> (r: bool)
        requires
            self.shape_ok(Set::empty()),
            self.live(x as int),
        ensures
            r == self.is_ancestor(a as int, x as int),
    {
        let mut cur = x;
        loop
            invariant
                self.shape_ok(Set::empty()),
                self.live(cur as int),
                self.is_ancestor(a as int, cur as int) == self.is_ancestor(a as int, x as int),
            decreases self.depths()[cur as int],
        {
            if cur == a {
                return true;
            }
            let p = self.nodes[cur as usize].parent;
            proof {
                assert(self.parent_ok(Set::empty(), cur as int));
            }
            if p == 0 {
                return false;
            }
            proof {
                self.lemma_ancestor_unfold(a as int, cur as int);
            }
            cur = p;
        }
    }

    /// The ranks after the subtrees under `v` and `i` trade places: each
    /// subtree is shifted down just enough to sit below its new parent.
    pub open spec fn traded_depths(&self, v: int, i: int) -> Seq<nat> {
        let d = self.depths();
        let pv = self.pool()[v].parent as int;
        let pi = self.pool()[i].parent as int;
        let sv: nat = if d[pi] + 1 > d[v] { (d[pi] + 1 - d[v]) as nat } else { 0 };
        let si: nat = if d[pv] + 1 > d[i] { (d[pv] + 1 - d[i]) as nat } else { 0 };
        Seq::new(
            d.len(),
            |x: int|
                if self.is_ancestor(v, x) {
                    d[x] + sv
                } else if self.is_ancestor(i, x) {
                    d[x] + si
                } else {
                    d[x]
                },
        )
    }

    /// `s` is `o` after the internal nodes `v` and `i`, neither an ancestor
    /// of the other, traded places: each now hangs where the other hung.
    pub open spec fn traded(o: &Bvh<G>, s: &Bvh<G>, v: int, i: int) -> bool {
        let pv = o.pool()[v].parent as int;
        let pi = o.pool()[i].parent as int;
        let rv = TaggedRef::spec_node(v);
        let ri = TaggedRef::spec_node(i);
        let nv = o.pool()[pv];
        let ni = o.pool()[pi];
        &&& s.pool().len() == o.pool().len()
        &&& s.pool()[v] == BvhNode { parent: pi as u32, ..o.pool()[v] }
        &&& s.pool()[i] == BvhNode { parent: pv as u32, ..o.pool()[i] }
        &&& pv == pi ==> s.pool()[pv] == BvhNode { child1: nv.child2, child2: nv.child1, ..nv }
        &&& pv != pi ==> s.pool()[pv] == if nv.child1 == rv {
            BvhNode { child1: ri, ..nv }
        } else {
            BvhNode { child2: ri, ..nv }
        }
        &&& pv != pi ==> s.pool()[pi] == if ni.child1 == ri {
            BvhNode { child1: rv, ..ni }
        } else {
            BvhNode { child2: rv, ..ni }
        }
        &&& forall|x: int|
            0 <= x < o.pool().len() && x != v && x != i && x != pv && x != pi ==> #[trigger] s.pool()[x]
                == o.pool()[x]
        &&& s.root() == o.root()
        &&& s.count() == o.count()
        &&& s.window_size() == o.window_size()
        &&& s.store() == o.store()
        &&& s.depths() == o.traded_depths(v, i)
        &&& s.bound() == o.bound() + o.bound() + o.bound() + 2
    }

    proof fn lemma_traded(o: &Bvh<G>, s: &Bvh<G>, v: int, i: int)
        requires
            o.shape_ok(Set::empty()),
            o.boxes_ok(Set::empty(), set![o.pool()[v].parent as int]),
            o.alive(Set::empty(), v),
            o.alive(Set::empty(), i),
            v != o.root(),
            i != o.root(),
            v != i,
            o.pool()[v].child1.kind == NODE,
            o.pool()[i].child1.kind == NODE,
            !o.is_ancestor(v, i),
            !o.is_ancestor(i, v),
            Self::traded(o, s, v, i),
        ensures
            s.shape_ok(Set::empty()),
            s.boxes_ok(Set::empty(), set![o.pool()[v].parent as int, o.pool()[i].parent as int]),
            forall|x: int|
                0 <= x < o.pool().len() ==> (#[trigger] s.pool()[x]).child1.kind == o.pool()[x].child1.kind
                    && s.pool()[x].aabb == o.pool()[x].aabb,
            forall|x: int|
                0 <= x < o.pool().len() && o.pool()[x].child1.kind != NODE ==> #[trigger] s.pool()[x]
                    == o.pool()[x],
            s.depths()[o.pool()[v].parent as int] == o.depths()[o.pool()[v].parent as int],
    {
        let e = Set::<int>::empty();
        let d = o.depths();
        let pv = o.pool()[v].parent as int;
        let pi = o.pool()[i].parent as int;
        assert(o.parent_ok(e, v));
        assert(o.parent_ok(e, i));
        assert(o.node_ok(e, v));
        assert(o.node_ok(e, i));
        assert(o.node_ok(e, pv));
        assert(o.node_ok(e, pi));
        o.lemma_ancestor_unfold(v, i);
        o.lemma_ancestor_unfold(i, v);
        assert(!o.is_ancestor(v, pi));
        assert(!o.is_ancestor(i, pv));
        if o.is_ancestor(i, pi) {
            o.lemma_ancestor_depth(i, pi);
        }
        if o.is_ancestor(v, pv) {
            o.lemma_ancestor_depth(v, pv);
        }
        assert(o.is_ancestor(v, v));
        assert(o.is_ancestor(i, i));
        assert(pv != i && pi != v);
        let sv: nat = if d[pi] + 1 > d[v] { (d[pi] + 1 - d[v]) as nat } else { 0 };
        let si: nat = if d[pv] + 1 > d[i] { (d[pv] + 1 - d[i]) as nat } else { 0 };
        assert(s.depths()[v] == d[v] + sv);
        assert(s.depths()[i] == d[i] + si);
        assert(s.depths()[pv] == d[pv]);
        assert(s.depths()[pi] == d[pi]);
        // the children of v and i keep their parent
        let v1 = o.pool()[v].child1.index as int;
        let v2 = o.pool()[v].child2.index as int;
        let i1 = o.pool()[i].child1.index as int;
        let i2 = o.pool()[i].child2.index as int;
        assert(o.parent_ok(e, v1));
        assert(o.parent_ok(e, v2));
        assert(o.parent_ok(e, i1));
        assert(o.parent_ok(e, i2));
        o.lemma_ancestor_unfold(v, i1);
        o.lemma_ancestor_unfold(v, i2);
        o.lemma_ancestor_unfold(i, v1);
        o.lemma_ancestor_unfold(i, v2);
        assert(v1 != i && v2 != i && i1 != v && i2 != v);
        assert(v1 != pi && v2 != pi) by {
            if v1 == pi || v2 == pi {
                o.lemma_ancestor_unfold(v, pi);
            }
        }
        assert(i1 != pv && i2 != pv) by {
            if i1 == pv || i2 == pv {
                o.lemma_ancestor_unfold(i, pv);
            }
        }
        assert forall|k2: int| 0 <= k2 < KIND_COUNT implies #[trigger] s.records(k2).len() < u32::MAX by {
            assert(o.records(k2).len() < u32::MAX);
        }
        assert forall|x: int| 0 <= x < s.pool().len() implies #[trigger] s.depths()[x] <= s.bound() by {
            assert(d[x] <= o.bound());
            assert(d[pi] <= o.bound());
            assert(d[pv] <= o.bound());
        }
        assert(s.root() != 0 ==> s.alive(e, s.root()));
        if s.root() == 0 {
            assert forall|x: int| !#[trigger] s.alive(e, x) by {
                assert(!o.alive(e, x));
            }
        }
        assert forall|x: int| s.alive(e, x) implies #[trigger] s.node_ok(e, x) by {
            assert(o.node_ok(e, x));
            let nd = o.pool()[x];
            if nd.child1.kind == NODE {
                assert(o.parent_ok(e, nd.child1.index as int));
                assert(o.parent_ok(e, nd.child2.index as int));
            }
        }
        assert forall|x: int| s.alive(e, x) implies #[trigger] s.parent_ok(e, x) by {
            assert(o.parent_ok(e, x));
            if x != v && x != i && x != o.root() {
                let q = o.pool()[x].parent as int;
                assert(o.node_ok(e, q));
                o.lemma_ancestor_unfold(v, x);
                o.lemma_ancestor_unfold(i, x);
            }
        }
        assert forall|k2: int, j2: int|
            0 <= k2 < KIND_COUNT && 0 <= j2 < s.records(k2).len() implies #[trigger] s.record_ok(e, k2, j2) by {
            assert(o.record_ok(e, k2, j2));
            let lk = o.records(k2)[j2].parent_idx;
            if lk != TaggedRef::spec_null() {
                assert(o.node_ok(e, lk.index as int));
            }
        }
        assert(s.shape_ok(e));
        assert forall|x: int| s.alive(e, x) && !set![pv, pi].contains(x) implies #[trigger] s.box_ok(x) by {
            assert(o.box_ok(x));
            assert(o.node_ok(e, x));
        }
    }

    /// Makes the internal nodes `v` and `i` trade places in the tree.
    fn trade(&mut self, v: u32, i: u32)
        requires
            old(self).shape_ok(Set::empty()),
            old(self).boxes_ok(Set::empty(), set![old(self).pool()[v as int].parent as int]),
            old(self).alive(Set::empty(), v as int),
            old(self).alive(Set::empty(), i as int),
            v != old(self).root(),
            i != old(self).root(),
            v != i,
            old(self).pool()[v as int].child1.kind == NODE,
            old(self).pool()[i as int].child1.kind == NODE,
            !old(self).is_ancestor(v as int, i as int),
            !old(self).is_ancestor(i as int, v as int),
        ensures
            final(self).shape_ok(Set::empty()),
            final(self).boxes_ok(
                Set::empty(),
                set![old(self).pool()[v as int].parent as int, old(self).pool()[i as int].parent as int],
            ),
            forall|x: int|
                0 <= x < old(self).pool().len() ==> (#[trigger] final(self).pool()[x]).child1.kind
                    == old(self).pool()[x].child1.kind && final(self).pool()[x].aabb == old(self).pool()[x].aabb,
            forall|x: int|
                0 <= x < old(self).pool().len() && old(self).pool()[x].child1.kind != NODE ==> #[trigger] final(self).pool()[x]
                    == old(self).pool()[x],
            final(self).depths()[old(self).pool()[v as int].parent as int] == old(self).depths()[old(self).pool()[v as int].parent as int],
            final(self).pool()[i as int].parent == old(self).pool()[v as int].parent,
            final(self).pool().len() == old(self).pool().len(),
            final(self).root() == old(self).root(),
            final(self).count() == old(self).count(),
            final(self).window_size() == old(self).window_size(),
            final(self).store() == old(self).store(),
            Self::traded(old(self), final(self), v as int, i as int),
    {
        let ghost o = *self;
        let pv = self.nodes[v as usize].parent;
        let pi = self.nodes[i as usize].parent;
        proof {
            assert(o.parent_ok(Set::empty(), v as int));
            assert(o.parent_ok(Set::empty(), i as int));
            assert(o.node_ok(Set::empty(), pv as int));
            assert(o.node_ok(Set::empty(), pi as int));
            assert(pv != v && pv != i && pi != v && pi != i) by {
                o.lemma_ancestor_unfold(v as int, i as int);
                o.lemma_ancestor_unfold(i as int, v as int);
            }
        }
        if pv == pi {
            let c1 = self.nodes[pv as usize].child1;
            let c2 = self.nodes[pv as usize].child2;
            self.nodes[pv as usize].child1 = c2;
            self.nodes[pv as usize].child2 = c1;
        } else {
            if self.nodes[pv as usize].child1 == TaggedRef::node(v) {
                self.nodes[pv as usize].child1 = TaggedRef::node(i);
            } else {
                self.nodes[pv as usize].child2 = TaggedRef::node(i);
            }
            if self.nodes[pi as usize].child1 == TaggedRef::node(i) {
                self.nodes[pi as usize].child1 = TaggedRef::node(v);
            } else {
                self.nodes[pi as usize].child2 = TaggedRef::node(v);
            }
        }
        self.nodes[v as usize].parent = pi;
        self.nodes[i as usize].parent = pv;
        proof {
            self.depth = Ghost(o.traded_depths(v as int, i as int));
            self.depth_bound = Ghost(o.bound() + o.bound() + o.bound() + 2);
            assert(Self::traded(&o, self, v as int, i as int));
            Self::lemma_traded(&o, self, v as int, i as int);
        }
    }

    /// The other child of node `i`'s parent.
    pub open spec fn sibling_of(&self, i: int) -> int {
        let pn = self.pool()[self.pool()[i].parent as int];
        if pn.child1.index == i {
            pn.child2.index as int
        } else {
            pn.child1.index as int
        }
    }

    /// The internal node `i`, one of the `window_size()` last slots, may
    /// trade places with the visited node `v`: it is neither the root nor
    /// on `v`'s root path nor below `v`, and the trade does not raise the
    /// summed surface area of the two parents' boxes.
    pub open spec fn rotation_allowed(&self, v: int, i: int) -> bool {
        let pv = self.pool()[v].parent as int;
        let pi = self.pool()[i].parent as int;
        let cost_now = area_spec(self.pool()[pv].aabb) + area_spec(self.pool()[pi].aabb);
        let cost_traded = area_spec(union_spec(self.pool()[v].aabb, self.pool()[self.sibling_of(i)].aabb)) + area_spec(
            union_spec(self.pool()[i].aabb, self.pool()[self.sibling_of(v)].aabb),
        );
        &&& 1 <= i < self.pool().len()
        &&& i + self.window_size() >= self.pool().len()
        &&& i != self.root()
        &&& i != v
        &&& self.pool()[i].child1.kind == NODE
        &&& !self.is_ancestor(i, v)
        &&& !self.is_ancestor(v, i)
        &&& cost_traded <= cost_now
    }

    /// The local search at the visited internal node `v`: it scans the
    /// window of the most recently allocated slots, two at a time from the
    /// end of the pool, for an internal node `i` that would lower the total
    /// surface area of the two parents by trading places with `v`, and
    /// makes the first such trade (refitting the boxes above `i`'s old
    /// parent). Nodes on `v`'s own root path or below `v` are passed over.
    fn try_rotate(&mut self, v: u32) -> (rotated: bool)
        requires
            old(self).shape_ok(Set::empty()),
            old(self).alive(Set::empty(), v as int),
            v != old(self).root(),
            old(self).pool()[v as int].child1.kind == NODE,
            old(self).boxes_ok(Set::empty(), set![old(self).pool()[v as int].parent as int]),
        ensures
            final(self).shape_ok(Set::empty()),
            final(self).boxes_ok(Set::empty(), set![old(self).pool()[v as int].parent as int]),
            !rotated ==> *final(self) == *old(self),
            old(self).window_size() == 0 ==> !rotated,
            rotated ==> exists|i: int, t: Bvh<G>|
                #[trigger] Self::traded(old(self), &t, v as int, i) && {
                    &&& old(self).rotation_allowed(v as int, i)
                    &&& final(self).same_topology(&t)
                    &&& forall|x: int|
                        0 <= x < t.pool().len() && !t.is_ancestor(x, t.pool()[v as int].parent as int) ==> #[trigger] final(self).pool()[x]
                            == t.pool()[x]
                },
            forall|x: int|
                0 <= x < old(self).pool().len() ==> (#[trigger] final(self).pool()[x]).child1.kind
                    == old(self).pool()[x].child1.kind,
            forall|x: int|
                0 <= x < old(self).pool().len() && old(self).pool()[x].child1.kind != NODE ==> #[trigger] final(self).pool()[x]
                    == old(self).pool()[x],
            final(self).depths()[old(self).pool()[v as int].parent as int] == old(self).depths()[old(self).pool()[v as int].parent as int],
            final(self).pool().len() == old(self).pool().len(),
            final(self).root() == old(self).root(),
            final(self).count() == old(self).count(),
            final(self).window_size() == old(self).window_size(),
            final(self).store() == old(self).store(),
    {
        let ghost o = *self;
        let n = self.nodes.len();
        let pv = self.nodes[v as usize].parent;
        proof {
            assert(o.parent_ok(Set::empty(), v as int));
            assert(o.node_ok(Set::empty(), pv as int));
        }
        let pvn = self.nodes[pv as usize];
        let v_sib = if pvn.child1.index == v { pvn.child2.index } else { pvn.child1.index };
        let cost1 = aabb_area(pvn.aabb);
        let vbox = self.nodes[v as usize].aabb;
        let vsbox = self.nodes[v_sib as usize].aabb;
        let window = self.window as usize;
        let limit: usize = if n - 1 > window { n - 1 - window } else { 0 };
        let mut i: usize = n - 1;
        while i > limit
            invariant
                *self == o,
                o == *old(self),
                o.shape_ok(Set::empty()),
                o.boxes_ok(Set::empty(), set![pv as int]),
                o.alive(Set::empty(), v as int),
                o.parent_ok(Set::empty(), v as int),
                pv == o.pool()[v as int].parent,
                o.pool()[v as int].child1.kind == NODE,
                v != o.root(),
                -0x10_0000_0000_0000_0000 <= cost1 <= 0x10_0000_0000_0000_0000,
                o.window_size() == 0 ==> i <= limit,
                limit + o.window_size() + 1 >= n,
                window == o.window_size(),
                vbox == o.pool()[v as int].aabb,
                v_sib == o.sibling_of(v as int),
                vsbox == o.pool()[v_sib as int].aabb,
                cost1 == area_spec(o.pool()[pv as int].aabb),
                i < n,
                n == self.pool().len(),
                limit < n,
            decreases i,
        {
            let cand = i as u32;
            if cand != self.root_index && cand != v && self.nodes[i].child1.kind == NODE {
                proof {
                    assert(self.alive(Set::empty(), i as int));
                    assert(self.parent_ok(Set::empty(), i as int));
                    assert(self.node_ok(Set::empty(), self.pool()[i as int].parent as int));
                }
                let ip = self.nodes[i].parent;
                let ipn = self.nodes[ip as usize];
                let i_sib = if ipn.child1.index == cand { ipn.child2.index } else { ipn.child1.index };
                let cost3 = cost1 + aabb_area(ipn.aabb);
                let cost4 = aabb_area(aabb_union(vbox, self.nodes[i_sib as usize].aabb)) + aabb_area(
                    aabb_union(self.nodes[i].aabb, vsbox),
                );
                if cost4 <= cost3 && !self.ancestor_check(cand, v) && !self.ancestor_check(v, cand) {
                    self.trade(v, cand);
                    let ghost t = *self;
                    proof {
                        assert(self.live(ip as int));
                        assert(self.pool()[ip as int].child1.kind == NODE);
                        assert forall|x: int| self.alive(Set::empty(), x) && !set![ip as int, self.pool()[ip as int].parent as int, pv as int].contains(x) implies #[trigger] self.box_ok(x) by {
                            assert(!set![pv as int, ip as int].contains(x));
                        }
                    }
                    self.refit_path(ip, Ghost(pv as int));
                    proof {
                        assert(o.rotation_allowed(v as int, i as int));
                        assert(t.pool()[v as int].parent == ip);
                        assert(Self::traded(&o, &t, v as int, i as int));
                    }
                    return true;
                }
            }
            if i >= 2 {
                i = i - 2;
            } else {
                i = 0;
            }
        }
        false
    }

    /// Recomputes the boxes on the path from the internal node `start` up to
    /// the root, trying a local rotation at each visited node below the
    /// root; on entry only `start` and its parent may hold a stale box.
    fn refit_from(&mut self, start: u32)
        requires
            old(self).shape_ok(Set::empty()),
            old(self).count() == old(self).pool().len() - 1,
            old(self).live(start as int),
            old(self).pool()[start as int].child1.kind == NODE,
            old(self).boxes_ok(Set::empty(), set![start as int, old(self).pool()[start as int].parent as int]),
        ensures
            final(self).wf(),
            final(self).store() == old(self).store(),
            final(self).pool().len() == old(self).pool().len(),
            final(self).root() == old(self).root(),
            final(self).count() == old(self).count(),
            final(self).window_size() == old(self).window_size(),
            forall|i: int|
                0 <= i < old(self).pool().len() && old(self).pool()[i].child1.kind != NODE
                    ==> #[trigger] final(self).pool()[i] == old(self).pool()[i],
            old(self).window_size() == 0 && old(self).boxes_ok(Set::empty(), Set::empty()) ==> final(self).pool()
                == old(self).pool(),
            old(self).window_size() == 0 ==> forall|i: int|
                0 <= i < old(self).pool().len() && !old(self).is_ancestor(i, start as int) ==> #[trigger] final(self).pool()[i]
                    == old(self).pool()[i],
            old(self).window_size() == 0 ==> final(self).same_topology(old(self)),
            forall|i: int|
                0 <= i < old(self).pool().len() ==> (#[trigger] final(self).pool()[i]).child1.kind
                    == old(self).pool()[i].child1.kind,
    {
        let mut cur = start;
        loop
            invariant
                old(self).window_size() == 0 && old(self).boxes_ok(Set::empty(), Set::empty()) ==> self.pool()
                    == old(self).pool(),
                old(self).shape_ok(Set::empty()),
                old(self).live(start as int),
                old(self).window_size() == 0 ==> {
                    &&& self.same_topology(old(self))
                    &&& old(self).is_ancestor(cur as int, start as int)
                    &&& forall|i: int|
                        0 <= i < old(self).pool().len() && !old(self).is_ancestor(i, start as int) ==> #[trigger] self.pool()[i]
                            == old(self).pool()[i]
                },
                self.shape_ok(Set::empty()),
                self.store() == old(self).store(),
                self.pool().len() == old(self).pool().len(),
                self.root() == old(self).root(),
                self.count() == old(self).count(),
                self.window_size() == old(self).window_size(),
                self.count() == self.pool().len() - 1,
                self.live(cur as int),
                self.pool()[cur as int].child1.kind == NODE,
                self.boxes_ok(Set::empty(), set![cur as int, self.pool()[cur as int].parent as int]),
                forall|i: int|
                    0 <= i < old(self).pool().len() && old(self).pool()[i].child1.kind != NODE
                        ==> #[trigger] self.pool()[i] == old(self).pool()[i],
                forall|i: int|
                    0 <= i < old(self).pool().len() ==> (#[trigger] self.pool()[i]).child1.kind
                        == old(self).pool()[i].child1.kind,
            decreases self.depths()[cur as int],
        {
            let nd = self.nodes[cur as usize];
            proof {
                assert(self.node_ok(Set::empty(), cur as int));
            }
            let b = aabb_union(self.nodes[nd.child1.index as usize].aabb, self.nodes[nd.child2.index as usize].aabb);
            let ghost before = *self;
            self.set_box(cur, b);
            proof {
                if old(self).window_size() == 0 && old(self).boxes_ok(Set::empty(), Set::empty()) {
                    assert(old(self).box_ok(cur as int));
                    assert(self.pool() =~= before.pool());
                }
                Self::lemma_same_topology(&before, self, Set::empty());
                let p = nd.parent as int;
                assert forall|i: int| self.alive(Set::empty(), i) && !set![p].contains(i) implies #[trigger] self.box_ok(i) by {
                    if i != cur as int {
                        assert(before.box_ok(i));
                        assert(before.node_ok(Set::empty(), i));
                        let c = before.pool()[i];
                        if c.child1.kind == NODE {
                            assert(before.parent_ok(Set::empty(), c.child1.index as int));
                            assert(before.parent_ok(Set::empty(), c.child2.index as int));
                        }
                    }
                }
                assert(forall|i: int| 0 <= i < old(self).pool().len() ==> (#[trigger] self.pool()[i]).child1.kind
                    == before.pool()[i].child1.kind);
            }
            if nd.parent == 0 {
                proof {
                    assert forall|i: int| self.alive(Set::empty(), i) && !Set::<int>::empty().contains(i) implies #[trigger] self.box_ok(i) by {
                        assert(!set![nd.parent as int].contains(i));
                    }
                }
                return;
            }
            proof {
                assert(self.parent_ok(Set::empty(), cur as int));
                assert(self.node_ok(Set::empty(), nd.parent as int));
                if old(self).window_size() == 0 {
                    assert(self.same_topology(old(self)));
                    assert(old(self).pool()[cur as int].parent == nd.parent);
                    assert(old(self).live(start as int));
                    assert(old(self).is_ancestor(nd.parent as int, start as int)) by {
                        assert(cur as int != old(self).root());
                        old(self).lemma_ancestor_parent(cur as int, start as int);
                    }
                }
            }
            self.try_rotate(cur);
            proof {
                assert(self.live(nd.parent as int));
                assert forall|i: int| self.alive(Set::empty(), i) && !set![nd.parent as int, self.pool()[nd.parent as int].parent as int].contains(i) implies #[trigger] self.box_ok(i) by {
                    assert(!set![nd.parent as int].contains(i));
                }
            }
            cur = nd.parent;
        }
    }

    /// `self` and `other` hold the same primitives with the same payloads
    /// and slots; only the links into the tree may differ.
    pub open spec fn same_payloads(&self, other: &Bvh<G>) -> bool {
        &&& self.kinds() == other.kinds()
        &&& forall|k: int| 0 <= k < self.kinds() ==> #[trigger] self.records(k).len() == other.records(k).len()
        &&& forall|k: int, j: int|
            0 <= k < self.kinds() && 0 <= j < self.records(k).len() ==> {
                &&& (#[trigger] self.records(k)[j]).geometry == other.records(k)[j].geometry
                &&& self.records(k)[j].slot_index == other.records(k)[j].slot_index
            }
    }

    /// `self` is `old` after `insert_leaf(shape, aabb)` succeeded: the
    /// primitive's new leaf sits in the first free slot with box `aabb`,
    /// every other leaf keeps its slot, primitive and box, other records are
    /// untouched, and the tree gained a leaf (and an internal node unless it
    /// was empty). With rotation switched off, the new internal node is the
    /// next slot, holding the leaf picked by the greedy descent and the new
    /// leaf, in the picked leaf's former place.
    pub open spec fn inserted_from(&self, old: &Bvh<G>, shape: TaggedRef, aabb: Aabb) -> bool {
        let n = old.pool().len() as int;
        &&& self.wf()
        &&& self.pool().len() == n + if old.count() == 0 { 1int } else { 2int }
        &&& self.pool()[n] == BvhNode {
            self_index: n as u32,
            parent: self.pool()[n].parent,
            aabb,
            child1: shape,
            child2: TaggedRef::spec_null(),
        }
        &&& self.record_of(shape) == PrimitiveRecord { parent_idx: TaggedRef::spec_node(n), ..old.record_of(shape) }
        &&& forall|r: TaggedRef| old.valid_shape(r) && r != shape ==> #[trigger] self.record_of(r) == old.record_of(r)
        &&& forall|i: int|
            0 <= i < n ==> (#[trigger] self.pool()[i]).child1.kind == old.pool()[i].child1.kind
        &&& forall|i: int|
            0 <= i < n && old.pool()[i].child1.kind != NODE ==> (#[trigger] self.pool()[i]).child1 == old.pool()[i].child1
                && self.pool()[i].aabb == old.pool()[i].aabb
        &&& old.count() == 0 ==> self.root() == 1
        &&& old.count() != 0 && old.window_size() == 0 ==> {
            let sib = old.descend(old.root(), aabb);
            let g = old.pool()[sib].parent as int;
            let m = n + 1;
            &&& self.pool()[m].self_index == m
            &&& self.pool()[m].child1 == TaggedRef::spec_node(sib)
            &&& self.pool()[m].child2 == TaggedRef::spec_node(n)
            &&& self.pool()[m].parent == g
            &&& self.pool()[m].aabb == union_spec(old.pool()[sib].aabb, aabb)
            &&& self.pool()[sib].parent == m
            &&& self.pool()[n].parent == m
            &&& g == 0 ==> self.root() == m
            &&& g != 0 ==> self.root() == old.root() && (self.pool()[g].child1 == TaggedRef::spec_node(m)
                || self.pool()[g].child2 == TaggedRef::spec_node(m))
        }
        &&& self.leaf_boxes() == old.leaf_boxes().insert(shape, aabb)
        &&& self.same_payloads(old)
        &&& self.count() == old.count() + if old.count() == 0 { 1int } else { 2int }
        &&& self.window_size() == old.window_size()
    }

    /// `self` is `old` after `refit_leaf(shape, aabb)` succeeded: the
    /// primitive's leaf box is now `aabb`, every other leaf box and every
    /// primitive record is kept; with rotation switched off, only nodes on
    /// the leaf's root path change, and refitting a leaf to the box it
    /// already has changes nothing at all.
    pub open spec fn refitted_from(&self, old: &Bvh<G>, shape: TaggedRef, aabb: Aabb) -> bool {
        &&& self.wf()
        &&& self.leaf_boxes() == old.leaf_boxes().insert(shape, aabb)
        &&& self.store() == old.store()
        &&& forall|k: int| 0 <= k < KIND_COUNT ==> #[trigger] self.records(k) == old.records(k)
        &&& self.pool().len() == old.pool().len()
        &&& forall|i: int|
            0 <= i < old.pool().len() && old.pool()[i].child1.kind != NODE ==> {
                &&& (#[trigger] self.pool()[i]).child1 == old.pool()[i].child1
                &&& old.pool()[i].child1 != shape ==> self.pool()[i].aabb == old.pool()[i].aabb
            }
        &&& self.count() == old.count()
        &&& self.root() == old.root()
        &&& self.window_size() == old.window_size()
        &&& old.window_size() == 0 && old.leaf_boxes()[shape] == aabb ==> self.pool() == old.pool()
        &&& old.window_size() == 0 ==> forall|i: int|
            0 <= i < old.pool().len() && !old.is_ancestor(i, old.record_of(shape).parent_idx.index as int)
                ==> #[trigger] self.pool()[i] == old.pool()[i]
    }

    /// `self` is `old` after `remove_leaf(shape)` unlinked an inserted
    /// primitive: its leaf box is gone, every other one is kept, and the
    /// tree lost the leaf (and its parent unless the leaf was the root).
    /// Every other slot moves as `removal_slot` says, the root is the
    /// sibling when the parent was the root, and record links follow their
    /// leaves; with rotation switched off the sibling hangs from the former
    /// grandparent.
    pub open spec fn removed_from(&self, old: &Bvh<G>, shape: TaggedRef) -> bool {
        let l = old.record_of(shape).parent_idx.index as int;
        let p = old.pool()[l].parent as int;
        let pn = old.pool()[p];
        let sib = if pn.child1.index == l { pn.child2.index as int } else { pn.child1.index as int };
        let g = pn.parent as int;
        &&& self.wf()
        &&& self.leaf_boxes() == old.leaf_boxes().remove(shape)
        &&& self.same_payloads(old)
        &&& self.count() == old.count() - if old.count() == 1 { 1int } else { 2int }
        &&& self.window_size() == old.window_size()
        &&& old.count() == 1 ==> self.root() == 0 && self.pool() == old.pool().take(1)
        &&& old.count() != 1 ==> {
            &&& self.pool().len() == old.pool().len() - 2
            &&& self.root() == if g == 0 {
                Self::removal_slot(old, shape, sib)
            } else {
                Self::removal_slot(old, shape, old.root())
            }
            &&& self.record_of(shape) == PrimitiveRecord { parent_idx: TaggedRef::spec_null(), ..old.record_of(shape) }
            &&& forall|r: TaggedRef|
                old.valid_shape(r) && r != shape ==> #[trigger] self.record_of(r) == if old.record_of(r).parent_idx
                    == TaggedRef::spec_null() {
                    old.record_of(r)
                } else {
                    PrimitiveRecord {
                        parent_idx: TaggedRef::spec_node(Self::removal_slot(old, shape, old.record_of(r).parent_idx.index as int)),
                        ..old.record_of(r)
                    }
                }
            &&& forall|i: int|
                #![trigger old.pool()[i]]
                1 <= i < old.pool().len() && i != l && old.pool()[i].child1.kind != NODE ==> {
                    &&& self.pool()[Self::removal_slot(old, shape, i)].child1 == old.pool()[i].child1
                    &&& self.pool()[Self::removal_slot(old, shape, i)].aabb == old.pool()[i].aabb
                }
            &&& old.window_size() == 0 ==> {
                &&& self.pool()[Self::removal_slot(old, shape, sib)].parent == Self::removal_slot(old, shape, g)
                &&& g != 0 ==> {
                    ||| self.pool()[Self::removal_slot(old, shape, g)].child1 == TaggedRef::spec_node(Self::removal_slot(old, shape, sib))
                    ||| self.pool()[Self::removal_slot(old, shape, g)].child2 == TaggedRef::spec_node(Self::removal_slot(old, shape, sib))
                }
            }
        }
    }

    /// Where slot `i` of `old` ends up after `remove_leaf(shape)` freed the
    /// leaf's slot and its parent's: the last node moves into the higher of
    /// the two freed slots, then the new last node into the lower one.
    pub open spec fn removal_slot(old: &Bvh<G>, shape: TaggedRef, i: int) -> int {
        let l = old.record_of(shape).parent_idx.index as int;
        let p = old.pool()[l].parent as int;
        let n = old.pool().len() as int;
        let hi = if l > p { l } else { p };
        let lo = if l > p { p } else { l };
        Self::moved_slot(n - 2, lo, Self::moved_slot(n - 1, hi, i))
    }

    /// `self` is `old` after `destroy_primitive(shape)` returned `g`: the
    /// primitive's payload was `g`, the last primitive of its kind moved
    /// into its slot together with its leaf box, and every other primitive
    /// and leaf box is kept.
    pub open spec fn destroyed_from(&self, old: &Bvh<G>, shape: TaggedRef, g: G) -> bool {
        let k = shape.kind - 1;
        let last = old.records(k).len() - 1;
        let from = TaggedRef { kind: shape.kind, index: last as u32 };
        &&& self.wf()
        &&& g == old.record_of(shape).geometry
        &&& self.leaf_boxes() == Self::relocated(old.leaf_boxes().remove(shape), from, shape)
        &&& self.records(k).len() == last
        &&& shape.index < last ==> self.records(k)[shape.index as int].geometry == old.records(k)[last].geometry
        &&& forall|j2: int| 0 <= j2 < last && j2 != shape.index ==> (#[trigger] self.records(k)[j2]).geometry
            == old.records(k)[j2].geometry
        &&& forall|k2: int, j2: int|
            0 <= k2 < KIND_COUNT && k2 != k && 0 <= j2 < old.records(k2).len()
                ==> (#[trigger] self.records(k2)[j2]).geometry == old.records(k2)[j2].geometry
        &&& forall|k2: int| 0 <= k2 < KIND_COUNT && k2 != k ==> #[trigger] self.records(k2).len() == old.records(k2).len()
        &&& self.count() == old.count() - if !old.is_inserted(shape) {
            0int
        } else if old.count() == 1 {
            1int
        } else {
            2int
        }
        &&& self.window_size() == old.window_size()
    }

    /// `s` is `o` after a new leaf for `shape` (slot `n`, the old pool
    /// length) and a new internal node (slot `n + 1`) were appended, the
    /// internal node taking the place of the leaf `sn` under `sn`'s parent
    /// (or as the root) with `sn` and the new leaf as its children.
    pub open spec fn spliced(o: &Bvh<G>, s: &Bvh<G>, shape: TaggedRef, aabb: Aabb, sn: int) -> bool {
        let n = o.pool().len() as int;
        let mn = n + 1;
        let pn = o.pool()[sn].parent as int;
        let ds = o.depths()[sn];
        &&& s.pool().len() == n + 2
        &&& s.pool()[n] == BvhNode {
            self_index: n as u32,
            parent: mn as u32,
            aabb,
            child1: shape,
            child2: TaggedRef::spec_null(),
        }
        &&& s.pool()[mn] == BvhNode {
            self_index: mn as u32,
            parent: pn as u32,
            aabb: union_spec(o.pool()[sn].aabb, aabb),
            child1: TaggedRef::spec_node(sn),
            child2: TaggedRef::spec_node(n),
        }
        &&& s.pool()[sn] == BvhNode { parent: mn as u32, ..o.pool()[sn] }
        &&& pn != 0 ==> s.pool()[pn] == if o.pool()[pn].child1.index == sn {
            BvhNode { child1: TaggedRef::spec_node(mn), ..o.pool()[pn] }
        } else {
            BvhNode { child2: TaggedRef::spec_node(mn), ..o.pool()[pn] }
        }
        &&& forall|i: int| 0 <= i < n && i != sn && (pn == 0 || i != pn) ==> #[trigger] s.pool()[i] == o.pool()[i]
        &&& pn == 0 ==> s.root() == mn
        &&& pn != 0 ==> s.root() == o.root()
        &&& s.count() == o.count() + 2
        &&& s.window_size() == o.window_size()
        &&& s.depths() == Seq::new(n as nat, |i: int| 2 * o.depths()[i] + 2).push(2 * ds + 3).push(2 * ds + 1)
        &&& s.bound() == 2 * o.bound() + 3
        &&& s.kinds() == o.kinds()
        &&& forall|k: int| 0 <= k < KIND_COUNT ==> #[trigger] s.records(k).len() == o.records(k).len()
        &&& forall|r: TaggedRef|
            o.valid_shape(r) ==> #[trigger] s.record_of(r) == if r == shape {
                PrimitiveRecord { parent_idx: TaggedRef::spec_node(n), ..o.record_of(r) }
            } else {
                o.record_of(r)
            }
    }

    proof fn lemma_spliced(o: &Bvh<G>, s: &Bvh<G>, shape: TaggedRef, aabb: Aabb, sn: int)
        requires
            o.wf(),
            o.root() != 0,
            o.live(sn),
            o.pool()[sn].child1.kind != NODE,
            o.valid_shape(shape),
            !o.is_inserted(shape),
            o.pool().len() + 2 <= u32::MAX,
            Self::spliced(o, s, shape, aabb, sn),
        ensures
            s.shape_ok(Set::empty()),
            s.boxes_ok(Set::empty(), set![o.pool().len() as int + 1, o.pool()[sn].parent as int]),
            s.count() == s.pool().len() - 1,
            s.leaf_boxes() == o.leaf_boxes().insert(shape, aabb),
    {
        let n = o.pool().len() as int;
        let k = shape.kind - 1;
        let j = shape.index as int;
        let pn = o.pool()[sn].parent as int;
        let ln = n;
        let mn = n + 1;
        let e = Set::<int>::empty();
        assert(o.node_ok(e, sn));
        assert(o.parent_ok(e, sn));
        if pn != 0 {
            assert(o.node_ok(e, pn));
        }
        assert(o.record_ok(e, k, j));
        assert(pn != sn);
        assert(pn != 0 ==> {
            ||| s.pool()[pn].child1.index == mn && s.pool()[pn].child2 == o.pool()[pn].child2
                && o.pool()[pn].child1.index == sn
            ||| s.pool()[pn].child2.index == mn && s.pool()[pn].child1 == o.pool()[pn].child1
                && o.pool()[pn].child2.index == sn && o.pool()[pn].child1.index != sn
        });
        assert(pn == 0 ==> o.root() == sn);
        assert(o.pool()[sn].child1.kind != NODE);
        assert(pn != sn);
        assert(forall|i: int| 0 <= i < n && i != sn && i != pn ==> s.pool()[i] == o.pool()[i]);
        assert(s.pool()[sn] == BvhNode { parent: mn as u32, ..o.pool()[sn] });
        assert(pn != 0 ==> s.pool()[pn].parent == o.pool()[pn].parent);
        assert(pn != 0 ==> s.pool()[pn].self_index == o.pool()[pn].self_index);
        assert(pn != 0 ==> s.pool()[pn].child1.kind == NODE && s.pool()[pn].child2.kind == NODE);
        assert(pn != 0 ==> {
            ||| s.pool()[pn].child1.index == mn && s.pool()[pn].child2 == o.pool()[pn].child2
                && o.pool()[pn].child1.index == sn
            ||| s.pool()[pn].child2.index == mn && s.pool()[pn].child1 == o.pool()[pn].child1
                && o.pool()[pn].child2.index == sn && o.pool()[pn].child1.index != sn
        });
        assert(pn == 0 ==> o.root() == sn);
        assert forall|k2: int| 0 <= k2 < KIND_COUNT implies #[trigger] s.records(k2).len() < u32::MAX by {
            assert(o.records(k2).len() < u32::MAX);
        }
        assert forall|i: int| 0 <= i < s.pool().len() implies #[trigger] s.depths()[i] <= s.bound() by {
            if i < n {
                assert(o.depths()[i] <= o.bound());
            }
        }
        assert forall|i: int| s.alive(e, i) implies #[trigger] s.node_ok(e, i) by {
            if i != ln && i != mn {
                assert(o.node_ok(e, i));
                let nd = o.pool()[i];
                if nd.child1.kind != NODE {
                    assert(o.record_of(nd.child1).parent_idx == TaggedRef::spec_node(i));
                    assert(nd.child1 != shape);
                    assert(s.record_of(nd.child1) == o.record_of(nd.child1));
                } else {
                    assert(o.parent_ok(e, nd.child1.index as int));
                    assert(o.parent_ok(e, nd.child2.index as int));
                }
            }
        }
        assert forall|i: int| s.alive(e, i) implies #[trigger] s.parent_ok(e, i) by {
            if i != ln && i != mn && i != sn {
                assert(o.parent_ok(e, i));
                if i != o.root() {
                    let p = o.pool()[i].parent as int;
                    assert(o.node_ok(e, p));
                }
            }
        }
        assert forall|k2: int, j2: int|
            0 <= k2 < KIND_COUNT && 0 <= j2 < s.records(k2).len() implies #[trigger] s.record_ok(e, k2, j2) by {
            let r2 = TaggedRef { kind: (k2 + 1) as u32, index: j2 as u32 };
            assert(o.valid_shape(r2));
            assert(s.record_of(r2) == s.records(k2)[j2]);
            if r2 != shape {
                assert(o.record_ok(e, k2, j2));
                let l = o.records(k2)[j2].parent_idx;
                if l != TaggedRef::spec_null() {
                    assert(o.node_ok(e, l.index as int));
                }
            }
        }
        assert(s.shape_ok(e));
        assert forall|i: int| s.alive(e, i) && !set![mn, pn].contains(i) implies #[trigger] s.box_ok(i) by {
            if i != ln {
                assert(o.box_ok(i));
                assert(o.node_ok(e, i));
            }
        }
        assert(s.count() == s.pool().len() - 1);
        assert forall|r2: TaggedRef| #[trigger] s.is_inserted(r2) == (o.is_inserted(r2) || r2 == shape) by {
            if r2.spec_is_shape() && o.valid_shape(r2) && r2 != shape {
                assert(s.record_of(r2) == o.record_of(r2));
            }
        }
        assert forall|r2: TaggedRef| #[trigger] o.is_inserted(r2) implies s.pool()[s.record_of(r2).parent_idx.index as int].aabb == o.pool()[o.record_of(r2).parent_idx.index as int].aabb by {
            assert(s.record_of(r2) == o.record_of(r2));
            assert(o.record_ok(e, r2.kind - 1, r2.index as int));
            let l = o.record_of(r2).parent_idx.index as int;
            assert(o.pool()[l].child1.kind != NODE);
        }
        assert(s.leaf_boxes() =~= o.leaf_boxes().insert(shape, aabb));
    }

    /// Checks that `r` names an existing primitive.
    fn check_shape(&self, r: TaggedRef) -> (ok: bool)
        requires
            self.kinds() == KIND_COUNT,
        ensures
            ok == self.valid_shape(r),
    {
        if r.kind < 1 || r.kind > KIND_COUNT {
            return false;
        }
        (r.index as usize) < self.shapes[(r.kind - 1) as usize].len()
    }

    /// Links a primitive into the tree with the box `aabb`: a new leaf is
    /// paired with the leaf that the greedy descent picks, under a new
    /// internal node, and the boxes above are refitted.
    pub fn insert_leaf(&mut self, shape: TaggedRef, aabb: Aabb) -> (r: Result<(), BvhError>)
        requires
            old(self).wf(),
        ensures
            final(self).wf(),
            r == Err::<(), BvhError>(BvhError::InvalidShape) <==> !old(self).valid_shape(shape),
            r == Err::<(), BvhError>(BvhError::AlreadyInserted) <==> old(self).is_inserted(shape),
            r.is_ok() <==> old(self).valid_shape(shape) && !old(self).is_inserted(shape)
                && old(self).pool().len() + 2 <= u32::MAX,
            r == Err::<(), BvhError>(BvhError::CapacityExceeded) <==> old(self).valid_shape(shape)
                && !old(self).is_inserted(shape) && old(self).pool().len() + 2 > u32::MAX,
            r.is_err() ==> *final(self) == *old(self),
            r.is_ok() ==> final(self).inserted_from(old(self), shape, aabb),
    {
        if !self.check_shape(shape) {
            return Err(BvhError::InvalidShape);
        }
        let k = (shape.kind - 1) as usize;
        let j = shape.index as usize;
        if self.shapes[k][j].parent_idx != TaggedRef::null() {
            return Err(BvhError::AlreadyInserted);
        }
        let n = self.nodes.len();
        if n > (u32::MAX - 2) as usize {
            return Err(BvhError::CapacityExceeded);
        }
        let ghost o = *self;
        proof {
            assert(o.record_ok(Set::empty(), k as int, j as int));
        }
        if self.root_index == 0 {
            proof {
                if n > 1 {
                    assert(!o.alive(Set::empty(), 1));
                }
            }
            let leaf = BvhNode { self_index: 1, parent: 0, aabb, child1: shape, child2: TaggedRef::null() };
            self.nodes.push(leaf);
            self.root_index = 1;
            self.node_count = 1;
            self.shapes[k][j].parent_idx = TaggedRef::node(1);
            proof {
                self.depth = Ghost(seq![0nat, 0nat]);
                assert(n == 1) by {
                    if n > 1 {
                        assert(!o.alive(Set::empty(), 1));
                    }
                }
                assert forall|k2: int| 0 <= k2 < KIND_COUNT implies #[trigger] self.records(k2).len() < u32::MAX by {
                    assert(o.records(k2).len() < u32::MAX);
                }
                assert(self.node_ok(Set::empty(), 1));
                assert(self.parent_ok(Set::empty(), 1));
                assert forall|i: int| self.alive(Set::empty(), i) implies #[trigger] self.node_ok(Set::empty(), i) && self.parent_ok(Set::empty(), i) by {}
                assert forall|i: int| self.alive(Set::empty(), i) && !Set::<int>::empty().contains(i) implies #[trigger] self.box_ok(i) by {}
                assert forall|k2: int, j2: int|
                    0 <= k2 < KIND_COUNT && 0 <= j2 < self.records(k2).len() implies #[trigger] self.record_ok(Set::empty(), k2, j2) by {
                    assert(o.record_ok(Set::empty(), k2, j2));
                    if k2 != k || j2 != j {
                        let l = o.records(k2)[j2].parent_idx;
                        if l != TaggedRef::spec_null() {
                            assert(!o.alive(Set::empty(), l.index as int));
                        }
                    }
                }
                assert forall|i: int| 0 <= i < 2 implies #[trigger] self.depths()[i] <= self.bound() by {}
                assert(self.shape_ok(Set::empty()));
                assert forall|r2: TaggedRef| #[trigger] self.is_inserted(r2) == (r2 == shape) by {
                    if r2.spec_is_shape() && self.valid_shape(r2) && r2 != shape {
                        let k2 = r2.kind - 1;
                        assert(o.record_ok(Set::empty(), k2, r2.index as int));
                        let l = o.records(k2)[r2.index as int].parent_idx;
                        if l != TaggedRef::spec_null() {
                            assert(!o.alive(Set::empty(), l.index as int));
                        }
                    }
                }
                assert forall|r2: TaggedRef| !#[trigger] o.is_inserted(r2) by {
                    if o.valid_shape(r2) {
                        assert(o.record_ok(Set::empty(), r2.kind - 1, r2.index as int));
                        let l = o.records(r2.kind - 1)[r2.index as int].parent_idx;
                        if l != TaggedRef::spec_null() {
                            assert(!o.alive(Set::empty(), l.index as int));
                        }
                    }
                }
                assert(self.leaf_boxes() =~= o.leaf_boxes().insert(shape, aabb));
                assert(self.same_payloads(&o)) by {
                    assert forall|k2: int| 0 <= k2 < self.kinds() implies #[trigger] self.records(k2).len() == o.records(k2).len() by {}
                    assert forall|k2: int, j2: int| 0 <= k2 < self.kinds() && 0 <= j2 < self.records(k2).len() implies {
                        &&& (#[trigger] self.records(k2)[j2]).geometry == o.records(k2)[j2].geometry
                        &&& self.records(k2)[j2].slot_index == o.records(k2)[j2].slot_index
                    } by {}
                }
            }
            return Ok(());
        }
        let sibling = self.pick_best(aabb);
        let leaf_index = n as u32;
        let parent_index = (n + 1) as u32;
        let sib = self.nodes[sibling as usize];
        let old_parent = sib.parent;
        proof {
            assert(o.node_ok(Set::empty(), sibling as int));
            assert(o.parent_ok(Set::empty(), sibling as int));
            if old_parent != 0 {
                assert(o.node_ok(Set::empty(), old_parent as int));
            }
        }
        self.nodes.push(BvhNode { self_index: leaf_index, parent: parent_index, aabb, child1: shape, child2: TaggedRef::null() });
        self.nodes.push(
            BvhNode {
                self_index: parent_index,
                parent: old_parent,
                aabb: aabb_union(sib.aabb, aabb),
                child1: TaggedRef::node(sibling),
                child2: TaggedRef::node(leaf_index),
            },
        );
        self.nodes[sibling as usize].parent = parent_index;
        if old_parent != 0 {
            if self.nodes[old_parent as usize].child1.index == sibling {
                self.nodes[old_parent as usize].child1 = TaggedRef::node(parent_index);
            } else {
                self.nodes[old_parent as usize].child2 = TaggedRef::node(parent_index);
            }
        } else {
            self.root_index = parent_index;
        }
        self.shapes[k][j].parent_idx = TaggedRef::node(leaf_index);
        self.node_count = self.node_count + 2;
        proof {
            let ds = o.depths()[sibling as int];
            self.depth = Ghost(
                Seq::new(n as nat, |i: int| 2 * o.depths()[i] + 2).push(2 * ds + 3).push(2 * ds + 1),
            );
            self.depth_bound = Ghost(2 * o.bound() + 3);
            let sn = sibling as int;
            assert(forall|r2: TaggedRef| o.valid_shape(r2) ==> #[trigger] self.record_of(r2) == if r2 == shape {
                PrimitiveRecord { parent_idx: TaggedRef::spec_node(n as int), ..o.record_of(r2) }
            } else {
                o.record_of(r2)
            });
            assert(forall|k2: int| 0 <= k2 < KIND_COUNT ==> #[trigger] self.records(k2).len() == o.records(k2).len());
            assert(Self::spliced(&o, self, shape, aabb, sn));
            Self::lemma_spliced(&o, self, shape, aabb, sn);
        }
        let ghost s1 = *self;
        self.refit_from(parent_index);
        proof {
            Self::lemma_refit_keeps_leaf_boxes(&s1, self);
            assert(self.same_payloads(&o)) by {
                assert forall|k2: int| 0 <= k2 < self.kinds() implies #[trigger] self.records(k2).len() == o.records(k2).len() by {
                    assert(self.records(k2) == s1.records(k2));
                }
                assert forall|k2: int, j2: int| 0 <= k2 < self.kinds() && 0 <= j2 < self.records(k2).len() implies {
                    &&& (#[trigger] self.records(k2)[j2]).geometry == o.records(k2)[j2].geometry
                    &&& self.records(k2)[j2].slot_index == o.records(k2)[j2].slot_index
                } by {
                    assert(self.records(k2) == s1.records(k2));
                }
            }
            Self::lemma_insert_post(&o, &s1, self, shape, aabb, sibling as int);
        }
        Ok(())
    }

    proof fn lemma_insert_post(o: &Bvh<G>, s1: &Bvh<G>, f: &Bvh<G>, shape: TaggedRef, aabb: Aabb, sn: int)
        requires
            o.wf(),
            o.root() != 0,
            o.live(sn),
            o.pool()[sn].child1.kind != NODE,
            sn == o.descend(o.root(), aabb),
            o.valid_shape(shape),
            !o.is_inserted(shape),
            Self::spliced(o, s1, shape, aabb, sn),
            s1.shape_ok(Set::empty()),
            f.wf(),
            f.store() == s1.store(),
            f.pool().len() == s1.pool().len(),
            f.root() == s1.root(),
            f.count() == s1.count(),
            f.window_size() == s1.window_size(),
            forall|i: int|
                0 <= i < s1.pool().len() && s1.pool()[i].child1.kind != NODE ==> #[trigger] f.pool()[i] == s1.pool()[i],
            forall|i: int| 0 <= i < s1.pool().len() ==> (#[trigger] f.pool()[i]).child1.kind == s1.pool()[i].child1.kind,
            s1.window_size() == 0 ==> f.same_topology(s1),
            f.leaf_boxes() == o.leaf_boxes().insert(shape, aabb),
            f.same_payloads(o),
        ensures
            f.inserted_from(o, shape, aabb),
    {
        let n = o.pool().len() as int;
        let mn = n + 1;
        let pn = o.pool()[sn].parent as int;
        let e = Set::<int>::empty();
        assert(o.node_ok(e, sn));
        assert(o.parent_ok(e, sn));
        if pn != 0 {
            assert(o.node_ok(e, pn));
        }
        assert(f.pool()[n] == s1.pool()[n]);
        assert(f.pool()[sn].aabb == o.pool()[sn].aabb) by {
            assert(f.pool()[sn] == s1.pool()[sn]);
        }
        assert forall|r: TaggedRef| o.valid_shape(r) implies #[trigger] f.record_of(r) == s1.record_of(r) by {
            assert(f.records(r.kind - 1) == s1.records(r.kind - 1));
        }
        assert(f.valid_shape(shape));
        assert(f.record_of(shape) == s1.record_of(shape));
        assert forall|i: int| 0 <= i < n && o.pool()[i].child1.kind != NODE implies (#[trigger] f.pool()[i]).child1
            == o.pool()[i].child1 && f.pool()[i].aabb == o.pool()[i].aabb by {
            assert(s1.pool()[i].child1.kind != NODE);
        }
        assert forall|i: int| 0 <= i < n implies (#[trigger] f.pool()[i]).child1.kind == o.pool()[i].child1.kind by {
            assert(f.pool()[i].child1.kind == s1.pool()[i].child1.kind);
        }
        if o.window_size() == 0 {
            assert(f.pool()[mn] == f.pool()[mn]);
            assert(f.pool()[sn] == f.pool()[sn]);
            assert(f.pool()[n] == f.pool()[n]);
            assert(f.box_ok(mn));
            if pn != 0 {
                assert(f.pool()[pn] == f.pool()[pn]);
            }
        }
    }

    /// Changing only internal nodes' boxes leaves every leaf box as it was.
    proof fn lemma_refit_keeps_leaf_boxes(a: &Bvh<G>, b: &Bvh<G>)
        requires
            a.shape_ok(Set::empty()),
            b.store() == a.store(),
            b.pool().len() == a.pool().len(),
            forall|i: int|
                0 <= i < a.pool().len() && a.pool()[i].child1.kind != NODE ==> #[trigger] b.pool()[i] == a.pool()[i],
        ensures
            b.leaf_boxes() == a.leaf_boxes(),
    {
        assert forall|r: TaggedRef| #[trigger] a.is_inserted(r) implies b.pool()[b.record_of(r).parent_idx.index as int] == a.pool()[a.record_of(r).parent_idx.index as int] by {
            assert(a.record_ok(Set::empty(), r.kind - 1, r.index as int));
            let l = a.record_of(r).parent_idx.index as int;
            assert(a.pool()[l].child1.kind != NODE);
        }
        assert(b.leaf_boxes() =~= a.leaf_boxes());
    }

    /// Gives an inserted primitive's leaf the new box `aabb` and refits the
    /// boxes on its path to the root.
    pub fn refit_leaf(&mut self, shape: TaggedRef, aabb: Aabb) -> (r: Result<(), BvhError>)
        requires
            old(self).wf(),
        ensures
            final(self).wf(),
            r == Err::<(), BvhError>(BvhError::InvalidShape) <==> !old(self).valid_shape(shape),
            r.is_ok() <==> old(self).is_inserted(shape),
            r == Err::<(), BvhError>(BvhError::NotInserted) <==> old(self).valid_shape(shape)
                && !old(self).is_inserted(shape),
            r.is_err() ==> *final(self) == *old(self),
            r.is_ok() ==> final(self).refitted_from(old(self), shape, aabb),
    {
        if !self.check_shape(shape) {
            return Err(BvhError::InvalidShape);
        }
        let link = self.shapes[(shape.kind - 1) as usize][shape.index as usize].parent_idx;
        if link == TaggedRef::null() {
            return Err(BvhError::NotInserted);
        }
        let ghost o = *self;
        let leaf = link.index;
        proof {
            assert(o.record_ok(Set::empty(), shape.kind - 1, shape.index as int));
            assert(o.node_ok(Set::empty(), leaf as int));
            assert(o.parent_ok(Set::empty(), leaf as int));
        }
        let parent = self.nodes[leaf as usize].parent;
        self.set_box(leaf, aabb);
        proof {
            Self::lemma_same_topology(&o, self, Set::empty());
            assert forall|i: int| self.alive(Set::empty(), i) && !set![parent as int].contains(i) implies #[trigger] self.box_ok(i) by {
                assert(o.box_ok(i));
                assert(o.node_ok(Set::empty(), i));
                let c = o.pool()[i];
                if c.child1.kind == NODE {
                    assert(o.parent_ok(Set::empty(), c.child1.index as int));
                    assert(o.parent_ok(Set::empty(), c.child2.index as int));
                }
            }
            assert forall|r2: TaggedRef| #[trigger] o.is_inserted(r2) && r2 != shape implies self.pool()[self.record_of(r2).parent_idx.index as int] == o.pool()[o.record_of(r2).parent_idx.index as int] by {
                assert(o.record_ok(Set::empty(), r2.kind - 1, r2.index as int));
                assert(o.record_ok(Set::empty(), shape.kind - 1, shape.index as int));
            }
            assert(self.store() == o.store());
            assert forall|r2: TaggedRef| #[trigger] self.is_inserted(r2) == o.is_inserted(r2) by {
                if o.valid_shape(r2) {
                    assert(self.record_of(r2) == o.record_of(r2));
                }
            }
            assert(self.leaf_boxes() =~= o.leaf_boxes().insert(shape, aabb));
            if o.leaf_boxes()[shape] == aabb {
                assert(self.pool() =~= o.pool());
            }
        }
        if parent != 0 {
            let ghost s1 = *self;
            proof {
                if o.window_size() == 0 && o.leaf_boxes()[shape] == aabb {
                    assert forall|i: int| s1.alive(Set::empty(), i) && !Set::<int>::empty().contains(i) implies #[trigger] s1.box_ok(i) by {
                        assert(o.box_ok(i));
                    }
                }
                assert(o.node_ok(Set::empty(), parent as int));
                assert(set![parent as int, self.pool()[parent as int].parent as int].contains(parent as int));
            }
            self.refit_from(parent);
            proof {
                Self::lemma_refit_keeps_leaf_boxes(&s1, self);
                if o.window_size() == 0 {
                    assert forall|i: int|
                        0 <= i < o.pool().len() && !o.is_ancestor(i, leaf as int) implies #[trigger] self.pool()[i]
                            == o.pool()[i] by {
                        o.lemma_ancestor_unfold(i, leaf as int);
                        Self::lemma_ancestor_same_topology(&s1, &o, i, parent as int);
                    }
                }
            }
        } else {
            proof {
                assert(self.boxes_ok(Set::empty(), Set::empty())) by {
                    assert forall|i: int| self.alive(Set::empty(), i) && !Set::<int>::empty().contains(i) implies #[trigger] self.box_ok(i) by {
                        assert(self.box_ok(i) || set![parent as int].contains(i));
                    }
                }
            }
        }
        Ok(())
    }

    /// Frees slot `x`, which no node in use refers to any more: the last
    /// node of the pool moves into it, and its parent, its children (or its
    /// primitive) and the root index are repointed at `x`.
    fn prepare_node_removal(&mut self, x: u32, dead: Ghost<Set<int>>, stale: Ghost<int>)
        requires
            old(self).shape_ok(dead@),
            old(self).count() == old(self).pool().len() - 1,
            dead@.contains(x as int),
            forall|d: int| dead@.contains(d) ==> d <= x,
            old(self).boxes_ok(dead@, set![stale@]),
        ensures
            final(self).shape_ok(dead@.remove(x as int)),
            final(self).count() == final(self).pool().len() - 1,
            final(self).pool().len() == old(self).pool().len() - 1,
            final(self).boxes_ok(
                dead@.remove(x as int),
                set![if stale@ == old(self).pool().len() - 1 { x as int } else { stale@ }],
            ),
            final(self).leaf_boxes() == old(self).leaf_boxes(),
            final(self).same_payloads(old(self)),
            final(self).window_size() == old(self).window_size(),
            forall|i: int|
                0 <= i < final(self).pool().len() && i != x ==> (#[trigger] final(self).pool()[i]).aabb
                    == old(self).pool()[i].aabb,
            x < final(self).pool().len() ==> final(self).pool()[x as int].aabb == old(self).pool().last().aabb,
            forall|i: int|
                0 <= i < final(self).pool().len() && i != x ==> (#[trigger] final(self).pool()[i]).child1.kind
                    == old(self).pool()[i].child1.kind,
            x < final(self).pool().len() ==> final(self).pool()[x as int].child1.kind == old(self).pool().last().child1.kind,
            old(self).root() == old(self).pool().len() - 1 ==> final(self).root() == x,
            old(self).root() != old(self).pool().len() - 1 ==> final(self).root() == old(self).root(),
            x < old(self).pool().len() - 1 ==> Self::compacted(old(self), final(self), x as int),
            x == old(self).pool().len() - 1 ==> {
                &&& final(self).pool() == old(self).pool().drop_last()
                &&& final(self).store() == old(self).store()
                &&& final(self).root() == old(self).root()
            },
            Self::renamed_from(old(self), final(self), dead@, x as int),
    {
        let ghost o = *self;
        let ghost d2 = dead@.remove(x as int);
        let last = self.nodes.len() - 1;
        if x as usize == last {
            self.nodes.pop();
            self.node_count = self.node_count - 1;
            proof {
                self.depth = Ghost(o.depths().drop_last());
                assert(self.pool() =~= o.pool().drop_last());
                assert(o.root() != last) by {
                    if o.root() != 0 {
                        assert(o.alive(dead@, o.root()));
                    }
                }
                assert forall|k2: int| 0 <= k2 < KIND_COUNT implies #[trigger] self.records(k2).len() < u32::MAX by {
                    assert(o.records(k2).len() < u32::MAX);
                }
                assert forall|i: int| 0 <= i < self.pool().len() implies #[trigger] self.depths()[i] <= self.bound() by {
                    assert(o.depths()[i] <= o.bound());
                }
                if self.root() == 0 {
                    assert forall|i: int| !#[trigger] self.alive(d2, i) by {
                        assert(!o.alive(dead@, i));
                    }
                }
                assert forall|i: int| self.alive(d2, i) implies #[trigger] self.node_ok(d2, i) by {
                    assert(o.node_ok(dead@, i));
                }
                assert forall|i: int| self.alive(d2, i) implies #[trigger] self.parent_ok(d2, i) by {
                    assert(o.parent_ok(dead@, i));
                }
                assert forall|k2: int, j2: int|
                    0 <= k2 < KIND_COUNT && 0 <= j2 < self.records(k2).len() implies #[trigger] self.record_ok(d2, k2, j2) by {
                    assert(o.record_ok(dead@, k2, j2));
                }
                assert forall|i: int| self.alive(d2, i) && !set![stale@].contains(i) implies #[trigger] self.box_ok(i) by {
                    assert(o.box_ok(i));
                    assert(o.node_ok(dead@, i));
                }
                assert(self.store() == o.store());
                assert forall|r2: TaggedRef| #[trigger] o.is_inserted(r2) implies self.pool()[self.record_of(r2).parent_idx.index as int] == o.pool()[o.record_of(r2).parent_idx.index as int] by {
                    assert(o.record_ok(dead@, r2.kind - 1, r2.index as int));
                }
                assert forall|r2: TaggedRef| #[trigger] self.is_inserted(r2) == o.is_inserted(r2) by {
                    if o.valid_shape(r2) {
                        assert(self.record_of(r2) == o.record_of(r2));
                    }
                }
                assert(self.leaf_boxes() =~= o.leaf_boxes());
                Self::lemma_same_payloads_refl(self, &o);
                Self::lemma_renamed(&o, self, dead@, x as int);
            }
            return;
        }
        self.nodes.swap_remove(x as usize);
        self.node_count = self.node_count - 1;
        proof {
            self.depth = Ghost(o.depths().update(x as int, o.depths()[last as int]).drop_last());
        }
        let mv = self.nodes[x as usize];
        proof {
            assert(mv == o.pool()[last as int]);
            assert(o.alive(dead@, last as int));
            assert(o.node_ok(dead@, last as int));
            assert(o.parent_ok(dead@, last as int));
        }
        self.nodes[x as usize].self_index = x;
        let p = mv.parent;
        if p != 0 {
            proof {
                assert(o.node_ok(dead@, p as int));
            }
            if self.nodes[p as usize].child1.index == last as u32 {
                self.nodes[p as usize].child1 = TaggedRef::node(x);
            } else {
                self.nodes[p as usize].child2 = TaggedRef::node(x);
            }
        } else {
            self.root_index = x;
        }
        if mv.child1.kind == NODE {
            proof {
                assert(o.parent_ok(dead@, mv.child1.index as int));
                assert(o.parent_ok(dead@, mv.child2.index as int));
            }
            self.nodes[mv.child1.index as usize].parent = x;
            self.nodes[mv.child2.index as usize].parent = x;
        } else {
            self.shapes[(mv.child1.kind - 1) as usize][mv.child1.index as usize].parent_idx = TaggedRef::node(x);
        }
        proof {
            let li = last as int;
            let xi = x as int;
            let pi = p as int;
            let c1 = mv.child1.index as int;
            let c2 = mv.child2.index as int;
            assert(pi != xi && pi != li);
            assert(mv.child1.kind == NODE ==> c1 != xi && c2 != xi && c1 != li && c2 != li && c1 != pi && c2 != pi
                && c1 != c2);
            assert(pi != 0 ==> {
                ||| o.pool()[pi].child1.index == li
                ||| o.pool()[pi].child2.index == li && o.pool()[pi].child1.index != li
            });
            assert(forall|r2: TaggedRef| o.valid_shape(r2) ==> #[trigger] self.record_of(r2) == if mv.child1.kind != NODE && r2 == mv.child1 {
                PrimitiveRecord { parent_idx: TaggedRef::spec_node(xi), ..o.record_of(r2) }
            } else {
                o.record_of(r2)
            });
            assert(forall|k2: int| 0 <= k2 < KIND_COUNT ==> #[trigger] self.records(k2).len() == o.records(k2).len());
            assert(Self::compacted(&o, self, xi));
            Self::lemma_compact_shape(&o, self, dead@, xi);
            Self::lemma_compact_boxes(&o, self, dead@, stale@, xi);
            Self::lemma_renamed(&o, self, dead@, xi);
        }
    }

    /// `s` is `o` after the last node of the pool moved into the free slot
    /// `x` and every reference to it was repointed at `x`.
    pub open spec fn compacted(o: &Bvh<G>, s: &Bvh<G>, x: int) -> bool {
        let li = o.pool().len() - 1;
        let mv = o.pool()[li];
        let pi = mv.parent as int;
        let c1 = mv.child1.index as int;
        let c2 = mv.child2.index as int;
        &&& 1 <= x < li
        &&& s.pool().len() == li
        &&& s.pool()[x] == BvhNode { self_index: x as u32, ..mv }
        &&& mv.child1.kind == NODE ==> s.pool()[c1] == BvhNode { parent: x as u32, ..o.pool()[c1] }
        &&& mv.child1.kind == NODE ==> s.pool()[c2] == BvhNode { parent: x as u32, ..o.pool()[c2] }
        &&& pi != 0 ==> s.pool()[pi] == if o.pool()[pi].child1.index == li {
            BvhNode { child1: TaggedRef::spec_node(x), ..o.pool()[pi] }
        } else {
            BvhNode { child2: TaggedRef::spec_node(x), ..o.pool()[pi] }
        }
        &&& forall|i: int|
            0 <= i < li && i != x && (pi == 0 || i != pi) && (mv.child1.kind != NODE || (i != c1 && i != c2))
                ==> #[trigger] s.pool()[i] == o.pool()[i]
        &&& pi == 0 ==> s.root() == x
        &&& pi != 0 ==> s.root() == o.root()
        &&& s.count() == o.count() - 1
        &&& s.window_size() == o.window_size()
        &&& s.depths() == o.depths().update(x, o.depths()[li]).drop_last()
        &&& s.bound() == o.bound()
        &&& s.kinds() == o.kinds()
        &&& forall|k: int| 0 <= k < KIND_COUNT ==> #[trigger] s.records(k).len() == o.records(k).len()
        &&& forall|r: TaggedRef|
            o.valid_shape(r) ==> #[trigger] s.record_of(r) == if mv.child1.kind != NODE && r == mv.child1 {
                PrimitiveRecord { parent_idx: TaggedRef::spec_node(x), ..o.record_of(r) }
            } else {
                o.record_of(r)
            }
    }

    proof fn lemma_compact_shape(o: &Bvh<G>, s: &Bvh<G>, dead: Set<int>, x: int)
        requires
            o.shape_ok(dead),
            dead.contains(x),
            forall|d: int| dead.contains(d) ==> d <= x,
            Self::compacted(o, s, x),
        ensures
            s.shape_ok(dead.remove(x)),
    {
        let li = o.pool().len() - 1;
        let mv = o.pool()[li];
        let pi = mv.parent as int;
        let d2 = dead.remove(x);
        assert(o.alive(dead, li));
        assert(o.node_ok(dead, li));
        assert(o.parent_ok(dead, li));
        if pi != 0 {
            assert(o.node_ok(dead, pi));
        }
        assert forall|k2: int| 0 <= k2 < KIND_COUNT implies #[trigger] s.records(k2).len() < u32::MAX by {
            assert(o.records(k2).len() < u32::MAX);
        }
        assert forall|i: int| 0 <= i < s.pool().len() implies #[trigger] s.depths()[i] <= s.bound() by {
            assert(o.depths()[i] <= o.bound());
            assert(o.depths()[li] <= o.bound());
        }
        assert(s.root() != 0 && s.alive(d2, s.root())) by {
            assert(o.alive(dead, o.root()));
        }
        assert forall|i: int| s.alive(d2, i) implies #[trigger] s.node_ok(d2, i) by {
            if i != x {
                assert(o.node_ok(dead, i));
                let nd = o.pool()[i];
                if nd.child1.kind == NODE {
                    assert(o.parent_ok(dead, nd.child1.index as int));
                    assert(o.parent_ok(dead, nd.child2.index as int));
                }
            }
        }
        assert forall|i: int| s.alive(d2, i) implies #[trigger] s.parent_ok(d2, i) by {
            if i != x {
                assert(o.parent_ok(dead, i));
                if i != o.root() {
                    let q = o.pool()[i].parent as int;
                    assert(o.node_ok(dead, q));
                }
            }
        }
        assert forall|k2: int, j2: int|
            0 <= k2 < KIND_COUNT && 0 <= j2 < s.records(k2).len() implies #[trigger] s.record_ok(d2, k2, j2) by {
            assert(o.record_ok(dead, k2, j2));
            let r2 = TaggedRef { kind: (k2 + 1) as u32, index: j2 as u32 };
            assert(o.valid_shape(r2));
            assert(s.record_of(r2) == s.records(k2)[j2]);
            let l = o.records(k2)[j2].parent_idx;
            if l != TaggedRef::spec_null() {
                assert(o.node_ok(dead, l.index as int));
            }
        }
    }

    proof fn lemma_compact_boxes(o: &Bvh<G>, s: &Bvh<G>, dead: Set<int>, stale: int, x: int)
        requires
            o.shape_ok(dead),
            dead.contains(x),
            forall|d: int| dead.contains(d) ==> d <= x,
            o.boxes_ok(dead, set![stale]),
            Self::compacted(o, s, x),
        ensures
            s.boxes_ok(dead.remove(x), set![if stale == o.pool().len() - 1 { x } else { stale }]),
            s.leaf_boxes() == o.leaf_boxes(),
            s.same_payloads(o),
    {
        let li = o.pool().len() - 1;
        let mv = o.pool()[li];
        let pi = mv.parent as int;
        let d2 = dead.remove(x);
        assert(o.alive(dead, li));
        assert(o.node_ok(dead, li));
        assert(o.parent_ok(dead, li));
        if pi != 0 {
            assert(o.node_ok(dead, pi));
        }
        let st2 = if stale == li { x } else { stale };
        assert forall|i: int| s.alive(d2, i) && !set![st2].contains(i) implies #[trigger] s.box_ok(i) by {
            let oi = if i == x { li } else { i };
            assert(o.box_ok(oi));
            assert(o.node_ok(dead, oi));
            let nd = o.pool()[oi];
            if nd.child1.kind == NODE {
                assert(o.parent_ok(dead, nd.child1.index as int));
                assert(o.parent_ok(dead, nd.child2.index as int));
            }
        }
        assert forall|r2: TaggedRef| #[trigger] o.is_inserted(r2) implies s.is_inserted(r2)
            && s.pool()[s.record_of(r2).parent_idx.index as int].aabb == o.pool()[o.record_of(r2).parent_idx.index as int].aabb by {
            assert(o.record_ok(dead, r2.kind - 1, r2.index as int));
        }
        assert forall|r2: TaggedRef| #[trigger] s.is_inserted(r2) implies o.is_inserted(r2) by {}
        assert(s.leaf_boxes() =~= o.leaf_boxes());
        assert forall|k2: int| 0 <= k2 < s.kinds() implies #[trigger] s.records(k2).len() == o.records(k2).len() by {}
        assert forall|k2: int, j2: int| 0 <= k2 < s.kinds() && 0 <= j2 < s.records(k2).len() implies {
            &&& (#[trigger] s.records(k2)[j2]).geometry == o.records(k2)[j2].geometry
            &&& s.records(k2)[j2].slot_index == o.records(k2)[j2].slot_index
        } by {
            let r2 = TaggedRef { kind: (k2 + 1) as u32, index: j2 as u32 };
            assert(o.valid_shape(r2));
            assert(s.record_of(r2) == s.records(k2)[j2]);
        }
    }

    /// Where slot `i` ends up when the last slot `last` moves into `x`.
    pub open spec fn moved_slot(last: int, x: int, i: int) -> int {
        if i == last {
            x
        } else {
            i
        }
    }

    /// Node `nd`, now at slot `ni`, with every node reference to `last`
    /// repointed at `x`.
    pub open spec fn renamed_node(nd: BvhNode, last: int, x: int, ni: int) -> BvhNode {
        BvhNode {
            self_index: ni as u32,
            parent: Self::moved_slot(last, x, nd.parent as int) as u32,
            aabb: nd.aabb,
            child1: if nd.child1.kind == NODE {
                TaggedRef::spec_node(Self::moved_slot(last, x, nd.child1.index as int))
            } else {
                nd.child1
            },
            child2: if nd.child1.kind == NODE {
                TaggedRef::spec_node(Self::moved_slot(last, x, nd.child2.index as int))
            } else {
                nd.child2
            },
        }
    }

    /// `s` is `o` with the free slot `x` filled by the last node and every
    /// reference renamed accordingly: each node in use, the root index and
    /// each primitive's link.
    pub open spec fn renamed_from(o: &Bvh<G>, s: &Bvh<G>, dead: Set<int>, x: int) -> bool {
        let last = o.pool().len() - 1;
        &&& forall|i: int|
            #![trigger o.pool()[i]]
            o.alive(dead, i) ==> s.pool()[Self::moved_slot(last, x, i)] == Self::renamed_node(
                o.pool()[i],
                last,
                x,
                Self::moved_slot(last, x, i),
            )
        &&& s.root() == Self::moved_slot(last, x, o.root())
        &&& forall|r: TaggedRef|
            o.valid_shape(r) ==> #[trigger] s.record_of(r) == if o.record_of(r).parent_idx == TaggedRef::spec_null() {
                o.record_of(r)
            } else {
                PrimitiveRecord {
                    parent_idx: TaggedRef::spec_node(Self::moved_slot(last, x, o.record_of(r).parent_idx.index as int)),
                    ..o.record_of(r)
                }
            }
    }

    proof fn lemma_renamed(o: &Bvh<G>, s: &Bvh<G>, dead: Set<int>, x: int)
        requires
            o.shape_ok(dead),
            dead.contains(x),
            forall|d: int| dead.contains(d) ==> d <= x,
            x < o.pool().len() - 1 ==> Self::compacted(o, s, x),
            x == o.pool().len() - 1 ==> {
                &&& s.pool() == o.pool().drop_last()
                &&& s.store() == o.store()
                &&& s.root() == o.root()
            },
        ensures
            Self::renamed_from(o, s, dead, x),
    {
        let last = o.pool().len() - 1;
        let mv = o.pool()[last];
        let pi = mv.parent as int;
        if x < last {
            assert(o.alive(dead, last));
            assert(o.node_ok(dead, last));
            assert(o.parent_ok(dead, last));
            if pi != 0 {
                assert(o.node_ok(dead, pi));
                assert(o.parent_ok(dead, pi));
            }
            if mv.child1.kind == NODE {
                assert(o.node_ok(dead, mv.child1.index as int));
                assert(o.node_ok(dead, mv.child2.index as int));
                assert(o.parent_ok(dead, mv.child1.index as int));
                assert(o.parent_ok(dead, mv.child2.index as int));
            }
        } else {
            assert(o.root() != last) by {
                if o.root() != 0 {
                    assert(o.alive(dead, o.root()));
                }
            }
            assert forall|r: TaggedRef| o.valid_shape(r) implies #[trigger] s.record_of(r) == o.record_of(r) by {
                assert(s.records(r.kind - 1) == o.records(r.kind - 1));
            }
        }
        assert forall|i: int| #![trigger o.pool()[i]] o.alive(dead, i) implies s.pool()[Self::moved_slot(last, x, i)]
            == Self::renamed_node(o.pool()[i], last, x, Self::moved_slot(last, x, i)) by {
            assert(o.node_ok(dead, i));
            assert(o.parent_ok(dead, i));
            let nd = o.pool()[i];
            if nd.child1.kind == NODE {
                assert(o.parent_ok(dead, nd.child1.index as int));
                assert(o.parent_ok(dead, nd.child2.index as int));
            }
            if i != o.root() {
                assert(o.node_ok(dead, nd.parent as int));
            }
        }
        assert forall|r: TaggedRef| o.valid_shape(r) implies #[trigger] s.record_of(r) == if o.record_of(r).parent_idx
            == TaggedRef::spec_null() {
            o.record_of(r)
        } else {
            PrimitiveRecord {
                parent_idx: TaggedRef::spec_node(Self::moved_slot(last, x, o.record_of(r).parent_idx.index as int)),
                ..o.record_of(r)
            }
        } by {
            assert(o.record_ok(dead, r.kind - 1, r.index as int));
            let l = o.record_of(r).parent_idx;
            if l != TaggedRef::spec_null() {
                assert(o.node_ok(dead, l.index as int));
            }
        }
    }

    proof fn lemma_same_payloads_refl(a: &Bvh<G>, b: &Bvh<G>)
        requires
            a.store() == b.store(),
        ensures
            a.same_payloads(b),
    {
        assert forall|k: int| 0 <= k < a.kinds() implies #[trigger] a.records(k).len() == b.records(k).len() by {}
        assert forall|k: int, j: int| 0 <= k < a.kinds() && 0 <= j < a.records(k).len() implies {
            &&& (#[trigger] a.records(k)[j]).geometry == b.records(k)[j].geometry
            &&& a.records(k)[j].slot_index == b.records(k)[j].slot_index
        } by {}
    }

    /// A node in use other than the root exists only when the root is an
    /// internal node.
    proof fn lemma_root_internal(b: &Bvh<G>, dead: Set<int>, i: int)
        requires
            b.shape_ok(dead),
            b.alive(dead, i),
            i != b.root(),
        ensures
            b.pool()[b.root()].child1.kind == NODE,
        decreases b.depths()[i],
    {
        assert(b.parent_ok(dead, i));
        let p = b.pool()[i].parent as int;
        if p != b.root() {
            Self::lemma_root_internal(b, dead, p);
        }
    }

    /// Unlinks an inserted primitive: its leaf and the leaf's parent leave
    /// the pool, the leaf's sibling takes the parent's place, and the boxes
    /// above are refitted. A primitive that is not in the tree is left
    /// alone.
    #[verifier::rlimit(40)]
    pub fn remove_leaf(&mut self, shape: TaggedRef) -> (r: Result<(), BvhError>)
        requires
            old(self).wf(),
        ensures
            final(self).wf(),
            r == Err::<(), BvhError>(BvhError::InvalidShape) <==> !old(self).valid_shape(shape),
            r.is_ok() <==> old(self).valid_shape(shape),
            !old(self).is_inserted(shape) ==> *final(self) == *old(self),
            old(self).is_inserted(shape) ==> final(self).removed_from(old(self), shape),
    {
        if !self.check_shape(shape) {
            return Err(BvhError::InvalidShape);
        }
        let k = (shape.kind - 1) as usize;
        let j = shape.index as usize;
        let link = self.shapes[k][j].parent_idx;
        if link.kind != NODE || link.index == 0 {
            proof {
                assert(self.record_ok(Set::empty(), k as int, j as int));
            }
            return Ok(());
        }
        let ghost o = *self;
        let leaf = link.index;
        proof {
            assert(o.record_ok(Set::empty(), k as int, j as int));
            assert(o.node_ok(Set::empty(), leaf as int));
            assert(o.parent_ok(Set::empty(), leaf as int));
        }
        if leaf == self.root_index {
            proof {
                assert forall|i: int| o.alive(Set::empty(), i) implies i == leaf by {
                    if i != leaf {
                        Self::lemma_root_internal(&o, Set::empty(), i);
                    }
                }
                assert(o.alive(Set::empty(), 1));
                if o.pool().len() > 2 {
                    assert(o.alive(Set::empty(), 2));
                }
            }
            self.nodes.pop();
            self.root_index = 0;
            self.node_count = 0;
            self.shapes[k][j].parent_idx = TaggedRef::null();
            proof {
                self.depth = Ghost(o.depths().take(1));
                assert(self.pool() =~= o.pool().take(1));
                assert(forall|r2: TaggedRef| o.valid_shape(r2) ==> #[trigger] self.record_of(r2) == if r2 == shape {
                    PrimitiveRecord { parent_idx: TaggedRef::spec_null(), ..o.record_of(r2) }
                } else {
                    o.record_of(r2)
                });
                assert(forall|k2: int| 0 <= k2 < KIND_COUNT ==> #[trigger] self.records(k2).len() == o.records(k2).len());
                Self::lemma_emptied(&o, self, shape);
            }
            return Ok(());
        }
        let parent = self.nodes[leaf as usize].parent;
        let pnode = self.nodes[parent as usize];
        let sibling = if pnode.child1.index == leaf { pnode.child2.index } else { pnode.child1.index };
        let grand = pnode.parent;
        proof {
            assert(o.node_ok(Set::empty(), parent as int));
            assert(o.parent_ok(Set::empty(), parent as int));
            assert(o.parent_ok(Set::empty(), sibling as int));
            if grand != 0 {
                assert(o.node_ok(Set::empty(), grand as int));
            }
        }
        self.nodes[sibling as usize].parent = grand;
        if grand != 0 {
            if self.nodes[grand as usize].child1.index == parent {
                self.nodes[grand as usize].child1 = TaggedRef::node(sibling);
            } else {
                self.nodes[grand as usize].child2 = TaggedRef::node(sibling);
            }
        } else {
            self.root_index = sibling;
        }
        self.shapes[k][j].parent_idx = TaggedRef::null();
        let ghost dead = set![leaf as int, parent as int];
        let ghost gi = grand as int;
        proof {
            assert(forall|r2: TaggedRef| o.valid_shape(r2) ==> #[trigger] self.record_of(r2) == if r2 == shape {
                PrimitiveRecord { parent_idx: TaggedRef::spec_null(), ..o.record_of(r2) }
            } else {
                o.record_of(r2)
            });
            assert(forall|k2: int| 0 <= k2 < KIND_COUNT ==> #[trigger] self.records(k2).len() == o.records(k2).len());
            assert(Self::detached(&o, self, shape));
            Self::lemma_detached(&o, self, shape);
        }
        let ghost sd = *self;
        let (hi, lo) = if leaf > parent { (leaf, parent) } else { (parent, leaf) };
        let last1 = (self.nodes.len() - 1) as u32;
        self.prepare_node_removal(hi, Ghost(dead), Ghost(gi));
        let ghost sp1 = *self;
        let g1 = if grand == last1 { hi } else { grand };
        let last2 = (self.nodes.len() - 1) as u32;
        proof {
            assert(dead.remove(hi as int) =~= set![lo as int]);
        }
        let ghost dead2 = set![lo as int];
        let ghost g1i = g1 as int;
        self.prepare_node_removal(lo, Ghost(dead2), Ghost(g1i));
        let g2 = if g1 == last2 { lo } else { g1 };
        proof {
            assert(set![lo as int].remove(lo as int) =~= Set::<int>::empty());
            Self::lemma_same_payloads_trans(&sp1, &sd, &o);
            Self::lemma_same_payloads_trans(self, &sp1, &o);
        }
        let ghost s2 = *self;
        if grand != 0 {
            let ghost s1 = *self;
            proof {
                assert(self.alive(Set::empty(), g2 as int)) by {
                    assert(self.root() != 0);
                }
                assert(self.pool()[g2 as int].child1.kind == NODE);
                assert(set![g2 as int, self.pool()[g2 as int].parent as int].contains(g2 as int));
                assert(self.boxes_ok(Set::empty(), set![g2 as int, self.pool()[g2 as int].parent as int]));
            }
            self.refit_from(g2);
            proof {
                Self::lemma_refit_keeps_leaf_boxes(&s1, self);
                Self::lemma_same_payloads_refl(self, &s1);
                Self::lemma_same_payloads_trans(self, &s1, &o);
                Self::lemma_remove_post(&o, &sd, &sp1, &s2, self, shape);
            }
        } else {
            proof {
                assert(self.boxes_ok(Set::empty(), Set::empty())) by {
                    assert forall|i: int| self.alive(Set::empty(), i) && !Set::<int>::empty().contains(i) implies #[trigger] self.box_ok(i) by {
                        assert(self.box_ok(i) || set![0int].contains(i));
                    }
                }
                Self::lemma_remove_post(&o, &sd, &sp1, &s2, self, shape);
            }
        }
        Ok(())
    }

    proof fn lemma_remove_post(o: &Bvh<G>, sd: &Bvh<G>, sp1: &Bvh<G>, s2: &Bvh<G>, f: &Bvh<G>, shape: TaggedRef)
        requires
            o.wf(),
            o.is_inserted(shape),
            o.record_of(shape).parent_idx.index != o.root(),
            Self::detached(o, sd, shape),
            ({
                let l = o.record_of(shape).parent_idx.index as int;
                let p = o.pool()[l].parent as int;
                let hi = if l > p { l } else { p };
                let lo = if l > p { p } else { l };
                &&& sd.shape_ok(set![l, p])
                &&& Self::renamed_from(sd, sp1, set![l, p], hi)
                &&& sp1.pool().len() == sd.pool().len() - 1
                &&& Self::renamed_from(sp1, s2, set![lo], lo)
                &&& s2.pool().len() == sp1.pool().len() - 1
            }),
            sd.same_payloads(o),
            sp1.same_payloads(sd),
            f.store() == s2.store(),
            f.pool().len() == s2.pool().len(),
            f.root() == s2.root(),
            forall|i: int|
                0 <= i < s2.pool().len() && s2.pool()[i].child1.kind != NODE ==> #[trigger] f.pool()[i] == s2.pool()[i],
            o.window_size() == 0 ==> f.same_topology(s2),
        ensures
            ({
                let l = o.record_of(shape).parent_idx.index as int;
                let p = o.pool()[l].parent as int;
                let pn = o.pool()[p];
                let sib = if pn.child1.index == l { pn.child2.index as int } else { pn.child1.index as int };
                let g = pn.parent as int;
                &&& o.count() != 1
                &&& f.pool().len() == o.pool().len() - 2
                &&& f.root() == if g == 0 {
                    Self::removal_slot(o, shape, sib)
                } else {
                    Self::removal_slot(o, shape, o.root())
                }
                &&& f.record_of(shape) == PrimitiveRecord { parent_idx: TaggedRef::spec_null(), ..o.record_of(shape) }
                &&& forall|r: TaggedRef|
                    o.valid_shape(r) && r != shape ==> #[trigger] f.record_of(r) == if o.record_of(r).parent_idx
                        == TaggedRef::spec_null() {
                        o.record_of(r)
                    } else {
                        PrimitiveRecord {
                            parent_idx: TaggedRef::spec_node(Self::removal_slot(o, shape, o.record_of(r).parent_idx.index as int)),
                            ..o.record_of(r)
                        }
                    }
                &&& forall|i: int|
                    #![trigger o.pool()[i]]
                    1 <= i < o.pool().len() && i != l && o.pool()[i].child1.kind != NODE ==> {
                        &&& f.pool()[Self::removal_slot(o, shape, i)].child1 == o.pool()[i].child1
                        &&& f.pool()[Self::removal_slot(o, shape, i)].aabb == o.pool()[i].aabb
                    }
                &&& o.window_size() == 0 ==> {
                    &&& f.pool()[Self::removal_slot(o, shape, sib)].parent == Self::removal_slot(o, shape, g)
                    &&& g != 0 ==> {
                        ||| f.pool()[Self::removal_slot(o, shape, g)].child1 == TaggedRef::spec_node(Self::removal_slot(o, shape, sib))
                        ||| f.pool()[Self::removal_slot(o, shape, g)].child2 == TaggedRef::spec_node(Self::removal_slot(o, shape, sib))
                    }
                }
            }),
    {
        let e = Set::<int>::empty();
        let n = o.pool().len() as int;
        let l = o.record_of(shape).parent_idx.index as int;
        let p = o.pool()[l].parent as int;
        let pn = o.pool()[p];
        let sib = if pn.child1.index == l { pn.child2.index as int } else { pn.child1.index as int };
        let g = pn.parent as int;
        let hi = if l > p { l } else { p };
        let lo = if l > p { p } else { l };
        let dead = set![l, p];
        let d2 = set![lo];
        let ren = |i: int| Self::removal_slot(o, shape, i);
        assert(o.record_ok(e, shape.kind - 1, shape.index as int));
        assert(o.node_ok(e, l));
        assert(o.parent_ok(e, l));
        assert(o.node_ok(e, p));
        assert(o.parent_ok(e, p));
        assert(o.parent_ok(e, sib));
        if g != 0 {
            assert(o.node_ok(e, g));
        }
        assert(o.count() != 1);
        // a slot in use after the detachment ends up, renamed, in use after both compactions
        assert forall|i: int| #![trigger sd.pool()[i]] sd.alive(dead, i) implies {
            let j = Self::moved_slot(n - 1, hi, i);
            &&& sp1.alive(d2, j)
            &&& s2.pool()[ren(i)] == Self::renamed_node(
                Self::renamed_node(sd.pool()[i], n - 1, hi, j),
                n - 2,
                lo,
                ren(i),
            )
        } by {
            let j = Self::moved_slot(n - 1, hi, i);
            assert(sd.pool()[i] == sd.pool()[i]);
            assert(sp1.pool()[j] == Self::renamed_node(sd.pool()[i], n - 1, hi, j));
            assert(sp1.pool()[j] == sp1.pool()[j]);
        }
        assert forall|r: TaggedRef| o.valid_shape(r) implies #[trigger] f.record_of(r) == s2.record_of(r) by {
            assert(f.records(r.kind - 1) == s2.records(r.kind - 1));
        }
        assert forall|r: TaggedRef| o.valid_shape(r) && r != shape implies #[trigger] f.record_of(r) == if o.record_of(r).parent_idx
            == TaggedRef::spec_null() {
            o.record_of(r)
        } else {
            PrimitiveRecord {
                parent_idx: TaggedRef::spec_node(ren(o.record_of(r).parent_idx.index as int)),
                ..o.record_of(r)
            }
        } by {
            assert(sd.record_of(r) == o.record_of(r));
            assert(sd.valid_shape(r));
            assert(sp1.records(r.kind - 1).len() == sd.records(r.kind - 1).len());
            assert(sp1.valid_shape(r));
            assert(sp1.record_of(r) == sp1.record_of(r));
            assert(o.record_ok(e, r.kind - 1, r.index as int));
        }
        assert(sd.valid_shape(shape));
        assert(sp1.records(shape.kind - 1).len() == sd.records(shape.kind - 1).len());
        assert(sp1.valid_shape(shape));
        assert(sp1.record_of(shape) == sp1.record_of(shape));
        assert(f.record_of(shape) == s2.record_of(shape));
        assert forall|i: int|
            #![trigger o.pool()[i]]
            1 <= i < o.pool().len() && i != l && o.pool()[i].child1.kind != NODE implies {
                &&& f.pool()[ren(i)].child1 == o.pool()[i].child1
                &&& f.pool()[ren(i)].aabb == o.pool()[i].aabb
            } by {
            assert(i != p);
            assert(sd.alive(dead, i));
            assert(sd.pool()[i] == sd.pool()[i]);
            assert(sd.pool()[i].child1 == o.pool()[i].child1 && sd.pool()[i].aabb == o.pool()[i].aabb);
            let j = Self::moved_slot(n - 1, hi, i);
            assert(sp1.alive(d2, j));
            assert(0 <= ren(i) < s2.pool().len());
            assert(s2.pool()[ren(i)].child1 == o.pool()[i].child1);
            assert(s2.pool()[ren(i)].aabb == o.pool()[i].aabb);
            assert(f.pool()[ren(i)] == s2.pool()[ren(i)]);
        }
        assert(sd.alive(dead, sib));
        assert(sd.pool()[sib] == sd.pool()[sib]);
        if g != 0 {
            assert(sd.alive(dead, g));
            assert(sd.pool()[g] == sd.pool()[g]);
        } else {
            assert(sd.root() == sib);
        }
        if g != 0 {
            assert(sd.root() == o.root());
            assert(sd.alive(dead, o.root())) by {
                assert(o.alive(e, o.root()));
            }
        }
        if o.window_size() == 0 {
            assert(f.pool()[ren(sib)] == f.pool()[ren(sib)]);
            if g != 0 {
                assert(f.pool()[ren(g)] == f.pool()[ren(g)]);
            }
        }
    }

    proof fn lemma_same_payloads_trans(a: &Bvh<G>, b: &Bvh<G>, c: &Bvh<G>)
        requires
            a.same_payloads(b),
            b.same_payloads(c),
        ensures
            a.same_payloads(c),
    {
        assert forall|k: int| 0 <= k < a.kinds() implies #[trigger] a.records(k).len() == c.records(k).len() by {
            assert(b.records(k).len() == c.records(k).len());
        }
        assert forall|k: int, j: int| 0 <= k < a.kinds() && 0 <= j < a.records(k).len() implies {
            &&& (#[trigger] a.records(k)[j]).geometry == c.records(k)[j].geometry
            &&& a.records(k)[j].slot_index == c.records(k)[j].slot_index
        } by {
            assert(a.records(k).len() == b.records(k).len());
            assert(b.records(k)[j].geometry == c.records(k)[j].geometry);
        }
    }

    /// `s` is `o` with the only leaf, the root, removed and its primitive
    /// unlinked.
    pub open spec fn emptied(o: &Bvh<G>, s: &Bvh<G>, shape: TaggedRef) -> bool {
        &&& s.pool() == o.pool().take(1)
        &&& s.root() == 0
        &&& s.count() == 0
        &&& s.window_size() == o.window_size()
        &&& s.depths() == o.depths().take(1)
        &&& s.bound() == o.bound()
        &&& s.kinds() == o.kinds()
        &&& forall|k: int| 0 <= k < KIND_COUNT ==> #[trigger] s.records(k).len() == o.records(k).len()
        &&& forall|r: TaggedRef|
            o.valid_shape(r) ==> #[trigger] s.record_of(r) == if r == shape {
                PrimitiveRecord { parent_idx: TaggedRef::spec_null(), ..o.record_of(r) }
            } else {
                o.record_of(r)
            }
    }

    proof fn lemma_emptied(o: &Bvh<G>, s: &Bvh<G>, shape: TaggedRef)
        requires
            o.wf(),
            o.is_inserted(shape),
            o.record_of(shape).parent_idx.index == o.root(),
            o.pool().len() == 2,
            Self::emptied(o, s, shape),
        ensures
            s.wf(),
            s.leaf_boxes() == o.leaf_boxes().remove(shape),
            s.same_payloads(o),
    {
        let e = Set::<int>::empty();
        assert forall|r2: TaggedRef| #[trigger] o.is_inserted(r2) implies r2 == shape by {
            assert(o.record_ok(e, r2.kind - 1, r2.index as int));
            assert(o.record_ok(e, shape.kind - 1, shape.index as int));
        }
        assert forall|k2: int| 0 <= k2 < KIND_COUNT implies #[trigger] s.records(k2).len() < u32::MAX by {
            assert(o.records(k2).len() < u32::MAX);
        }
        assert forall|i: int| 0 <= i < 1 implies #[trigger] s.depths()[i] <= s.bound() by {
            assert(o.depths()[i] <= o.bound());
        }
        assert forall|k2: int, j2: int|
            0 <= k2 < KIND_COUNT && 0 <= j2 < s.records(k2).len() implies #[trigger] s.record_ok(e, k2, j2) by {
            let r2 = TaggedRef { kind: (k2 + 1) as u32, index: j2 as u32 };
            assert(o.valid_shape(r2));
            assert(s.record_of(r2) == s.records(k2)[j2]);
            assert(o.record_ok(e, k2, j2));
            if r2 != shape {
                assert(!o.is_inserted(r2));
            }
        }
        assert(s.shape_ok(e));
        assert forall|r2: TaggedRef| !#[trigger] s.is_inserted(r2) by {
            if s.valid_shape(r2) && r2 != shape {
                assert(!o.is_inserted(r2));
            }
        }
        assert(s.leaf_boxes() =~= o.leaf_boxes().remove(shape));
        assert forall|k2: int| 0 <= k2 < s.kinds() implies #[trigger] s.records(k2).len() == o.records(k2).len() by {}
        assert forall|k2: int, j2: int| 0 <= k2 < s.kinds() && 0 <= j2 < s.records(k2).len() implies {
            &&& (#[trigger] s.records(k2)[j2]).geometry == o.records(k2)[j2].geometry
            &&& s.records(k2)[j2].slot_index == o.records(k2)[j2].slot_index
        } by {
            let r2 = TaggedRef { kind: (k2 + 1) as u32, index: j2 as u32 };
            assert(o.valid_shape(r2));
            assert(s.record_of(r2) == s.records(k2)[j2]);
        }
    }

    /// `s` is `o` with the leaf of `shape` cut out: the leaf's sibling now
    /// hangs from the leaf's grandparent (or is the root), and the
    /// primitive is unlinked. The leaf and its parent stay in the pool.
    pub open spec fn detached(o: &Bvh<G>, s: &Bvh<G>, shape: TaggedRef) -> bool {
        let l = o.record_of(shape).parent_idx.index as int;
        let p = o.pool()[l].parent as int;
        let pn = o.pool()[p];
        let sib = if pn.child1.index == l { pn.child2.index as int } else { pn.child1.index as int };
        let g = pn.parent as int;
        &&& s.pool().len() == o.pool().len()
        &&& s.pool()[sib] == BvhNode { parent: g as u32, ..o.pool()[sib] }
        &&& g != 0 ==> s.pool()[g] == if o.pool()[g].child1.index == p {
            BvhNode { child1: TaggedRef::spec_node(sib), ..o.pool()[g] }
        } else {
            BvhNode { child2: TaggedRef::spec_node(sib), ..o.pool()[g] }
        }
        &&& forall|i: int| 0 <= i < o.pool().len() && i != sib && (g == 0 || i != g) ==> #[trigger] s.pool()[i] == o.pool()[i]
        &&& g == 0 ==> s.root() == sib
        &&& g != 0 ==> s.root() == o.root()
        &&& s.count() == o.count()
        &&& s.window_size() == o.window_size()
        &&& s.depths() == o.depths()
        &&& s.bound() == o.bound()
        &&& s.kinds() == o.kinds()
        &&& forall|k: int| 0 <= k < KIND_COUNT ==> #[trigger] s.records(k).len() == o.records(k).len()
        &&& forall|r: TaggedRef|
            o.valid_shape(r) ==> #[trigger] s.record_of(r) == if r == shape {
                PrimitiveRecord { parent_idx: TaggedRef::spec_null(), ..o.record_of(r) }
            } else {
                o.record_of(r)
            }
    }

    proof fn lemma_detached(o: &Bvh<G>, s: &Bvh<G>, shape: TaggedRef)
        requires
            o.wf(),
            o.is_inserted(shape),
            o.record_of(shape).parent_idx.index != o.root(),
            Self::detached(o, s, shape),
        ensures
            ({
                let l = o.record_of(shape).parent_idx.index as int;
                let p = o.pool()[l].parent as int;
                let dead = set![l, p];
                &&& s.shape_ok(dead)
                &&& s.boxes_ok(dead, set![o.pool()[p].parent as int])
                &&& s.count() == s.pool().len() - 1
                &&& s.leaf_boxes() == o.leaf_boxes().remove(shape)
                &&& s.same_payloads(o)
            }),
    {
        let e = Set::<int>::empty();
        let l = o.record_of(shape).parent_idx.index as int;
        let p = o.pool()[l].parent as int;
        let pn = o.pool()[p];
        let sib = if pn.child1.index == l { pn.child2.index as int } else { pn.child1.index as int };
        let g = pn.parent as int;
        let dead = set![l, p];
        assert(o.record_ok(e, shape.kind - 1, shape.index as int));
        assert(o.node_ok(e, l));
        assert(o.parent_ok(e, l));
        assert(o.node_ok(e, p));
        assert(o.parent_ok(e, p));
        assert(o.parent_ok(e, sib));
        assert(sib != l && sib != p && g != l && g != p && g != sib);
        if g != 0 {
            assert(o.node_ok(e, g));
        }
        assert forall|k2: int| 0 <= k2 < KIND_COUNT implies #[trigger] s.records(k2).len() < u32::MAX by {
            assert(o.records(k2).len() < u32::MAX);
        }
        assert forall|i: int| 0 <= i < s.pool().len() implies #[trigger] s.depths()[i] <= s.bound() by {
            assert(o.depths()[i] <= o.bound());
        }
        assert(s.root() != 0 && s.alive(dead, s.root())) by {
            assert(o.alive(e, o.root()));
        }
        assert forall|i: int| s.alive(dead, i) implies #[trigger] s.node_ok(dead, i) by {
            assert(o.node_ok(e, i));
            let nd = o.pool()[i];
            if nd.child1.kind == NODE {
                assert(o.parent_ok(e, nd.child1.index as int));
                assert(o.parent_ok(e, nd.child2.index as int));
            } else {
                assert(o.record_of(nd.child1).parent_idx == TaggedRef::spec_node(i));
                assert(nd.child1 != shape);
            }
        }
        assert forall|i: int| s.alive(dead, i) implies #[trigger] s.parent_ok(dead, i) by {
            assert(o.parent_ok(e, i));
            if i != o.root() {
                let q = o.pool()[i].parent as int;
                assert(o.node_ok(e, q));
            }
        }
        assert forall|k2: int, j2: int|
            0 <= k2 < KIND_COUNT && 0 <= j2 < s.records(k2).len() implies #[trigger] s.record_ok(dead, k2, j2) by {
            let r2 = TaggedRef { kind: (k2 + 1) as u32, index: j2 as u32 };
            assert(o.valid_shape(r2));
            assert(s.record_of(r2) == s.records(k2)[j2]);
            assert(o.record_ok(e, k2, j2));
            let lk = o.records(k2)[j2].parent_idx;
            if lk != TaggedRef::spec_null() {
                assert(o.node_ok(e, lk.index as int));
            }
        }
        assert(s.shape_ok(dead));
        assert forall|i: int| s.alive(dead, i) && !set![g].contains(i) implies #[trigger] s.box_ok(i) by {
            assert(o.box_ok(i));
            assert(o.node_ok(e, i));
        }
        assert forall|r2: TaggedRef| #[trigger] s.is_inserted(r2) == (o.is_inserted(r2) && r2 != shape) by {}
        assert forall|r2: TaggedRef| #[trigger] o.is_inserted(r2) && r2 != shape implies s.pool()[s.record_of(r2).parent_idx.index as int].aabb == o.pool()[o.record_of(r2).parent_idx.index as int].aabb by {
            assert(o.record_ok(e, r2.kind - 1, r2.index as int));
        }
        assert(s.leaf_boxes() =~= o.leaf_boxes().remove(shape));
        assert forall|k2: int| 0 <= k2 < s.kinds() implies #[trigger] s.records(k2).len() == o.records(k2).len() by {}
        assert forall|k2: int, j2: int| 0 <= k2 < s.kinds() && 0 <= j2 < s.records(k2).len() implies {
            &&& (#[trigger] s.records(k2)[j2]).geometry == o.records(k2)[j2].geometry
            &&& s.records(k2)[j2].slot_index == o.records(k2)[j2].slot_index
        } by {
            let r2 = TaggedRef { kind: (k2 + 1) as u32, index: j2 as u32 };
            assert(o.valid_shape(r2));
            assert(s.record_of(r2) == s.records(k2)[j2]);
        }
    }

    /// `s` is `a` after slot `shape.index` of the array of `shape`'s kind was
    /// swap-removed: the last record moved into it, took its slot number,
    /// and its leaf (if any) was repointed at the new slot.
    pub open spec fn slot_moved(a: &Bvh<G>, s: &Bvh<G>, shape: TaggedRef) -> bool {
        let k = shape.kind - 1;
        let j = shape.index as int;
        let last = a.records(k).len() - 1;
        let mv = a.records(k)[last];
        let l = mv.parent_idx.index as int;
        &&& s.kinds() == a.kinds()
        &&& forall|k2: int| 0 <= k2 < a.kinds() && k2 != k ==> #[trigger] s.records(k2) == a.records(k2)
        &&& s.records(k).len() == last
        &&& j < last ==> s.records(k)[j] == PrimitiveRecord { slot_index: j as u32, ..mv }
        &&& forall|j2: int| 0 <= j2 < last && j2 != j ==> #[trigger] s.records(k)[j2] == a.records(k)[j2]
        &&& j < last && mv.parent_idx != TaggedRef::spec_null() ==> s.pool() == a.pool().update(
            l,
            BvhNode { child1: shape, ..a.pool()[l] },
        )
        &&& !(j < last && mv.parent_idx != TaggedRef::spec_null()) ==> s.pool() == a.pool()
        &&& s.root() == a.root()
        &&& s.count() == a.count()
        &&& s.window_size() == a.window_size()
        &&& s.depths() == a.depths()
        &&& s.bound() == a.bound()
    }

    /// `m` with the entry under `from` moved to `to`.
    pub open spec fn relocated(m: Map<TaggedRef, Aabb>, from: TaggedRef, to: TaggedRef) -> Map<TaggedRef, Aabb> {
        if m.contains_key(from) {
            m.remove(from).insert(to, m[from])
        } else {
            m
        }
    }

    proof fn lemma_slot_moved(a: &Bvh<G>, s: &Bvh<G>, shape: TaggedRef)
        requires
            a.wf(),
            a.valid_shape(shape),
            !a.is_inserted(shape),
            Self::slot_moved(a, s, shape),
        ensures
            s.wf(),
            s.leaf_boxes() == Self::relocated(
                a.leaf_boxes(),
                TaggedRef { kind: shape.kind, index: (a.records(shape.kind - 1).len() - 1) as u32 },
                shape,
            ),
    {
        let e = Set::<int>::empty();
        let k = shape.kind - 1;
        let j = shape.index as int;
        let last = a.records(k).len() - 1;
        let mv = a.records(k)[last];
        let l = mv.parent_idx.index as int;
        let from = TaggedRef { kind: shape.kind, index: last as u32 };
        assert(a.record_ok(e, k, last));
        assert(a.record_ok(e, k, j));
        let linked = j < last && mv.parent_idx != TaggedRef::spec_null();
        if linked {
            assert(a.node_ok(e, l));
        }
        assert forall|k2: int| 0 <= k2 < KIND_COUNT implies #[trigger] s.records(k2).len() < u32::MAX by {
            assert(a.records(k2).len() < u32::MAX);
        }
        if s.root() == 0 {
            assert forall|i: int| !#[trigger] s.alive(e, i) by {
                assert(!a.alive(e, i));
            }
        }
        assert forall|i: int| 0 <= i < s.pool().len() implies #[trigger] s.depths()[i] <= s.bound() by {
            assert(a.depths()[i] <= a.bound());
        }
        assert forall|i: int| s.alive(e, i) implies #[trigger] s.node_ok(e, i) by {
            assert(a.node_ok(e, i));
            let nd = a.pool()[i];
            if nd.child1.kind != NODE {
                let k2 = nd.child1.kind - 1;
                let j2 = nd.child1.index as int;
                assert(a.record_ok(e, k2, j2));
                if linked && i == l {
                } else {
                    assert(nd.child1 != shape);
                    assert(nd.child1 != from || !linked);
                    if k2 == k && j2 == last {
                        assert(i == l);
                    }
                }
            }
        }
        assert forall|i: int| s.alive(e, i) implies #[trigger] s.parent_ok(e, i) by {
            assert(a.parent_ok(e, i));
        }
        assert forall|k2: int, j2: int|
            0 <= k2 < KIND_COUNT && 0 <= j2 < s.records(k2).len() implies #[trigger] s.record_ok(e, k2, j2) by {
            if k2 == k && j2 == j {
            } else {
                assert(a.record_ok(e, k2, j2));
            }
        }
        assert(s.shape_ok(e));
        assert forall|i: int| s.alive(e, i) && !Set::<int>::empty().contains(i) implies #[trigger] s.box_ok(i) by {
            assert(a.box_ok(i));
            assert(a.node_ok(e, i));
        }
        assert forall|r: TaggedRef| #[trigger] s.is_inserted(r) == (if r == shape {
            a.is_inserted(from) && j < last
        } else {
            a.is_inserted(r) && r != from
        }) by {
            if r.spec_is_shape() && r.kind - 1 == k {
                if r != shape && r.index < last {
                    assert(s.records(k)[r.index as int] == a.records(k)[r.index as int]);
                }
            } else if r.spec_is_shape() {
                assert(s.records(r.kind - 1) == a.records(r.kind - 1));
            }
        }
        assert forall|r: TaggedRef| #[trigger] s.is_inserted(r) implies s.pool()[s.record_of(r).parent_idx.index as int].aabb == (if r == shape {
            a.pool()[a.record_of(from).parent_idx.index as int].aabb
        } else {
            a.pool()[a.record_of(r).parent_idx.index as int].aabb
        }) by {
            assert(s.record_ok(e, r.kind - 1, r.index as int));
            assert(s.pool().len() == a.pool().len());
            if r == shape {
                assert(a.record_ok(e, k, last));
            }
            if r.kind - 1 == k {
                if r != shape {
                    assert(s.records(k)[r.index as int] == a.records(k)[r.index as int]);
                }
            } else {
                assert(s.records(r.kind - 1) == a.records(r.kind - 1));
            }
        }
        assert(s.leaf_boxes() =~= Self::relocated(a.leaf_boxes(), from, shape));
    }

    /// Destroys a primitive: its leaf leaves the tree, the last record of
    /// its kind moves into its slot, and the moved record's leaf is
    /// repointed at that slot. Returns the destroyed payload.
    pub fn destroy_primitive(&mut self, shape: TaggedRef) -> (r: Result<G, BvhError>)
        requires
            old(self).wf(),
        ensures
            final(self).wf(),
            r is Err <==> !old(self).valid_shape(shape),
            r matches Err(e) ==> e == BvhError::InvalidShape && *final(self) == *old(self),
            r matches Ok(g) ==> final(self).destroyed_from(old(self), shape, g),
    {
        if !self.check_shape(shape) {
            return Err(BvhError::InvalidShape);
        }
        let ghost o = *self;
        let removed = self.remove_leaf(shape);
        let ghost a = *self;
        proof {
            if o.is_inserted(shape) {
                assert(!o.leaf_boxes().remove(shape).contains_key(shape));
                assert(!a.leaf_boxes().contains_key(shape));
            }
            assert(!a.is_inserted(shape));
            assert(a.record_of(shape).geometry == o.record_of(shape).geometry);
        }
        let k = (shape.kind - 1) as usize;
        let j = shape.index as usize;
        let rec = self.shapes[k].swap_remove(j);
        if j < self.shapes[k].len() {
            self.shapes[k][j].slot_index = j as u32;
            let link = self.shapes[k][j].parent_idx;
            if link != TaggedRef::null() {
                proof {
                    let last = a.records(k as int).len() - 1;
                    assert(a.record_ok(Set::empty(), k as int, last));
                }
                self.nodes[link.index as usize].child1 = shape;
            }
        }
        proof {
            assert(Self::slot_moved(&a, self, shape));
            Self::lemma_slot_moved(&a, self, shape);
            let k2 = k as int;
            let last = o.records(k2).len() - 1;
            assert(a.records(k2).len() == o.records(k2).len());
            assert forall|j2: int| 0 <= j2 < last && j2 != shape.index implies (#[trigger] self.records(k2)[j2]).geometry
                == o.records(k2)[j2].geometry by {
                assert(a.records(k2)[j2].geometry == o.records(k2)[j2].geometry);
            }
            if shape.index < last {
                assert(a.records(k2)[last].geometry == o.records(k2)[last].geometry);
            }
            assert forall|k3: int, j2: int|
                0 <= k3 < KIND_COUNT && k3 != k2 && 0 <= j2 < o.records(k3).len() implies (#[trigger] self.records(k3)[j2]).geometry
                    == o.records(k3)[j2].geometry by {
                assert(a.records(k3).len() == o.records(k3).len());
                assert(a.records(k3)[j2].geometry == o.records(k3)[j2].geometry);
            }
            assert forall|k3: int| 0 <= k3 < KIND_COUNT && k3 != k2 implies #[trigger] self.records(k3).len()
                == o.records(k3).len() by {
                assert(a.records(k3).len() == o.records(k3).len());
            }
            if !o.is_inserted(shape) {
                assert(o.leaf_boxes().remove(shape) =~= o.leaf_boxes());
            }
        }
        Ok(rec.geometry)
    }

}

impl<G> Bvh<G> {
    /// The number of nodes in use.
    pub fn node_count(&self) -> (r: u32)
        ensures
            r == self.count(),
    {
        self.node_count
    }

    /// The root slot, `0` when the tree is empty.
    pub fn root_index(&self) -> (r: u32)
        ensures
            r == self.root(),
    {
        self.root_index
    }

    /// How many pool slots a local rotation scans.
    pub fn window(&self) -> (r: u32)
        ensures
            r == self.window_size(),
    {
        self.window
    }

    /// The node pool, slot `0` included, as handed to a traversal.
    pub fn nodes(&self) -> (r: &Vec<BvhNode>)
        ensures
            r@ == self.pool(),
    {
        &self.nodes
    }

    /// The number of primitives of kind tag `kind` (`0` for an unknown tag).
    pub fn primitive_count(&self, kind: u32) -> (r: usize)
        requires
            self.wf(),
        ensures
            1 <= kind <= KIND_COUNT ==> r == self.records(kind - 1).len(),
            !(1 <= kind <= KIND_COUNT) ==> r == 0,
    {
        if kind < 1 || kind > KIND_COUNT {
            return 0;
        }
        self.shapes[(kind - 1) as usize].len()
    }

    /// The record of the primitive `r`, if it exists.
    pub fn primitive(&self, r: TaggedRef) -> (res: Option<&PrimitiveRecord<G>>)
        requires
            self.wf(),
        ensures
            res is Some <==> self.valid_shape(r),
            res matches Some(rec) ==> *rec == self.record_of(r),
    {
        if !self.check_shape(r) {
            return None;
        }
        Some(&self.shapes[(r.kind - 1) as usize][r.index as usize])
    }

    /// The slot of the leaf of the primitive `r`, if it is in the tree.
    pub fn leaf_of(&self, r: TaggedRef) -> (res: Option<u32>)
        requires
            self.wf(),
        ensures
            res is Some <==> self.is_inserted(r),
            res matches Some(l) ==> {
                &&& self.live(l as int)
                &&& self.pool()[l as int].child1 == r
                &&& self.pool()[l as int].aabb == self.leaf_boxes()[r]
            },
    {
        if !self.check_shape(r) {
            return None;
        }
        let link = self.shapes[(r.kind - 1) as usize][r.index as usize].parent_idx;
        if link == TaggedRef::null() {
            return None;
        }
        proof {
            assert(self.record_ok(Set::empty(), r.kind - 1, r.index as int));
        }
        Some(link.index)
    }

    /// The box of the leaf of the primitive `r`, if it is in the tree.
    pub fn leaf_box(&self, r: TaggedRef) -> (res: Option<Aabb>)
        requires
            self.wf(),
        ensures
            res is Some <==> self.is_inserted(r),
            res matches Some(b) ==> b == self.leaf_boxes()[r],
    {
        match self.leaf_of(r) {
            Some(l) => Some(self.nodes[l as usize].aabb),
            None => None,
        }
    }

    /// Replaces the payload of the primitive `r`; its place in the tree is
    /// kept (refit it if its box changed).
    pub fn set_geometry(&mut self, r: TaggedRef, geometry: G) -> (res: Result<(), BvhError>)
        requires
            old(self).wf(),
        ensures
            final(self).wf(),
            res is Err <==> !old(self).valid_shape(r),
            res matches Err(e) ==> e == BvhError::InvalidShape && *final(self) == *old(self),
            res is Ok ==> {
                &&& final(self).record_of(r) == PrimitiveRecord { geometry, ..old(self).record_of(r) }
                &&& final(self).same_but_records(old(self), r.kind - 1)
                &&& final(self).records(r.kind - 1).len() == old(self).records(r.kind - 1).len()
                &&& forall|j: int|
                    0 <= j < old(self).records(r.kind - 1).len() && j != r.index ==> #[trigger] final(self).records(
                        r.kind - 1,
                    )[j] == old(self).records(r.kind - 1)[j]
                &&& final(self).leaf_boxes() == old(self).leaf_boxes()
            },
    {
        if !self.check_shape(r) {
            return Err(BvhError::InvalidShape);
        }
        let ghost o = *self;
        let k = (r.kind - 1) as usize;
        self.shapes[k][r.index as usize].geometry = geometry;
        proof {
            let e = Set::<int>::empty();
            assert forall|k2: int| 0 <= k2 < KIND_COUNT implies #[trigger] self.records(k2).len() < u32::MAX by {
                assert(o.records(k2).len() < u32::MAX);
            }
            if self.root() == 0 {
                assert forall|i: int| !#[trigger] self.alive(e, i) by {
                    assert(!o.alive(e, i));
                }
            }
            assert forall|i: int| self.alive(e, i) implies #[trigger] self.node_ok(e, i) by {
                assert(o.node_ok(e, i));
            }
            assert forall|i: int| self.alive(e, i) implies #[trigger] self.parent_ok(e, i) by {
                assert(o.parent_ok(e, i));
            }
            assert forall|k2: int, j2: int|
                0 <= k2 < KIND_COUNT && 0 <= j2 < self.records(k2).len() implies #[trigger] self.record_ok(e, k2, j2) by {
                assert(o.record_ok(e, k2, j2));
            }
            assert forall|i: int| self.alive(e, i) && !Set::<int>::empty().contains(i) implies #[trigger] self.box_ok(i) by {
                assert(o.box_ok(i));
            }
            assert forall|r2: TaggedRef| #[trigger] self.is_inserted(r2) == o.is_inserted(r2) by {}
            assert(self.leaf_boxes() =~= o.leaf_boxes());
        }
        Ok(())
    }

    /// The payload of the primitive `r`, if it exists.
    pub fn geometry(&self, r: TaggedRef) -> (res: Option<&G>)
        requires
            self.wf(),
        ensures
            res is Some <==> self.valid_shape(r),
            res matches Some(g) ==> *g == self.record_of(r).geometry,
    {
        if !self.check_shape(r) {
            return None;
        }
        Some(&self.shapes[(r.kind - 1) as usize][r.index as usize].geometry)
    }
}


} // verus!
