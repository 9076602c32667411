//! Laws of the hierarchy, each proved from what the operations guarantee.
use vstd::prelude::*;

use crate::aabb::{Aabb, union_spec, contains_spec};
use crate::bvh::Bvh;
use crate::node::{TaggedRef, NODE};

verus! {

impl<G> Bvh<G> {
    /// In every state the operations leave behind, each internal node's box
    /// is the union of its two children's boxes.
    pub proof fn lemma_union_invariant(t: &Bvh<G>, i: int)
        requires
            t.wf(),
            t.live(i),
            t.pool()[i].child1.kind == NODE,
        ensures
            t.live(t.pool()[i].child1.index as int),
            t.live(t.pool()[i].child2.index as int),
            t.pool()[i].aabb == union_spec(
                t.pool()[t.pool()[i].child1.index as int].aabb,
                t.pool()[t.pool()[i].child2.index as int].aabb,
            ),
    {
        assert(t.node_ok(Set::empty(), i));
        assert(t.box_ok(i));
    }

    /// Exactly one node in use has the null parent, and it is the one the
    /// root index names; the root is in use whenever the tree is not empty.
    pub proof fn lemma_single_root(t: &Bvh<G>, i: int)
        requires
            t.wf(),
            t.live(i),
        ensures
            t.pool()[i].parent == 0 <==> i == t.root(),
            t.count() > 0 <==> t.live(t.root()),
    {
        assert(t.parent_ok(Set::empty(), i));
        if t.root() == 0 {
            assert(!t.alive(Set::empty(), i));
        }
    }

    /// Inserting a primitive and refitting it at once to the same box
    /// leaves every leaf box as the insertion left it; with rotation
    /// switched off it leaves the whole pool as it was.
    pub proof fn lemma_refit_round_trip(t0: &Bvh<G>, t1: &Bvh<G>, t2: &Bvh<G>, shape: TaggedRef, aabb: Aabb)
        requires
            t0.wf(),
            t1.inserted_from(t0, shape, aabb),
            t2.refitted_from(t1, shape, aabb),
        ensures
            t2.leaf_boxes() == t1.leaf_boxes(),
            t1.leaf_boxes()[shape] == aabb,
            t1.window_size() == 0 ==> t2.pool() == t1.pool(),
    {
        assert(t1.leaf_boxes().insert(shape, aabb) =~= t1.leaf_boxes());
    }

    /// After a removal, every internal node in use has two children in use
    /// that name it as their parent, and every other node's parent is in
    /// use and names it as a child.
    pub proof fn lemma_compaction_integrity(t0: &Bvh<G>, t1: &Bvh<G>, shape: TaggedRef, i: int)
        requires
            t0.wf(),
            t1.removed_from(t0, shape),
            t1.live(i),
        ensures
            t1.pool()[i].self_index == i,
            t1.pool()[i].child1.kind == NODE ==> {
                &&& t1.live(t1.pool()[i].child1.index as int)
                &&& t1.live(t1.pool()[i].child2.index as int)
                &&& t1.pool()[t1.pool()[i].child1.index as int].parent == i
                &&& t1.pool()[t1.pool()[i].child2.index as int].parent == i
            },
            i != t1.root() ==> {
                let p = t1.pool()[i].parent as int;
                &&& t1.live(p)
                &&& t1.pool()[p].child1.kind == NODE
                &&& (t1.pool()[p].child1.index == i || t1.pool()[p].child2.index == i)
            },
    {
        assert(t1.node_ok(Set::empty(), i));
        assert(t1.parent_ok(Set::empty(), i));
    }

    /// When destroying a primitive moves the last primitive of its kind into
    /// the freed slot, the moved primitive is found under its new slot: its
    /// leaf names that slot and keeps its box, and the slot holds its
    /// payload.
    pub proof fn lemma_slot_integrity(t0: &Bvh<G>, t1: &Bvh<G>, shape: TaggedRef, g: G)
        requires
            t0.wf(),
            t0.valid_shape(shape),
            t1.destroyed_from(t0, shape, g),
            shape.index < t0.records(shape.kind - 1).len() - 1,
        ensures
            ({
                let k = shape.kind - 1;
                let last = t0.records(k).len() - 1;
                let from = TaggedRef { kind: shape.kind, index: last as u32 };
                &&& t1.records(k)[shape.index as int].geometry == t0.records(k)[last].geometry
                &&& t1.is_inserted(shape) == t0.is_inserted(from)
                &&& t0.is_inserted(from) ==> {
                    &&& t1.leaf_boxes()[shape] == t0.leaf_boxes()[from]
                    &&& t1.pool()[t1.record_of(shape).parent_idx.index as int].child1 == shape
                }
            }),
    {
        let k = shape.kind - 1;
        let last = t0.records(k).len() - 1;
        let from = TaggedRef { kind: shape.kind, index: last as u32 };
        let m = t0.leaf_boxes().remove(shape);
        assert(from != shape);
        assert(m.contains_key(from) == t0.is_inserted(from));
        assert(t1.leaf_boxes().contains_key(shape) == t0.is_inserted(from));
        if t0.is_inserted(from) {
            assert(t1.leaf_boxes()[shape] == t0.leaf_boxes()[from]);
            assert(t1.record_ok(Set::empty(), k, shape.index as int));
        }
    }

    /// The box of every node on the path from a node up to the root holds
    /// that node's box; in particular, after a refit every ancestor of the
    /// refitted leaf holds its new box.
    pub proof fn lemma_ancestors_contain(t: &Bvh<G>, a: int, x: int)
        requires
            t.wf(),
            t.live(x),
            t.is_ancestor(a, x),
        ensures
            contains_spec(t.pool()[a].aabb, t.pool()[x].aabb),
        decreases t.depths()[x],
    {
        if x != a {
            let p = t.pool()[x].parent as int;
            assert(t.parent_ok(Set::empty(), x));
            assert(t.node_ok(Set::empty(), p));
            assert(t.box_ok(p));
            Self::lemma_ancestors_contain(t, a, p);
        }
    }

    /// After `refit_leaf(shape, aabb)`, every node on the root path of the
    /// primitive's leaf has a box that holds `aabb`.
    pub proof fn lemma_refit_grows_ancestors(t0: &Bvh<G>, t1: &Bvh<G>, shape: TaggedRef, aabb: Aabb, a: int)
        requires
            t0.wf(),
            t0.is_inserted(shape),
            t1.refitted_from(t0, shape, aabb),
            t1.is_ancestor(a, t1.record_of(shape).parent_idx.index as int),
        ensures
            contains_spec(t1.pool()[a].aabb, aabb),
    {
        assert(t1.leaf_boxes().contains_key(shape));
        assert(t1.leaf_boxes()[shape] == aabb);
        assert(t1.is_inserted(shape));
        let l = t1.record_of(shape).parent_idx.index as int;
        assert(t1.pool()[l].aabb == aabb);
        assert(t1.record_ok(Set::empty(), shape.kind - 1, shape.index as int));
        Self::lemma_ancestors_contain(t1, a, l);
    }

    /// With rotation switched off, a refit changes no node off the root
    /// path of the refitted leaf: unrelated subtrees keep their boxes.
    pub proof fn lemma_refit_spares_unrelated(t0: &Bvh<G>, t1: &Bvh<G>, shape: TaggedRef, aabb: Aabb, i: int)
        requires
            t0.wf(),
            t0.window_size() == 0,
            t1.refitted_from(t0, shape, aabb),
            0 <= i < t0.pool().len(),
            !t0.is_ancestor(i, t0.record_of(shape).parent_idx.index as int),
        ensures
            t1.pool()[i] == t0.pool()[i],
    {
    }
}

} // verus!
