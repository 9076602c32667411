use sdf_bvh::aabb::{aabb_union, Aabb, Point3};
use sdf_bvh::bvh::{Bvh, BvhError};
use sdf_bvh::node::{TaggedRef, CONE, CUBE, SPHERE, TORUS};

fn bx(a: (i32, i32, i32), b: (i32, i32, i32)) -> Aabb {
    Aabb { min: Point3 { x: a.0, y: a.1, z: a.2 }, max: Point3 { x: b.0, y: b.1, z: b.2 } }
}

/// A cube of side `2 r` centred at `(x, y, z)`.
fn ball(x: i32, y: i32, z: i32, r: i32) -> Aabb {
    bx((x - r, y - r, z - r), (x + r, y + r, z + r))
}

fn sphere(i: u32) -> TaggedRef {
    TaggedRef { kind: SPHERE, index: i }
}

/// Checks every structural property of a quiescent tree by walking the pool.
fn check_tree(t: &Bvh<u32>) {
    let nodes = t.nodes();
    let n = nodes.len();
    assert!(n >= 1);
    assert_eq!(t.node_count() as usize, n - 1);
    let root = t.root_index() as usize;
    if n == 1 {
        assert_eq!(root, 0);
    } else {
        assert!(root >= 1 && root < n);
    }
    let mut roots = 0;
    for i in 1..n {
        let nd = nodes[i];
        assert_eq!(nd.self_index as usize, i);
        if nd.parent == 0 {
            roots += 1;
            assert_eq!(i, root);
        } else {
            let p = nodes[nd.parent as usize];
            assert_eq!(p.child1.kind, 0);
            assert!(p.child1.index as usize == i || p.child2.index as usize == i);
        }
        if nd.child1.kind == 0 {
            let (a, b) = (nd.child1.index as usize, nd.child2.index as usize);
            assert_eq!(nd.child2.kind, 0);
            assert!(a >= 1 && a < n && b >= 1 && b < n && a != b);
            assert_eq!(nodes[a].parent as usize, i);
            assert_eq!(nodes[b].parent as usize, i);
            assert_eq!(nd.aabb, aabb_union(nodes[a].aabb, nodes[b].aabb));
        } else {
            assert_eq!(nd.child2, TaggedRef::null());
            let rec = t.primitive(nd.child1).unwrap();
            assert_eq!(rec.parent_idx, TaggedRef::node(i as u32));
        }
    }
    if n > 1 {
        assert_eq!(roots, 1);
    }
    for kind in 1..=6u32 {
        for j in 0..t.primitive_count(kind) {
            let r = TaggedRef { kind, index: j as u32 };
            let rec = t.primitive(r).unwrap();
            assert_eq!(rec.slot_index as usize, j);
            if rec.parent_idx != TaggedRef::null() {
                assert_eq!(rec.parent_idx.kind, 0);
                assert_eq!(nodes[rec.parent_idx.index as usize].child1, r);
            }
        }
    }
}

fn root_box(t: &Bvh<u32>) -> Aabb {
    t.nodes()[t.root_index() as usize].aabb
}

/// Pushes and inserts a sphere with payload `id` and box `b`.
fn add_sphere(t: &mut Bvh<u32>, id: u32, b: Aabb) -> TaggedRef {
    let j = t.push_primitive(SPHERE, id).unwrap();
    let r = sphere(j);
    t.insert_leaf(r, b).unwrap();
    r
}

#[test]
fn new_tree_is_empty_with_a_sentinel() {
    let t: Bvh<u32> = Bvh::new();
    assert_eq!(t.node_count(), 0);
    assert_eq!(t.root_index(), 0);
    assert_eq!(t.nodes().len(), 1);
    assert_eq!(t.window(), 4);
    for kind in 1..=6 {
        assert_eq!(t.primitive_count(kind), 0);
    }
    check_tree(&t);
}

#[test]
fn push_primitive_appends_unlinked_records() {
    let mut t: Bvh<u32> = Bvh::new();
    assert_eq!(t.push_primitive(CUBE, 10), Ok(0));
    assert_eq!(t.push_primitive(CUBE, 11), Ok(1));
    assert_eq!(t.push_primitive(CONE, 12), Ok(0));
    assert_eq!(t.primitive_count(CUBE), 2);
    assert_eq!(t.primitive_count(CONE), 1);
    let rec = t.primitive(TaggedRef { kind: CUBE, index: 1 }).unwrap();
    assert_eq!(rec.geometry, 11);
    assert_eq!(rec.slot_index, 1);
    assert_eq!(rec.parent_idx, TaggedRef::null());
    assert_eq!(t.push_primitive(0, 1), Err(BvhError::InvalidShape));
    assert_eq!(t.push_primitive(7, 1), Err(BvhError::InvalidShape));
    assert_eq!(t.primitive_count(0), 0);
    assert_eq!(t.primitive_count(7), 0);
    check_tree(&t);
}

#[test]
fn first_insert_never_uses_slot_zero() {
    let mut t: Bvh<u32> = Bvh::new();
    let r = add_sphere(&mut t, 1, ball(0, 0, 0, 5));
    let link = t.primitive(r).unwrap().parent_idx;
    assert_eq!(link, TaggedRef::node(1));
    assert_ne!(link.index, 0);
    assert_eq!(t.root_index(), 1);
    assert_eq!(t.nodes()[1].child1, r);
    check_tree(&t);
}

#[test]
fn two_spheres_then_remove_first_scenario() {
    let mut t: Bvh<u32> = Bvh::new();
    let a_box = ball(0, 0, 0, 15);
    let b_box = ball(1000, 0, 0, 15);
    let a = add_sphere(&mut t, 1, a_box);
    assert_eq!(t.node_count(), 1);
    let root = t.root_index() as usize;
    assert_eq!(t.nodes()[root].child1, a);
    assert_eq!(t.nodes()[root].aabb, a_box);
    assert_eq!(t.leaf_box(a), Some(a_box));

    let b = add_sphere(&mut t, 2, b_box);
    assert_eq!(t.node_count(), 3);
    let root = t.root_index() as usize;
    let rn = t.nodes()[root];
    assert_eq!(rn.child1.kind, 0);
    assert_eq!(rn.aabb, aabb_union(a_box, b_box));
    assert_eq!(rn.aabb, bx((-15, -15, -15), (1015, 15, 15)));
    check_tree(&t);

    assert_eq!(t.remove_leaf(a), Ok(()));
    assert_eq!(t.node_count(), 1);
    assert_eq!(t.nodes().len(), 2);
    let root = t.root_index() as usize;
    assert_eq!(t.nodes()[root].child1, b);
    assert_eq!(t.nodes()[root].aabb, b_box);
    assert_eq!(t.leaf_box(b), Some(b_box));
    assert_eq!(t.leaf_box(a), None);
    check_tree(&t);
}

#[test]
fn moved_primitive_grows_its_ancestors_only() {
    let mut t: Bvh<u32> = Bvh::with_window(0);
    let a = add_sphere(&mut t, 0, ball(0, 0, 0, 1));
    let c = add_sphere(&mut t, 2, ball(100, 0, 0, 1));
    let _b = add_sphere(&mut t, 1, ball(5, 0, 0, 1));
    let _d = add_sphere(&mut t, 3, ball(105, 0, 0, 1));
    check_tree(&t);
    let c_leaf = t.leaf_of(c).unwrap() as usize;
    let a_leaf = t.leaf_of(a).unwrap() as usize;
    let a_parent = t.nodes()[a_leaf].parent as usize;
    let a_parent_box = t.nodes()[a_parent].aabb;
    assert_eq!(a_parent_box, bx((-1, -1, -1), (6, 1, 1)));
    assert_ne!(a_parent, t.root_index() as usize);

    let far = ball(100, 5000, 0, 1);
    t.refit_leaf(c, far).unwrap();
    check_tree(&t);
    assert_eq!(t.leaf_box(c), Some(far));
    let mut i = c_leaf;
    while i != 0 {
        let b = t.nodes()[i].aabb;
        assert!(b.min.y <= far.min.y && far.max.y <= b.max.y);
        i = t.nodes()[i].parent as usize;
    }
    assert_eq!(root_box(&t), bx((-1, -1, -1), (106, 5001, 1)));
    assert_eq!(t.nodes()[a_parent].aabb, a_parent_box);
    assert_eq!(t.leaf_box(a), Some(ball(0, 0, 0, 1)));
}

#[test]
fn moved_primitive_with_rotation_keeps_the_tree_sound() {
    let mut t: Bvh<u32> = Bvh::new();
    let mut refs = Vec::new();
    for i in 0..8 {
        refs.push(add_sphere(&mut t, i, ball(10 * i as i32, 0, 0, 2)));
        check_tree(&t);
    }
    let far = ball(-3000, 2000, 700, 2);
    t.refit_leaf(refs[3], far).unwrap();
    check_tree(&t);
    assert_eq!(t.leaf_box(refs[3]), Some(far));
    let r = root_box(&t);
    assert_eq!(r, bx((-3002, -2, -2), (72, 2002, 702)));
    for (i, r) in refs.iter().enumerate() {
        if i != 3 {
            assert_eq!(t.leaf_box(*r), Some(ball(10 * i as i32, 0, 0, 2)));
        }
    }
}

#[test]
fn refit_with_the_same_box_changes_nothing_without_rotation() {
    let mut t: Bvh<u32> = Bvh::with_window(0);
    for i in 0..5 {
        add_sphere(&mut t, i, ball(7 * i as i32, 3 * i as i32, 0, 2));
    }
    let r = add_sphere(&mut t, 9, ball(-4, 8, 1, 3));
    let before = t.nodes().clone();
    t.refit_leaf(r, ball(-4, 8, 1, 3)).unwrap();
    assert_eq!(t.nodes(), &before);
    check_tree(&t);
}

#[test]
fn refit_with_the_same_box_keeps_every_leaf_box() {
    let mut t: Bvh<u32> = Bvh::new();
    let mut refs = Vec::new();
    for i in 0..6 {
        refs.push(add_sphere(&mut t, i, ball(9 * i as i32, -(i as i32), 2, 3)));
    }
    let root_before = root_box(&t);
    t.refit_leaf(refs[5], ball(45, -5, 2, 3)).unwrap();
    check_tree(&t);
    for (i, r) in refs.iter().enumerate() {
        assert_eq!(t.leaf_box(*r), Some(ball(9 * i as i32, -(i as i32), 2, 3)));
    }
    assert_eq!(root_box(&t), root_before);
}

#[test]
fn removals_keep_links_consistent() {
    let mut t: Bvh<u32> = Bvh::new();
    let mut refs = Vec::new();
    for i in 0..9 {
        refs.push(add_sphere(&mut t, i, ball(13 * (i as i32 % 3), 11 * (i as i32 / 3), 0, 2)));
    }
    check_tree(&t);
    for &i in &[4usize, 0, 8, 2, 6, 1, 7, 3, 5] {
        assert_eq!(t.remove_leaf(refs[i]), Ok(()));
        check_tree(&t);
        assert_eq!(t.leaf_of(refs[i]), None);
    }
    assert_eq!(t.node_count(), 0);
    assert_eq!(t.root_index(), 0);
    assert_eq!(t.nodes().len(), 1);
    let again = add_sphere(&mut t, 50, ball(1, 1, 1, 1));
    assert_eq!(t.leaf_of(again), Some(1));
    check_tree(&t);
}

#[test]
fn destroy_moves_the_last_primitive_into_the_freed_slot() {
    let mut t: Bvh<u32> = Bvh::new();
    let a = add_sphere(&mut t, 100, ball(0, 0, 0, 1));
    let _b = add_sphere(&mut t, 101, ball(10, 0, 0, 1));
    let c = add_sphere(&mut t, 102, ball(20, 0, 0, 1));
    assert_eq!(c, sphere(2));
    assert_eq!(t.destroy_primitive(a), Ok(100));
    check_tree(&t);
    assert_eq!(t.primitive_count(SPHERE), 2);
    let moved = t.primitive(sphere(0)).unwrap();
    assert_eq!(moved.geometry, 102);
    assert_eq!(moved.slot_index, 0);
    let leaf = t.leaf_of(sphere(0)).unwrap();
    assert_eq!(t.nodes()[leaf as usize].child1, sphere(0));
    assert_eq!(t.leaf_box(sphere(0)), Some(ball(20, 0, 0, 1)));
    assert_eq!(t.leaf_box(sphere(1)), Some(ball(10, 0, 0, 1)));
    assert_eq!(t.primitive(sphere(2)).is_none(), true);
    assert_eq!(t.node_count(), 3);
}

#[test]
fn destroy_the_last_slot_moves_nothing() {
    let mut t: Bvh<u32> = Bvh::new();
    let a = add_sphere(&mut t, 1, ball(0, 0, 0, 1));
    let b = add_sphere(&mut t, 2, ball(9, 0, 0, 1));
    assert_eq!(t.destroy_primitive(b), Ok(2));
    check_tree(&t);
    assert_eq!(t.primitive_count(SPHERE), 1);
    assert_eq!(t.leaf_box(a), Some(ball(0, 0, 0, 1)));
    assert_eq!(t.node_count(), 1);
}

#[test]
fn destroy_an_uninserted_primitive_relocates_an_inserted_one() {
    let mut t: Bvh<u32> = Bvh::new();
    let j = t.push_primitive(TORUS, 7).unwrap();
    let torus = TaggedRef { kind: TORUS, index: j };
    let k = t.push_primitive(TORUS, 8).unwrap();
    let other = TaggedRef { kind: TORUS, index: k };
    t.insert_leaf(other, ball(3, 3, 3, 1)).unwrap();
    assert_eq!(t.destroy_primitive(torus), Ok(7));
    check_tree(&t);
    assert_eq!(t.leaf_box(torus), Some(ball(3, 3, 3, 1)));
    assert_eq!(t.geometry(torus), Some(&8));
    assert_eq!(t.destroy_primitive(TaggedRef { kind: TORUS, index: 5 }), Err(BvhError::InvalidShape));
}

#[test]
fn insert_reports_each_error() {
    let mut t: Bvh<u32> = Bvh::new();
    assert_eq!(t.insert_leaf(TaggedRef { kind: 0, index: 0 }, ball(0, 0, 0, 1)), Err(BvhError::InvalidShape));
    assert_eq!(t.insert_leaf(TaggedRef { kind: 7, index: 0 }, ball(0, 0, 0, 1)), Err(BvhError::InvalidShape));
    assert_eq!(t.insert_leaf(sphere(0), ball(0, 0, 0, 1)), Err(BvhError::InvalidShape));
    let r = add_sphere(&mut t, 1, ball(0, 0, 0, 1));
    assert_eq!(t.insert_leaf(r, ball(0, 0, 0, 1)), Err(BvhError::AlreadyInserted));
    assert_eq!(t.node_count(), 1);
    check_tree(&t);
}

#[test]
fn refit_reports_each_error() {
    let mut t: Bvh<u32> = Bvh::new();
    assert_eq!(t.refit_leaf(sphere(0), ball(0, 0, 0, 1)), Err(BvhError::InvalidShape));
    let j = t.push_primitive(SPHERE, 1).unwrap();
    assert_eq!(t.refit_leaf(sphere(j), ball(0, 0, 0, 1)), Err(BvhError::NotInserted));
    check_tree(&t);
}

#[test]
fn remove_of_an_uninserted_primitive_is_a_no_op() {
    let mut t: Bvh<u32> = Bvh::new();
    let a = add_sphere(&mut t, 1, ball(0, 0, 0, 1));
    let j = t.push_primitive(SPHERE, 2).unwrap();
    let before = t.nodes().clone();
    assert_eq!(t.remove_leaf(sphere(j)), Ok(()));
    assert_eq!(t.nodes(), &before);
    assert_eq!(t.leaf_box(a), Some(ball(0, 0, 0, 1)));
    assert_eq!(t.remove_leaf(TaggedRef { kind: 9, index: 0 }), Err(BvhError::InvalidShape));
    assert_eq!(t.remove_leaf(sphere(40)), Err(BvhError::InvalidShape));
    check_tree(&t);
}

#[test]
fn set_geometry_replaces_only_the_payload() {
    let mut t: Bvh<u32> = Bvh::new();
    let r = add_sphere(&mut t, 1, ball(0, 0, 0, 1));
    assert_eq!(t.set_geometry(r, 5), Ok(()));
    assert_eq!(t.geometry(r), Some(&5));
    assert_eq!(t.leaf_box(r), Some(ball(0, 0, 0, 1)));
    assert_eq!(t.set_geometry(sphere(3), 5), Err(BvhError::InvalidShape));
    assert_eq!(t.geometry(sphere(3)), None);
}

#[test]
fn mixed_kinds_and_churn_keep_every_invariant() {
    let mut t: Bvh<u32> = Bvh::new();
    let mut live: Vec<(TaggedRef, Aabb)> = Vec::new();
    let mut seed: u32 = 12345;
    let mut next = || {
        seed = seed.wrapping_mul(1103515245).wrapping_add(12345);
        (seed >> 8) % 1000
    };
    for step in 0..120u32 {
        let op = next() % 4;
        if op < 2 || live.is_empty() {
            let kind = 1 + next() % 6;
            let j = t.push_primitive(kind, step).unwrap();
            let r = TaggedRef { kind, index: j };
            let b = ball(next() as i32, next() as i32, next() as i32, 1 + (next() % 20) as i32);
            t.insert_leaf(r, b).unwrap();
            live.push((r, b));
        } else if op == 2 {
            let i = (next() as usize) % live.len();
            let b = ball(next() as i32, next() as i32, next() as i32, 1 + (next() % 20) as i32);
            t.refit_leaf(live[i].0, b).unwrap();
            live[i].1 = b;
        } else {
            let i = (next() as usize) % live.len();
            let (r, _) = live.swap_remove(i);
            t.remove_leaf(r).unwrap();
        }
        check_tree(&t);
        for (r, b) in &live {
            assert_eq!(t.leaf_box(*r), Some(*b));
        }
        if let Some((_, first)) = live.first() {
            let mut all = *first;
            for (_, b) in &live {
                all = aabb_union(all, *b);
            }
            assert_eq!(root_box(&t), all);
        }
    }
}

#[test]
fn refit_round_trip_with_rotation_keeps_leaf_and_root_boxes() {
    let boxes = [
        bx((7, 31, -4), (15, 39, 4)),
        bx((64, 21, -2), (68, 25, 2)),
        bx((77, 35, -2), (81, 39, 2)),
        bx((54, 48, -2), (58, 52, 2)),
        bx((21, 44, -2), (25, 48, 2)),
    ];
    let mut t: Bvh<u32> = Bvh::new();
    let refs: Vec<TaggedRef> = boxes.iter().enumerate().map(|(i, b)| add_sphere(&mut t, i as u32, *b)).collect();
    let root_before = root_box(&t);
    t.refit_leaf(refs[4], boxes[4]).unwrap();
    check_tree(&t);
    for (r, b) in refs.iter().zip(boxes.iter()) {
        assert_eq!(t.leaf_box(*r), Some(*b));
    }
    assert_eq!(root_box(&t), root_before);
    assert_eq!(root_before, bx((7, 21, -4), (81, 52, 4)));
}

#[test]
fn insert_appends_leaf_then_internal_node_under_the_picked_sibling() {
    let mut t: Bvh<u32> = Bvh::with_window(0);
    let a = add_sphere(&mut t, 0, ball(0, 0, 0, 1));
    let c = add_sphere(&mut t, 1, ball(100, 0, 0, 1));
    assert_eq!(t.nodes().len(), 4);
    let b = add_sphere(&mut t, 2, ball(4, 0, 0, 1));
    // the new leaf is slot 4, the new internal node slot 5 above leaf `a` (slot 1)
    assert_eq!(t.leaf_of(b), Some(4));
    let m = t.nodes()[5];
    assert_eq!(m.child1, TaggedRef::node(1));
    assert_eq!(m.child2, TaggedRef::node(4));
    assert_eq!(m.parent, 3);
    assert_eq!(t.nodes()[1].parent, 5);
    assert_eq!(t.nodes()[4].parent, 5);
    assert_eq!(t.nodes()[1].child1, a);
    assert_eq!(t.leaf_of(c), Some(2));
    assert_eq!(m.aabb, bx((-1, -1, -1), (5, 1, 1)));
    assert_eq!(t.nodes()[0], sdf_bvh::node::BvhNode::sentinel());
    check_tree(&t);
}

#[test]
fn remove_promotes_the_sibling_and_compacts_the_freed_slots() {
    let mut t: Bvh<u32> = Bvh::with_window(0);
    let a = add_sphere(&mut t, 0, ball(0, 0, 0, 1));
    let c = add_sphere(&mut t, 1, ball(100, 0, 0, 1));
    let b = add_sphere(&mut t, 2, ball(4, 0, 0, 1));
    // slots: 1 a, 2 c, 3 root, 4 b, 5 parent of a and b
    assert_eq!(t.remove_leaf(a), Ok(()));
    // slot 5 (the freed parent) is last and simply dropped; b moves from 4 into 1
    assert_eq!(t.nodes().len(), 4);
    assert_eq!(t.leaf_of(b), Some(1));
    assert_eq!(t.leaf_of(c), Some(2));
    assert_eq!(t.root_index(), 3);
    assert_eq!(t.nodes()[1].parent, 3);
    let root = t.nodes()[3];
    assert!(root.child1 == TaggedRef::node(1) || root.child2 == TaggedRef::node(1));
    assert_eq!(root.aabb, bx((3, -1, -1), (101, 1, 1)));
    assert_eq!(t.nodes()[0], sdf_bvh::node::BvhNode::sentinel());
    check_tree(&t);
}
