use sdf_bvh::aabb::{aabb_area, aabb_union, local_corners, padded_bounds, Aabb, Point3};

fn p(x: i32, y: i32, z: i32) -> Point3 {
    Point3 { x, y, z }
}

fn bx(a: (i32, i32, i32), b: (i32, i32, i32)) -> Aabb {
    Aabb { min: p(a.0, a.1, a.2), max: p(b.0, b.1, b.2) }
}

#[test]
fn union_takes_componentwise_extremes() {
    let a = bx((0, 5, -3), (2, 6, 1));
    let b = bx((1, -4, -1), (9, 5, 0));
    assert_eq!(aabb_union(a, b), bx((0, -4, -3), (9, 6, 1)));
    assert_eq!(aabb_union(b, a), bx((0, -4, -3), (9, 6, 1)));
}

#[test]
fn union_with_empty_box_is_identity() {
    let a = bx((-7, 2, 3), (4, 5, 6));
    assert_eq!(aabb_union(Aabb::empty(), a), a);
    assert_eq!(Aabb::empty().min, p(i32::MAX, i32::MAX, i32::MAX));
    assert_eq!(Aabb::empty().max, p(i32::MIN, i32::MIN, i32::MIN));
    assert_eq!(Aabb::default(), Aabb::empty());
}

#[test]
fn area_is_twice_the_sum_of_face_products() {
    assert_eq!(aabb_area(bx((0, 0, 0), (1, 2, 3))), 22);
    assert_eq!(aabb_area(bx((-1, -1, -1), (1, 1, 1))), 24);
    assert_eq!(aabb_area(bx((5, 5, 5), (5, 9, 9))), 32);
    assert_eq!(aabb_area(bx((0, 0, 0), (0, 0, 0))), 0);
}

#[test]
fn area_of_extreme_boxes_is_exact() {
    let d: i128 = (i32::MAX as i128) - (i32::MIN as i128);
    let full = bx((i32::MIN, i32::MIN, i32::MIN), (i32::MAX, i32::MAX, i32::MAX));
    assert_eq!(aabb_area(full), 6 * d * d);
    assert_eq!(aabb_area(Aabb::empty()), 6 * d * d);
}

#[test]
fn local_corners_list_bottom_face_then_top_face() {
    let c = local_corners(p(1, 2, 3));
    assert_eq!(
        c,
        [
            p(-1, -2, -3),
            p(1, -2, -3),
            p(1, 2, -3),
            p(-1, 2, -3),
            p(-1, -2, 3),
            p(1, -2, 3),
            p(1, 2, 3),
            p(-1, 2, 3),
        ]
    );
}

#[test]
fn padded_bounds_grow_the_tight_box_by_the_margin() {
    let corners = [
        p(3, 0, 0),
        p(-2, 4, 1),
        p(0, -5, 2),
        p(1, 1, -6),
        p(0, 0, 0),
        p(2, 2, 2),
        p(-1, 3, 7),
        p(0, 0, 1),
    ];
    assert_eq!(padded_bounds(&corners, 10), bx((-12, -15, -16), (13, 14, 17)));
    assert_eq!(padded_bounds(&corners, 0), bx((-2, -5, -6), (3, 4, 7)));
}

#[test]
fn padded_bounds_of_a_rotated_box_hold_every_corner() {
    let corners = local_corners(p(4, 1, 2));
    let b = padded_bounds(&corners, 1);
    assert_eq!(b, bx((-5, -2, -3), (5, 2, 3)));
}
