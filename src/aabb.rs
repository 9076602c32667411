//! Axis-aligned boxes on an integer grid, their union and surface area.
use vstd::prelude::*;

verus! {

/// A point (or a vector) on the integer grid.
#[derive(Clone, Copy, Debug, PartialEq, Eq, Structural)]
pub struct Point3 {
    pub x: i32,
    pub y: i32,
    pub z: i32,
}

/// An axis-aligned box given by its two extreme corners.
#[derive(Clone, Copy, Debug, PartialEq, Eq, Structural)]
pub struct Aabb {
    pub min: Point3,
    pub max: Point3,
}

pub open spec fn min_int(a: int, b: int) -> int {
    if a <= b { a } else { b }
}

pub open spec fn max_int(a: int, b: int) -> int {
    if a >= b { a } else { b }
}

/// The smallest box that holds both boxes.
pub open spec fn union_spec(a: Aabb, b: Aabb) -> Aabb {
    Aabb {
        min: Point3 {
            x: min_int(a.min.x as int, b.min.x as int) as i32,
            y: min_int(a.min.y as int, b.min.y as int) as i32,
            z: min_int(a.min.z as int, b.min.z as int) as i32,
        },
        max: Point3 {
            x: max_int(a.max.x as int, b.max.x as int) as i32,
            y: max_int(a.max.y as int, b.max.y as int) as i32,
            z: max_int(a.max.z as int, b.max.z as int) as i32,
        },
    }
}

/// Surface area of a box: `2 (dx dy + dy dz + dz dx)` with `d = max - min`.
pub open spec fn area_spec(a: Aabb) -> int {
    let dx = a.max.x - a.min.x;
    let dy = a.max.y - a.min.y;
    let dz = a.max.z - a.min.z;
    2 * (dx * dy + dy * dz + dz * dx)
}

/// `inner` lies within `outer` on every axis.
pub open spec fn contains_spec(outer: Aabb, inner: Aabb) -> bool {
    &&& outer.min.x <= inner.min.x && inner.max.x <= outer.max.x
    &&& outer.min.y <= inner.min.y && inner.max.y <= outer.max.y
    &&& outer.min.z <= inner.min.z && inner.max.z <= outer.max.z
}

impl Aabb {
    pub open spec fn spec_empty() -> Aabb {
        Aabb {
            min: Point3 { x: i32::MAX, y: i32::MAX, z: i32::MAX },
            max: Point3 { x: i32::MIN, y: i32::MIN, z: i32::MIN },
        }
    }

    /// The empty box: its minimum is the largest point and its maximum the
    /// smallest, so that a union with it leaves the other box unchanged.
    pub fn empty() -> (r: Aabb)
        ensures
            r == Aabb::spec_empty(),
            forall|b: Aabb| union_spec(r, b) == b,
    {
        Aabb {
            min: Point3 { x: i32::MAX, y: i32::MAX, z: i32::MAX },
            max: Point3 { x: i32::MIN, y: i32::MIN, z: i32::MIN },
        }
    }
}

impl Default for Aabb {
    /// The empty box.
    fn default() -> (r: Aabb)
        ensures
            r == Aabb::spec_empty(),
    {
        Aabb::empty()
    }
}

fn min_i32(a: i32, b: i32) -> (r: i32)
    ensures
        r == min_int(a as int, b as int),
{
    if a <= b { a } else { b }
}

fn max_i32(a: i32, b: i32) -> (r: i32)
    ensures
        r == max_int(a as int, b as int),
{
    if a >= b { a } else { b }
}

/// The union of two boxes.
pub fn aabb_union(a: Aabb, b: Aabb) -> (r: Aabb)
    ensures
        r == union_spec(a, b),
{
    Aabb {
        min: Point3 { x: min_i32(a.min.x, b.min.x), y: min_i32(a.min.y, b.min.y), z: min_i32(a.min.z, b.min.z) },
        max: Point3 { x: max_i32(a.max.x, b.max.x), y: max_i32(a.max.y, b.max.y), z: max_i32(a.max.z, b.max.z) },
    }
}

proof fn lemma_product_bound(a: int, b: int)
    requires
        -0x1_0000_0000 <= a <= 0x1_0000_0000,
        -0x1_0000_0000 <= b <= 0x1_0000_0000,
    ensures
        -0x1_0000_0000_0000_0000 <= a * b <= 0x1_0000_0000_0000_0000,
{
    assert(-0x1_0000_0000_0000_0000 <= a * b <= 0x1_0000_0000_0000_0000) by (nonlinear_arith)
        requires
            -0x1_0000_0000 <= a <= 0x1_0000_0000,
            -0x1_0000_0000 <= b <= 0x1_0000_0000,
    ;
}

/// The surface area of a box, exact.
pub fn aabb_area(a: Aabb) -> (r: i128)
    ensures
        r == area_spec(a),
        -0x10_0000_0000_0000_0000 <= r <= 0x10_0000_0000_0000_0000,
{
    let dx: i128 = a.max.x as i128 - a.min.x as i128;
    let dy: i128 = a.max.y as i128 - a.min.y as i128;
    let dz: i128 = a.max.z as i128 - a.min.z as i128;
    proof {
        lemma_product_bound(dx as int, dy as int);
        lemma_product_bound(dy as int, dz as int);
        lemma_product_bound(dz as int, dx as int);
    }
    2 * (dx * dy + dy * dz + dz * dx)
}


/// The eight corners of a box centred on the origin with half-extents `h`,
/// bottom face first, each face counter-clockwise from `(-x, -y)`.
pub open spec fn local_corners_spec(h: Point3) -> Seq<Point3> {
    seq![
        Point3 { x: (-h.x) as i32, y: (-h.y) as i32, z: (-h.z) as i32 },
        Point3 { x: h.x, y: (-h.y) as i32, z: (-h.z) as i32 },
        Point3 { x: h.x, y: h.y, z: (-h.z) as i32 },
        Point3 { x: (-h.x) as i32, y: h.y, z: (-h.z) as i32 },
        Point3 { x: (-h.x) as i32, y: (-h.y) as i32, z: h.z },
        Point3 { x: h.x, y: (-h.y) as i32, z: h.z },
        Point3 { x: h.x, y: h.y, z: h.z },
        Point3 { x: (-h.x) as i32, y: h.y, z: h.z },
    ]
}

/// The corners of an origin-centred box with half-extents `half`.
pub fn local_corners(half: Point3) -> (r: [Point3; 8])
    requires
        half.x > i32::MIN,
        half.y > i32::MIN,
        half.z > i32::MIN,
    ensures
        r@ == local_corners_spec(half),
{
    let (x, y, z) = (half.x, half.y, half.z);
    let r = [
        Point3 { x: -x, y: -y, z: -z },
        Point3 { x: x, y: -y, z: -z },
        Point3 { x: x, y: y, z: -z },
        Point3 { x: -x, y: y, z: -z },
        Point3 { x: -x, y: -y, z: z },
        Point3 { x: x, y: -y, z: z },
        Point3 { x: x, y: y, z: z },
        Point3 { x: -x, y: y, z: z },
    ];
    assert(r@ =~= local_corners_spec(half));
    r
}

/// Every coordinate of `p` can be moved by `margin` either way within `i32`.
pub open spec fn padded_fits(p: Point3, margin: int) -> bool {
    &&& i32::MIN + margin <= p.x <= i32::MAX - margin
    &&& i32::MIN + margin <= p.y <= i32::MAX - margin
    &&& i32::MIN + margin <= p.z <= i32::MAX - margin
}

/// `b` is the tightest box around the points of `s`, grown by `margin` on
/// every side.
pub open spec fn is_padded_bounds(s: Seq<Point3>, margin: int, b: Aabb) -> bool {
    &&& forall|i: int| 0 <= i < s.len() ==> {
        &&& b.min.x <= s[i].x - margin && s[i].x + margin <= b.max.x
        &&& b.min.y <= s[i].y - margin && s[i].y + margin <= b.max.y
        &&& b.min.z <= s[i].z - margin && s[i].z + margin <= b.max.z
    }
    &&& exists|i: int| 0 <= i < s.len() && b.min.x == s[i].x - margin
    &&& exists|i: int| 0 <= i < s.len() && b.min.y == s[i].y - margin
    &&& exists|i: int| 0 <= i < s.len() && b.min.z == s[i].z - margin
    &&& exists|i: int| 0 <= i < s.len() && b.max.x == s[i].x + margin
    &&& exists|i: int| 0 <= i < s.len() && b.max.y == s[i].y + margin
    &&& exists|i: int| 0 <= i < s.len() && b.max.z == s[i].z + margin
}

/// The box around a set of corners, padded by `margin` on every side.
pub fn padded_bounds(corners: &[Point3; 8], margin: i32) -> (r: Aabb)
    requires
        margin >= 0,
        forall|i: int| 0 <= i < 8 ==> padded_fits(#[trigger] corners@[i], margin as int),
    ensures
        is_padded_bounds(corners@, margin as int, r),
{
    let c0 = corners[0];
    let mut lo = c0;
    let mut hi = c0;
    let mut i: usize = 1;
    while i < 8
        invariant
            1 <= i <= 8,
            corners@.len() == 8,
            forall|j: int| 0 <= j < i ==> {
                &&& lo.x <= corners@[j].x && corners@[j].x <= hi.x
                &&& lo.y <= corners@[j].y && corners@[j].y <= hi.y
                &&& lo.z <= corners@[j].z && corners@[j].z <= hi.z
            },
            exists|j: int| 0 <= j < i && lo.x == corners@[j].x,
            exists|j: int| 0 <= j < i && lo.y == corners@[j].y,
            exists|j: int| 0 <= j < i && lo.z == corners@[j].z,
            exists|j: int| 0 <= j < i && hi.x == corners@[j].x,
            exists|j: int| 0 <= j < i && hi.y == corners@[j].y,
            exists|j: int| 0 <= j < i && hi.z == corners@[j].z,
        decreases 8 - i,
    {
        let c = corners[i];
        lo = Point3 { x: min_i32(lo.x, c.x), y: min_i32(lo.y, c.y), z: min_i32(lo.z, c.z) };
        hi = Point3 { x: max_i32(hi.x, c.x), y: max_i32(hi.y, c.y), z: max_i32(hi.z, c.z) };
        i = i + 1;
    }
    proof {
        let jx = choose|j: int| 0 <= j < 8 && lo.x == corners@[j].x;
        let jy = choose|j: int| 0 <= j < 8 && lo.y == corners@[j].y;
        let jz = choose|j: int| 0 <= j < 8 && lo.z == corners@[j].z;
        let kx = choose|j: int| 0 <= j < 8 && hi.x == corners@[j].x;
        let ky = choose|j: int| 0 <= j < 8 && hi.y == corners@[j].y;
        let kz = choose|j: int| 0 <= j < 8 && hi.z == corners@[j].z;
        assert(padded_fits(corners@[jx], margin as int));
        assert(padded_fits(corners@[jy], margin as int));
        assert(padded_fits(corners@[jz], margin as int));
        assert(padded_fits(corners@[kx], margin as int));
        assert(padded_fits(corners@[ky], margin as int));
        assert(padded_fits(corners@[kz], margin as int));
    }
    Aabb {
        min: Point3 { x: lo.x - margin, y: lo.y - margin, z: lo.z - margin },
        max: Point3 { x: hi.x + margin, y: hi.y + margin, z: hi.z + margin },
    }
}

} // verus!
