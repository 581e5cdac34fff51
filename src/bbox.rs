//! Axis-aligned boxes on an integer grid.
use vstd::prelude::*;

verus! {

/// A point on the integer grid.
#[derive(Clone, Copy, Debug, PartialEq, Eq, Structural)]
pub struct Point3 {
    pub x: i32,
    pub y: i32,
    pub z: i32,
}

/// A point whose coordinates are twice those of a grid point, so that the
/// midpoint of two grid points is exact.
#[derive(Clone, Copy, Debug, PartialEq, Eq, Structural)]
pub struct DoubledPoint3 {
    pub x: i64,
    pub y: i64,
    pub z: i64,
}

/// Coordinate `axis` (0 = x, 1 = y, 2 = z) of a point.
pub open spec fn coord(p: Point3, axis: int) -> int {
    if axis == 0 {
        p.x as int
    } else if axis == 1 {
        p.y as int
    } else {
        p.z as int
    }
}

pub open spec fn min_i32(a: i32, b: i32) -> i32 {
    if a <= b {
        a
    } else {
        b
    }
}

pub open spec fn max_i32(a: i32, b: i32) -> i32 {
    if a >= b {
        a
    } else {
        b
    }
}

pub open spec fn min_point(a: Point3, b: Point3) -> Point3 {
    Point3 { x: min_i32(a.x, b.x), y: min_i32(a.y, b.y), z: min_i32(a.z, b.z) }
}

pub open spec fn max_point(a: Point3, b: Point3) -> Point3 {
    Point3 { x: max_i32(a.x, b.x), y: max_i32(a.y, b.y), z: max_i32(a.z, b.z) }
}

/// An axis-aligned box given by its two corners.
#[derive(Clone, Copy, Debug, PartialEq, Eq, Structural)]
pub struct Bbox {
    pub p_min: Point3,
    pub p_max: Point3,
}

/// The empty box: every minimum at the top of the grid, every maximum at its
/// bottom, so that it is the identity of `merge`.
pub open spec fn empty_box() -> Bbox {
    Bbox {
        p_min: Point3 { x: i32::MAX, y: i32::MAX, z: i32::MAX },
        p_max: Point3 { x: i32::MIN, y: i32::MIN, z: i32::MIN },
    }
}

/// A box is empty when on some axis its minimum exceeds its maximum.
pub open spec fn box_is_empty(b: Bbox) -> bool {
    b.p_min.x > b.p_max.x || b.p_min.y > b.p_max.y || b.p_min.z > b.p_max.z
}

/// Component-wise minimum of the minima and maximum of the maxima.
pub open spec fn merge_box(a: Bbox, b: Bbox) -> Bbox {
    Bbox { p_min: min_point(a.p_min, b.p_min), p_max: max_point(a.p_max, b.p_max) }
}

/// Length of a box along `axis` (negative for a box that is empty there).
pub open spec fn extent(b: Bbox, axis: int) -> int {
    coord(b.p_max, axis) - coord(b.p_min, axis)
}

/// The cost metric of a box: the product of its three extents, and zero for
/// an empty box.
pub open spec fn volume(b: Bbox) -> int {
    if box_is_empty(b) {
        0
    } else {
        extent(b, 0) * extent(b, 1) * extent(b, 2)
    }
}

/// `outer` contains `inner` on every axis.
pub open spec fn contains(outer: Bbox, inner: Bbox) -> bool {
    forall|axis: int|
        0 <= axis < 3 ==> coord(outer.p_min, axis) <= coord(inner.p_min, axis) && coord(
            inner.p_max,
            axis,
        ) <= coord(outer.p_max, axis)
}

/// The tight box of a sequence of points (the empty box for no points).
pub open spec fn points_box(points: Seq<Point3>) -> Bbox
    decreases points.len(),
{
    if points.len() == 0 {
        empty_box()
    } else {
        let last = points.last();
        merge_box(points_box(points.drop_last()), Bbox { p_min: last, p_max: last })
    }
}

/// The empty box is the identity of `merge`.
pub proof fn lemma_merge_empty(b: Bbox)
    ensures
        merge_box(empty_box(), b) == b,
        merge_box(b, empty_box()) == b,
{
}

/// `merge` is commutative.
pub proof fn lemma_merge_commutative(a: Bbox, b: Bbox)
    ensures
        merge_box(a, b) == merge_box(b, a),
{
}

/// `merge` is associative.
pub proof fn lemma_merge_associative(a: Bbox, b: Bbox, c: Bbox)
    ensures
        merge_box(merge_box(a, b), c) == merge_box(a, merge_box(b, c)),
{
}

/// A merged box contains both of its operands.
pub proof fn lemma_merge_contains(a: Bbox, b: Bbox)
    ensures
        contains(merge_box(a, b), a),
        contains(merge_box(a, b), b),
{
}

/// Containment is transitive.
pub proof fn lemma_contains_transitive(a: Bbox, b: Bbox, c: Bbox)
    requires
        contains(a, b),
        contains(b, c),
    ensures
        contains(a, c),
{
}

fn min_i32_exec(a: i32, b: i32) -> (r: i32)
    ensures
        r == min_i32(a, b),
{
    if a <= b {
        a
    } else {
        b
    }
}

fn max_i32_exec(a: i32, b: i32) -> (r: i32)
    ensures
        r == max_i32(a, b),
{
    if a >= b {
        a
    } else {
        b
    }
}

fn min_point3(a: Point3, b: Point3) -> (r: Point3)
    ensures
        r == min_point(a, b),
{
    Point3 { x: min_i32_exec(a.x, b.x), y: min_i32_exec(a.y, b.y), z: min_i32_exec(a.z, b.z) }
}

fn max_point3(a: Point3, b: Point3) -> (r: Point3)
    ensures
        r == max_point(a, b),
{
    Point3 { x: max_i32_exec(a.x, b.x), y: max_i32_exec(a.y, b.y), z: max_i32_exec(a.z, b.z) }
}

impl Point3 {
    pub fn new(x: i32, y: i32, z: i32) -> (r: Point3)
        ensures
            r == (Point3 { x, y, z }),
    {
        Point3 { x, y, z }
    }
}

impl Bbox {
    /// The tight box of a non-empty list of points.
    pub fn from_points(points: &[Point3]) -> (r: Bbox)
        requires
            points@.len() > 0,
        ensures
            r == points_box(points@),
            !box_is_empty(r),
            forall|i: int|
                0 <= i < points@.len() ==> #[trigger] contains(
                    r,
                    Bbox { p_min: points@[i], p_max: points@[i] },
                ),
    {
        let mut p_min = points[0];
        let mut p_max = points[0];
        proof {
            assert(points@.subrange(0, 1).drop_last() =~= Seq::<Point3>::empty());
            lemma_merge_empty(Bbox { p_min: points@[0], p_max: points@[0] });
            assert(points_box(Seq::<Point3>::empty()) == empty_box());
            assert(points@.subrange(0, 1).last() == points@[0]);
            assert(points_box(points@.subrange(0, 1)) == Bbox { p_min: p_min, p_max: p_max });
        }
        let mut i: usize = 1;
        while i < points.len()
            invariant
                1 <= i <= points@.len(),
                (Bbox { p_min, p_max }) == points_box(points@.subrange(0, i as int)),
                p_min.x <= p_max.x && p_min.y <= p_max.y && p_min.z <= p_max.z,
                forall|k: int|
                    0 <= k < i ==> #[trigger] contains(
                        Bbox { p_min, p_max },
                        Bbox { p_min: points@[k], p_max: points@[k] },
                    ),
            decreases points@.len() - i,
        {
            let p = points[i];
            proof {
                assert(points@.subrange(0, i as int + 1).drop_last() =~= points@.subrange(
                    0,
                    i as int,
                ));
                lemma_merge_contains(Bbox { p_min, p_max }, Bbox { p_min: p, p_max: p });
                assert forall|k: int| 0 <= k < i implies #[trigger] contains(
                    merge_box(Bbox { p_min, p_max }, Bbox { p_min: p, p_max: p }),
                    Bbox { p_min: points@[k], p_max: points@[k] },
                ) by {
                    lemma_contains_transitive(
                        merge_box(Bbox { p_min, p_max }, Bbox { p_min: p, p_max: p }),
                        Bbox { p_min, p_max },
                        Bbox { p_min: points@[k], p_max: points@[k] },
                    );
                }
            }
            p_min = min_point3(p_min, p);
            p_max = max_point3(p_max, p);
            i = i + 1;
        }
        proof {
            assert(points@.subrange(0, points@.len() as int) =~= points@);
        }
        Bbox { p_min, p_max }
    }

    pub fn empty() -> (r: Bbox)
        ensures
            r == empty_box(),
            box_is_empty(r),
    {
        Bbox {
            p_min: Point3 { x: i32::MAX, y: i32::MAX, z: i32::MAX },
            p_max: Point3 { x: i32::MIN, y: i32::MIN, z: i32::MIN },
        }
    }

    pub fn is_empty(&self) -> (r: bool)
        ensures
            r == box_is_empty(*self),
    {
        self.p_min.x > self.p_max.x || self.p_min.y > self.p_max.y || self.p_min.z > self.p_max.z
    }

    pub fn merge(self, another: Bbox) -> (r: Bbox)
        ensures
            r == merge_box(self, another),
    {
        Bbox {
            p_min: min_point3(self.p_min, another.p_min),
            p_max: max_point3(self.p_max, another.p_max),
        }
    }

    /// The split cost metric: the product of the three extents of the box, and
    /// zero for an empty box. It is below 2^96.
    pub fn surface_area(&self) -> (r: u128)
        ensures
            r as int == volume(*self),
            r < 0x1_0000_0000_0000_0000_0000_0000u128,
    {
        if self.is_empty() {
            0
        } else {
            let dx = (self.p_max.x as i64 - self.p_min.x as i64) as u128;
            let dy = (self.p_max.y as i64 - self.p_min.y as i64) as u128;
            let dz = (self.p_max.z as i64 - self.p_min.z as i64) as u128;
            proof {
                lemma_volume_bound(dx as int, dy as int, dz as int);
            }
            dx * dy * dz
        }
    }

    /// Twice the midpoint of the two corners.
    pub fn centroid(&self) -> (r: DoubledPoint3)
        ensures
            r.x == self.p_min.x + self.p_max.x,
            r.y == self.p_min.y + self.p_max.y,
            r.z == self.p_min.z + self.p_max.z,
    {
        DoubledPoint3 {
            x: self.p_min.x as i64 + self.p_max.x as i64,
            y: self.p_min.y as i64 + self.p_max.y as i64,
            z: self.p_min.z as i64 + self.p_max.z as i64,
        }
    }
}

proof fn lemma_volume_bound(a: int, b: int, c: int)
    requires
        0 <= a < 0x1_0000_0000,
        0 <= b < 0x1_0000_0000,
        0 <= c < 0x1_0000_0000,
    ensures
        0 <= a * b < 0x1_0000_0000_0000_0000,
        0 <= a * b * c < 0x1_0000_0000_0000_0000_0000_0000,
{
    assert(0 <= a * b <= a * 0xffff_ffff) by (nonlinear_arith)
        requires
            0 <= a < 0x1_0000_0000,
            0 <= b < 0x1_0000_0000,
    ;
    assert(a * 0xffff_ffff < 0x1_0000_0000_0000_0000) by (nonlinear_arith)
        requires
            0 <= a < 0x1_0000_0000,
    ;
    assert(0 <= a * b * c <= (a * b) * 0xffff_ffff) by (nonlinear_arith)
        requires
            0 <= a * b,
            0 <= c < 0x1_0000_0000,
    ;
}

} // verus!
