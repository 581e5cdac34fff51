use simple_path_tracer_gl::bbox::{Bbox, Point3};

fn bx(min: (i32, i32, i32), max: (i32, i32, i32)) -> Bbox {
    Bbox {
        p_min: Point3::new(min.0, min.1, min.2),
        p_max: Point3::new(max.0, max.1, max.2),
    }
}

#[test]
fn empty_box_is_empty() {
    let e = Bbox::empty();
    assert!(e.is_empty());
    assert!(!bx((0, 0, 0), (0, 0, 0)).is_empty());
    assert!(bx((1, 0, 0), (0, 5, 5)).is_empty());
}

#[test]
fn merge_with_empty_is_identity() {
    let b = bx((-3, 2, 7), (4, 9, 8));
    assert_eq!(b.merge(Bbox::empty()), b);
    assert_eq!(Bbox::empty().merge(b), b);
}

#[test]
fn merge_is_componentwise() {
    let a = bx((0, 5, -2), (3, 6, 1));
    let b = bx((-1, 7, 0), (2, 9, 4));
    assert_eq!(a.merge(b), bx((-1, 5, -2), (3, 9, 4)));
    assert_eq!(a.merge(b), b.merge(a));
}

#[test]
fn cost_metric_is_product_of_extents() {
    assert_eq!(bx((0, 0, 0), (2, 3, 4)).surface_area(), 24);
    assert_eq!(bx((-1, -1, -1), (1, 1, 1)).surface_area(), 8);
    assert_eq!(bx((0, 0, 0), (5, 0, 7)).surface_area(), 0);
}

#[test]
fn cost_metric_of_empty_box_is_zero() {
    assert_eq!(Bbox::empty().surface_area(), 0);
}

#[test]
fn cost_metric_of_largest_box() {
    let b = bx((i32::MIN, i32::MIN, i32::MIN), (i32::MAX, i32::MAX, i32::MAX));
    let d: u128 = (u32::MAX) as u128;
    assert_eq!(b.surface_area(), d * d * d);
}

#[test]
fn centroid_is_doubled_midpoint() {
    let c = bx((0, 2, -5), (3, 4, 5)).centroid();
    assert_eq!((c.x, c.y, c.z), (3, 6, 0));
}

#[test]
fn from_points_is_tight() {
    let pts = [Point3::new(1, 5, -2), Point3::new(-4, 6, 0), Point3::new(3, 2, 9)];
    assert_eq!(Bbox::from_points(&pts), bx((-4, 2, -2), (3, 6, 9)));
    let one = [Point3::new(7, 8, 9)];
    assert_eq!(Bbox::from_points(&one), bx((7, 8, 9), (7, 8, 9)));
}
