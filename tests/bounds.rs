use ray_tracer::bounds::{Bounds, KeyPoint};
use ray_tracer::order::{key_bits, order_key};

fn point(x: f64, y: f64, z: f64) -> KeyPoint {
    KeyPoint::new(order_key(x.to_bits()), order_key(y.to_bits()), order_key(z.to_bits()))
}

fn value(k: u64) -> f64 {
    f64::from_bits(key_bits(k))
}

#[test]
fn creating_empty_bounding_box() {
    let bounds = Bounds::empty();
    assert_eq!(value(bounds.min.x), f64::INFINITY);
    assert_eq!(value(bounds.max.x), f64::NEG_INFINITY);
}

#[test]
fn creating_bounding_box_with_volume() {
    let bounds = Bounds::new(point(-1.0, -2.0, -3.0), point(3.0, 2.0, 1.0));
    assert_eq!(bounds.min, point(-1.0, -2.0, -3.0));
    assert_eq!(bounds.max, point(3.0, 2.0, 1.0));
}

#[test]
fn adding_points_to_empty_bounding_box() {
    let mut bounds = Bounds::empty();
    bounds.add_point(point(-5.0, 2.0, 0.0));
    bounds.add_point(point(7.0, 0.0, -3.0));

    assert_eq!(bounds.min, point(-5.0, 0.0, -3.0));
    assert_eq!(bounds.max, point(7.0, 2.0, 0.0));
}

#[test]
fn merging_two_bounding_boxes() {
    let box1 = Bounds::new(point(-5.0, -2.0, 0.0), point(7.0, 4.0, 4.0));
    let box2 = Bounds::new(point(8.0, -7.0, -2.0), point(14.0, 2.0, 8.0));

    let merged = box1.merge(&box2);
    assert_eq!(merged.min, point(-5.0, -7.0, -2.0));
    assert_eq!(merged.max, point(14.0, 4.0, 8.0));
}

#[test]
fn merging_in_either_order_gives_the_same_box() {
    let a = Bounds::new(point(-5.0, -2.0, 0.0), point(7.0, 4.0, 4.0));
    let b = Bounds::new(point(8.0, -7.0, -2.0), point(14.0, 2.0, 8.0));
    let c = Bounds::new(point(0.0, 0.0, -9.0), point(1.0, 10.0, -8.0));
    assert_eq!(a.merge(&b), b.merge(&a));
    assert_eq!(a.merge(&b).merge(&c), a.merge(&b.merge(&c)));
    assert_eq!(Bounds::empty().merge(&a), a);
    assert_eq!(a.merge(&Bounds::empty()), a);
    assert_eq!(Bounds::empty().merge(&Bounds::empty()), Bounds::empty());
}

#[test]
fn merging_with_empty_box_keeps_unit_box() {
    let unit = Bounds::new(point(-1.0, -1.0, -1.0), point(1.0, 1.0, 1.0));
    assert_eq!(unit.merge(&Bounds::empty()), unit);
    assert_eq!(Bounds::empty().merge(&unit), unit);
    assert!(!unit.merge(&Bounds::empty()).is_unbounded());
}

#[test]
fn infinite_box_stays_infinite_under_transform() {
    let corners = vec![point(1.0, 2.0, 3.0), point(-1.0, 0.0, 5.0)];
    assert!(Bounds::infinite().is_unbounded());
    assert_eq!(Bounds::infinite().transform_from_corners(&corners), Bounds::infinite());
    let half_open = Bounds::new(point(f64::NEG_INFINITY, 0.0, -1.0), point(1.0, 0.0, 1.0));
    assert_eq!(half_open.transform_from_corners(&corners), Bounds::infinite());
}

#[test]
fn finite_box_encloses_moved_corners() {
    let b = Bounds::new(point(-1.0, -1.0, -1.0), point(1.0, 1.0, 1.0));
    assert!(!b.is_unbounded());
    let corners = vec![point(1.0, 2.0, 3.0), point(-1.0, 0.0, 5.0), point(0.5, -4.0, 4.0)];
    let moved = b.transform_from_corners(&corners);
    assert_eq!(moved.min, point(-1.0, -4.0, 3.0));
    assert_eq!(moved.max, point(1.0, 2.0, 5.0));
}

#[test]
fn nan_coordinate_gives_way_when_adding() {
    let mut bounds = Bounds::empty();
    bounds.add_point(point(f64::NAN, 1.0, 1.0));
    bounds.add_point(point(2.0, 1.0, 1.0));
    assert_eq!(value(bounds.min.x), 2.0);
    assert_eq!(value(bounds.max.x), 2.0);
}
