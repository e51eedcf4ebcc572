use ray_tracer::intersections::Intersection;
use ray_tracer::order::{key_bits, order_key};
use ray_tracer::refraction::refraction_media;

fn t_of(i: &Intersection) -> f64 {
    f64::from_bits(i.t_bits)
}

fn crossings(ts: &[f64], object: usize) -> Vec<Intersection> {
    ts.iter().map(|t| Intersection::new(t.to_bits(), object)).collect()
}

#[test]
fn intersections_an_intersection_encapsulates_time_and_object() {
    let intersection = Intersection::new(3.5_f64.to_bits(), 0);
    assert_eq!(t_of(&intersection), 3.5);
    assert_eq!(intersection.object, 0);
}

#[test]
fn intersections_aggregating_intersections() {
    let intersections = Intersection::sort_intersections(crossings(&[1.0, 2.0], 0));
    assert_eq!(intersections.len(), 2);
    assert_eq!(t_of(&intersections[0]), 1.0);
    assert_eq!(t_of(&intersections[1]), 2.0);
}

#[test]
fn intersections_hit_when_all_intersections_have_positive_time() {
    let intersections = Intersection::sort_intersections(crossings(&[1.0, 2.0], 0));
    let hit = Intersection::hit(intersections);
    assert_eq!(t_of(&hit.unwrap()), 1.0);
}

#[test]
fn intersections_hit_when_some_intersections_have_negative_time() {
    let intersections = Intersection::sort_intersections(crossings(&[-1.0, 1.0], 0));
    let hit = Intersection::hit(intersections);
    assert_eq!(t_of(&hit.unwrap()), 1.0);
}

#[test]
fn intersections_hit_when_all_intersections_have_negative_time() {
    let intersections = Intersection::sort_intersections(crossings(&[-2.0, -1.0], 0));
    let hit = Intersection::hit(intersections);
    assert!(hit.is_none());
}

#[test]
fn intersections_the_hit_is_always_the_lowest_nonnegative_intersection() {
    let intersections = Intersection::sort_intersections(crossings(&[5.0, 7.0, -3., 2.0], 0));
    let hit = Intersection::hit(intersections);
    assert_eq!(t_of(&hit.unwrap()), 2.0);
}

#[test]
fn sorting_orders_by_distance_and_keeps_ties_in_place() {
    let xs = vec![
        Intersection::new(3.0_f64.to_bits(), 1),
        Intersection::new((-0.5_f64).to_bits(), 2),
        Intersection::new(3.0_f64.to_bits(), 3),
        Intersection::new(f64::NAN.to_bits(), 4),
        Intersection::new(0.25_f64.to_bits(), 5),
        Intersection::new(f64::NEG_INFINITY.to_bits(), 6),
    ];
    let sorted = Intersection::sort_intersections(xs);
    let objects: Vec<usize> = sorted.iter().map(|i| i.object).collect();
    assert_eq!(objects, vec![6, 2, 5, 1, 3, 4]);
}

#[test]
fn hit_does_not_depend_on_input_order() {
    let a = Intersection::sort_intersections(crossings(&[5.0, -1.0, 0.5, 9.0], 0));
    let b = Intersection::sort_intersections(crossings(&[9.0, 0.5, 5.0, -1.0], 0));
    assert_eq!(t_of(&Intersection::hit(a).unwrap()), 0.5);
    assert_eq!(t_of(&Intersection::hit(b).unwrap()), 0.5);
}

#[test]
fn hit_accepts_zero_and_negative_zero() {
    let hit = Intersection::hit(crossings(&[-0.0], 7)).unwrap();
    assert_eq!(hit.object, 7);
    let hit = Intersection::hit(crossings(&[-1e-300, 0.0], 7)).unwrap();
    assert_eq!(t_of(&hit), 0.0);
}

#[test]
fn hit_of_empty_list_is_none() {
    assert!(Intersection::hit(Vec::new()).is_none());
}

#[test]
fn hit_skips_nan() {
    let hit = Intersection::hit(crossings(&[f64::NAN, 4.0], 0)).unwrap();
    assert_eq!(t_of(&hit), 4.0);
}

#[test]
fn in_front_matches_float_comparison() {
    for t in [-2.0, -0.0, 0.0, 1e-300, 3.0, f64::INFINITY, f64::NEG_INFINITY, f64::NAN] {
        let i = Intersection::new(f64::to_bits(t), 0);
        assert_eq!(i.is_in_front(), t >= 0.0, "t = {}", t);
    }
}

#[test]
fn order_keys_follow_float_order() {
    let values = [f64::NEG_INFINITY, -1e10, -2.0, -1e-300, 0.0, 1e-300, 0.5, 2.0, 1e10, f64::INFINITY];
    for a in values {
        for b in values {
            let ka = order_key(a.to_bits());
            let kb = order_key(b.to_bits());
            assert_eq!(ka < kb, a < b, "{} {}", a, b);
            assert_eq!(f64::from_bits(key_bits(ka)), a);
        }
    }
    assert_eq!(order_key((-0.0_f64).to_bits()), order_key(0.0_f64.to_bits()));
    assert!(order_key(f64::NAN.to_bits()) > order_key(f64::INFINITY.to_bits()));
}

#[test]
fn finding_n1_and_n2_at_various_intersections() {
    // objects: 0 = a (index 1.5), 1 = b (index 2.0), 2 = c (index 2.5)
    let indices = [1.5, 2.0, 2.5];
    let intersections = vec![
        Intersection::new(2.0_f64.to_bits(), 0),
        Intersection::new(2.75_f64.to_bits(), 1),
        Intersection::new(3.25_f64.to_bits(), 2),
        Intersection::new(4.75_f64.to_bits(), 1),
        Intersection::new(5.25_f64.to_bits(), 2),
        Intersection::new(6.0_f64.to_bits(), 0),
    ];
    let expected_values = vec![
        (1.0, 1.5),
        (1.5, 2.0),
        (2.0, 2.5),
        (2.5, 2.5),
        (2.5, 1.5),
        (1.5, 1.0),
    ];
    for (hit, (n1, n2)) in expected_values.into_iter().enumerate() {
        let (m1, m2) = refraction_media(&intersections, hit);
        assert_eq!(m1.map(|o| indices[o]).unwrap_or(1.0), n1);
        assert_eq!(m2.map(|o| indices[o]).unwrap_or(1.0), n2);
    }
}

#[test]
fn refraction_media_of_single_crossing() {
    let xs = vec![Intersection::new(4.0_f64.to_bits(), 3)];
    assert_eq!(refraction_media(&xs, 0), (None, Some(3)));
}

#[test]
fn refraction_media_leaving_a_non_innermost_object() {
    // enter 0, enter 1, leave 0 while still inside 1
    let xs = crossings(&[1.0], 0)
        .into_iter()
        .chain(crossings(&[2.0], 1))
        .chain(crossings(&[3.0], 0))
        .collect::<Vec<_>>();
    assert_eq!(refraction_media(&xs, 2), (Some(1), Some(1)));
}

#[test]
fn group_crossings_are_merged_in_order() {
    // sphere 0 at the group's origin is crossed at 4 and 6, sphere 1 moved
    // to z = -3 at 1 and 3
    let mut all = crossings(&[4.0, 6.0], 0);
    all.extend(crossings(&[1.0, 3.0], 1));
    let sorted = Intersection::sort_intersections(all);
    let ts: Vec<f64> = sorted.iter().map(t_of).collect();
    assert_eq!(ts, vec![1.0, 3.0, 4.0, 6.0]);
    let objects: Vec<usize> = sorted.iter().map(|i| i.object).collect();
    assert_eq!(objects, vec![1, 1, 0, 0]);
}

#[test]
fn leaving_a_glass_sphere_from_inside() {
    // a ray from inside a glass sphere (index 1.5): the crossing behind the
    // origin enters it, the hit leaves it into air
    let half = std::f64::consts::FRAC_1_SQRT_2;
    let xs = crossings(&[-half, half], 0);
    let hit = Intersection::hit(xs.clone()).unwrap();
    assert_eq!(t_of(&hit), half);
    assert_eq!(refraction_media(&xs, 1), (Some(0), None));
}
