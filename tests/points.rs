use rust_dbscan::labels::filter_points;
use rust_dbscan::point::{inside, Cluster, Point};

fn key(x: f64) -> i64 {
    // For non-negative coordinates the bit pattern orders as the value does.
    x.to_bits() as i64
}

fn pt(lon: f64, lat: f64) -> Point {
    Point([key(lon), key(lat)])
}

#[test]
fn test_filter_points_logic() {
    let test_cases = vec![
        ("all outliers", vec![-1, -1, -1], 3, vec![0, 1, 2]),
        ("single cluster", vec![0, 0, 0], 1, vec![0]),
        ("two clusters", vec![0, 0, 1, 1], 2, vec![0, 2]),
        ("mixed outliers and clusters", vec![-1, 0, 0, -1, 1, 1], 4, vec![0, 1, 3, 4]),
    ];

    for (name, labels, expected_count, expected_indices) in test_cases {
        let points: Vec<Point> = (0..labels.len()).map(|i| pt(i as f64, i as f64)).collect();

        let result = filter_points(&points, &labels);
        assert_eq!(result.len(), expected_count, "Test case: {}", name);
        for (i, &expected_idx) in expected_indices.iter().enumerate() {
            if i < result.len() {
                assert_eq!(result[i], expected_idx, "Test case: {}", name);
            }
        }
    }
}

#[test]
fn filter_skips_repeated_coordinates() {
    let points = vec![pt(1.0, 1.0), pt(1.0, 1.0), pt(2.0, 2.0), pt(1.0, 1.0)];
    let labels = vec![-1, -1, 0, 1];
    assert_eq!(filter_points(&points, &labels), vec![0, 2]);
}

#[test]
fn cluster_bounds_scenario() {
    let points = vec![
        pt(30.244759, 59.955982),
        pt(30.24472, 59.955975),
        pt(30.244358, 59.96698),
    ];
    let c1 = Cluster { c: 0, points: vec![0, 1, 2] };
    let (min, max) = c1.bounds(&points);
    assert_eq!(min.0[0], key(30.244358));
    assert_eq!(min.0[1], key(59.955975));
    assert_eq!(max.0[0], key(30.244759));
    assert_eq!(max.0[1], key(59.96698));
}

#[test]
fn bounds_of_single_member() {
    let points = vec![pt(1.0, 2.0), pt(3.0, 4.0)];
    let c = Cluster { c: 0, points: vec![1] };
    let (min, max) = c.bounds(&points);
    assert_eq!(min, pt(3.0, 4.0));
    assert_eq!(max, pt(3.0, 4.0));
}

#[test]
fn point_comparisons() {
    let a = pt(1.0, 2.0);
    let b = pt(2.0, 3.0);
    let c = pt(0.5, 4.0);
    assert!(a.less_eq(&b));
    assert!(!b.less_eq(&a));
    assert!(b.greater_eq(&a));
    assert!(!a.less_eq(&c));
    assert!(!c.greater_eq(&a));
    assert!(a.less_eq(&a) && a.greater_eq(&a));
}

#[test]
fn rectangle_containment() {
    let outer_min = pt(0.0, 0.0);
    let outer_max = pt(10.0, 10.0);
    assert!(inside(&pt(1.0, 1.0), &pt(9.0, 9.0), &outer_min, &outer_max));
    assert!(inside(&outer_min, &outer_max, &outer_min, &outer_max));
    assert!(!inside(&pt(1.0, 1.0), &pt(11.0, 9.0), &outer_min, &outer_max));
    assert!(!inside(&pt(0.0, 0.0), &pt(9.0, 9.0), &pt(0.5, 0.0), &outer_max));
}
