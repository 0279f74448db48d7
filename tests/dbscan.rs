use rust_dbscan::dbscan::cluster_neighborhoods;
use rust_dbscan::labels::build_labels;
use rust_dbscan::point::Cluster;

fn members(clusters: &[Cluster]) -> Vec<(usize, Vec<usize>)> {
    clusters.iter().map(|c| (c.c, c.points.clone())).collect()
}

#[test]
fn test_dbscan_basic() {
    // Neighbourhoods of the five sample points at eps = 0.8 km: the first two
    // lie 2.3 m apart, the others farther than 0.8 km from any point.
    let neighbors = vec![vec![0, 1], vec![0, 1], vec![2], vec![3], vec![4]];
    let (clusters, noise) = cluster_neighborhoods(&neighbors, 2);

    let mut all_points = vec![false; neighbors.len()];
    for &i in &noise {
        all_points[i] = true;
    }
    for cluster in &clusters {
        for &i in &cluster.points {
            all_points[i] = true;
        }
    }
    assert!(all_points.iter().all(|&b| b));
    assert_eq!(members(&clusters), vec![(0, vec![0, 1])]);
    assert_eq!(noise, vec![2, 3, 4]);
}

#[test]
fn border_point_stays_in_noise_log() {
    let neighbors = vec![vec![0, 1], vec![1, 0, 2], vec![2, 1]];
    let (clusters, noise) = cluster_neighborhoods(&neighbors, 3);
    assert_eq!(noise, vec![0]);
    assert_eq!(members(&clusters), vec![(0, vec![1, 0, 2])]);
}

#[test]
fn cluster_grows_through_core_points() {
    let neighbors = vec![vec![0, 1], vec![1, 0, 2], vec![2, 1, 3], vec![3, 2], vec![4]];
    let (clusters, noise) = cluster_neighborhoods(&neighbors, 2);
    assert_eq!(members(&clusters), vec![(0, vec![0, 1, 2, 3])]);
    assert_eq!(noise, vec![4]);
}

#[test]
fn clusters_get_sequential_ids() {
    let neighbors = vec![vec![0, 1], vec![1, 0], vec![2], vec![3, 4], vec![4, 3]];
    let (clusters, noise) = cluster_neighborhoods(&neighbors, 2);
    assert_eq!(members(&clusters), vec![(0, vec![0, 1]), (1, vec![3, 4])]);
    assert_eq!(noise, vec![2]);
}

#[test]
fn every_point_noise_when_threshold_high() {
    let neighbors = vec![vec![0, 1], vec![1, 0], vec![2]];
    let (clusters, noise) = cluster_neighborhoods(&neighbors, 3);
    assert!(clusters.is_empty());
    assert_eq!(noise, vec![0, 1, 2]);
}

#[test]
fn empty_input_gives_empty_result() {
    let neighbors: Vec<Vec<usize>> = Vec::new();
    let (clusters, noise) = cluster_neighborhoods(&neighbors, 1);
    assert!(clusters.is_empty());
    assert!(noise.is_empty());
}

#[test]
fn runs_are_deterministic() {
    let neighbors = vec![vec![0, 1], vec![1, 0, 2], vec![2, 1, 3], vec![3, 2], vec![4], vec![5, 4]];
    let (c1, n1) = cluster_neighborhoods(&neighbors, 2);
    let (c2, n2) = cluster_neighborhoods(&neighbors, 2);
    assert_eq!(members(&c1), members(&c2));
    assert_eq!(n1, n2);
}

#[test]
fn labels_follow_clusters() {
    let clusters = vec![
        Cluster { c: 0, points: vec![0, 1] },
        Cluster { c: 1, points: vec![3] },
    ];
    let labels = build_labels(&clusters, &[2, 4], 5);
    assert_eq!(labels, vec![0, 0, -1, 1, -1]);
}

#[test]
fn labels_of_no_clusters_are_outliers() {
    let labels = build_labels(&[], &[0, 1], 2);
    assert_eq!(labels, vec![-1, -1]);
}
