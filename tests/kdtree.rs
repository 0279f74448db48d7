use rust_dbscan::kdtree::{new_kd_tree, KDTreeNode};
use rust_dbscan::point::Point;

fn key(x: f64) -> i64 {
    x.to_bits() as i64
}

fn pt(lon: f64, lat: f64) -> Point {
    Point([key(lon), key(lat)])
}

fn sample() -> Vec<Point> {
    vec![
        pt(30.244759, 59.955982),
        pt(30.24472, 59.955975),
        pt(30.244358, 59.96698),
        pt(30.258387, 59.951557),
        pt(30.434124, 60.029499),
    ]
}

fn collect_ids(t: &Option<Box<KDTreeNode>>, out: &mut Vec<usize>) {
    if let Some(n) = t {
        out.push(n.point_id);
        out.extend_from_slice(&n.equal_ids);
        collect_ids(&n.left, out);
        collect_ids(&n.right, out);
    }
}

#[test]
fn tree_splits_at_the_median() {
    let tree = new_kd_tree(sample());
    let root = tree.root.as_ref().unwrap();
    assert_eq!(root.point_id, 0);
    assert_eq!(root.split, 0);
    assert_eq!(root.left.as_ref().unwrap().point_id, 2);
    assert_eq!(root.left.as_ref().unwrap().split, 1);
    assert_eq!(root.right.as_ref().unwrap().point_id, 4);
    assert_eq!(tree.height(), 3);
}

#[test]
fn tree_holds_every_index_once() {
    let tree = new_kd_tree(sample());
    let mut ids = Vec::new();
    collect_ids(&tree.root, &mut ids);
    ids.sort();
    assert_eq!(ids, vec![0, 1, 2, 3, 4]);
}

#[test]
fn duplicates_share_a_node() {
    let tree = new_kd_tree(vec![pt(1.0, 1.0), pt(1.0, 1.0), pt(1.0, 1.0)]);
    let root = tree.root.as_ref().unwrap();
    assert_eq!(root.point_id, 0);
    assert_eq!(root.equal_ids, vec![1, 2]);
    assert!(root.left.is_none() && root.right.is_none());
    assert_eq!(tree.height(), 1);
}

#[test]
fn empty_tree() {
    let tree = new_kd_tree(Vec::new());
    assert!(tree.root.is_none());
    assert_eq!(tree.height(), 0);
}

#[test]
fn insert_places_a_leaf() {
    let mut tree = new_kd_tree(sample());
    tree.insert(pt(30.1, 59.0));
    assert_eq!(tree.points.len(), 6);
    // Below the root on longitude, then below node 2 on latitude, then below
    // node 1 on longitude.
    let root = tree.root.as_ref().unwrap();
    let n2 = root.left.as_ref().unwrap();
    let n1 = n2.left.as_ref().unwrap();
    assert_eq!(n1.point_id, 1);
    let leaf = n1.left.as_ref().unwrap();
    assert_eq!(leaf.point_id, 5);
    assert_eq!(leaf.split, 1);
    assert_eq!(tree.height(), 4);
}

#[test]
fn insert_into_empty_tree() {
    let mut tree = new_kd_tree(Vec::new());
    tree.insert(pt(1.0, 2.0));
    let root = tree.root.as_ref().unwrap();
    assert_eq!(root.point_id, 0);
    assert_eq!(root.split, 0);
    assert_eq!(tree.height(), 1);
}

#[test]
fn distinct_coordinates_give_a_balanced_tree() {
    for n in 1..20usize {
        let points: Vec<Point> = (0..n).map(|i| pt(i as f64 + 1.0, ((i * 23) % n) as f64 + 0.5)).collect();
        let tree = new_kd_tree(points);
        let bound = (usize::BITS - n.leading_zeros()) as usize;
        assert!(tree.height() <= bound, "n = {}", n);
    }
}
