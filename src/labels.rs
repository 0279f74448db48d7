use vstd::prelude::*;
use crate::point::{same_place, Cluster, Point};

verus! {

/// The label marking a point that belongs to no cluster.
pub const OUTLIER_LABEL: i32 = -1;

/// The label of point `k`: the id of the last cluster listing it, or the
/// outlier label.
pub open spec fn label_of(clusters: Seq<Cluster>, k: int) -> i32
    decreases clusters.len(),
{
    if clusters.len() == 0 {
        OUTLIER_LABEL
    } else if clusters.last().points@.contains(k as usize) {
        clusters.last().c as i32
    } else {
        label_of(clusters.drop_last(), k)
    }
}

/// Builds the per-point label array: a point's cluster id, or the outlier
/// label where no cluster lists it.
pub fn build_labels(clusters: &[Cluster], noise: &[usize], num_points: usize) -> (r: Vec<i32>)
    requires
        forall|c: int, t: int|
            0 <= c < clusters@.len() && 0 <= t < clusters@[c].points@.len() ==> (#[trigger] clusters@[c].points@[t]) < num_points,
    ensures
        r@.len() == num_points,
        forall|k: int| 0 <= k < num_points ==> r@[k] == label_of(clusters@, k),
{
    let mut labels: Vec<i32> = Vec::new();
    let mut x: usize = 0;
    while x < num_points
        invariant
            x <= num_points,
            labels@ == Seq::new(x as nat, |i: int| OUTLIER_LABEL),
        decreases num_points - x,
    {
        labels.push(OUTLIER_LABEL);
        x = x + 1;
        assert(labels@ =~= Seq::new(x as nat, |i: int| OUTLIER_LABEL));
    }
    let mut c: usize = 0;
    while c < clusters.len()
        invariant
            c <= clusters@.len(),
            labels@.len() == num_points,
            forall|q: int, t: int|
                0 <= q < clusters@.len() && 0 <= t < clusters@[q].points@.len() ==> (#[trigger] clusters@[q].points@[t]) < num_points,
            forall|k: int| 0 <= k < num_points ==> labels@[k] == label_of(clusters@.subrange(0, c as int), k),
        decreases clusters@.len() - c,
    {
        let cluster = &clusters[c];
        let id = cluster.c as i32;
        let ghost prev = labels@;
        let mut t: usize = 0;
        while t < cluster.points.len()
            invariant
                c < clusters@.len(),
                *cluster == clusters@[c as int],
                t <= cluster.points@.len(),
                labels@.len() == num_points,
                prev.len() == num_points,
                forall|s: int| 0 <= s < cluster.points@.len() ==> (#[trigger] cluster.points@[s]) < num_points,
                forall|k: int| 0 <= k < num_points ==> labels@[k] == if cluster.points@.subrange(0, t as int).contains(k as usize) {
                    id
                } else {
                    prev[k]
                },
            decreases cluster.points@.len() - t,
        {
            let idx = cluster.points[t];
            labels.set(idx, id);
            proof {
                assert forall|k: int| 0 <= k < num_points implies labels@[k] == if cluster.points@.subrange(0, t + 1).contains(k as usize) {
                    id
                } else {
                    prev[k]
                } by {
                    let before_t = cluster.points@.subrange(0, t as int);
                    assert(cluster.points@.subrange(0, t + 1) == before_t.push(idx));
                    assert(before_t.push(idx)[before_t.len() as int] == idx);
                    if before_t.contains(k as usize) {
                        let w = choose|w: int| 0 <= w < before_t.len() && before_t[w] == k as usize;
                        assert(before_t.push(idx)[w] == k as usize);
                    }
                    if before_t.push(idx).contains(k as usize) && k as usize != idx {
                        let w = choose|w: int| 0 <= w < before_t.len() + 1 && before_t.push(idx)[w] == k as usize;
                        assert(before_t[w] == k as usize);
                    }
                }
            }
            t = t + 1;
        }
        proof {
            assert(cluster.points@.subrange(0, t as int) == cluster.points@);
            let next = clusters@.subrange(0, c + 1);
            assert(next.drop_last() == clusters@.subrange(0, c as int));
            assert(next.last() == clusters@[c as int]);
        }
        c = c + 1;
    }
    assert(clusters@.subrange(0, clusters@.len() as int) == clusters@);
    labels
}

/// Whether the label rule keeps point `idx`: an outlier, the first point, or
/// the first of a run of equal labels.
pub open spec fn starts_group(labels: Seq<i32>, idx: int) -> bool {
    labels[idx] == OUTLIER_LABEL || idx == 0 || labels[idx] != labels[idx - 1]
}

/// Whether one of the kept indices names a point at the place of `p`.
pub open spec fn place_taken(points: Seq<Point>, kept: Seq<usize>, p: Point) -> bool {
    exists|t: int| 0 <= t < kept.len() && same_place(points[kept[t] as int], p)
}

/// The indices kept from the first `m` labels, in ascending order.
pub open spec fn filtered(points: Seq<Point>, labels: Seq<i32>, m: nat) -> Seq<usize>
    decreases m,
{
    if m == 0 {
        Seq::empty()
    } else {
        let prev = filtered(points, labels, (m - 1) as nat);
        let idx = m - 1;
        if place_taken(points, prev, points[idx]) {
            prev
        } else if starts_group(labels, idx) {
            prev.push(idx as usize)
        } else {
            prev
        }
    }
}

/// Picks the points to show: outliers and the first point of each run of
/// equal labels, skipping any point whose coordinates were already picked.
pub fn filter_points(points: &Vec<Point>, labels: &[i32]) -> (r: Vec<usize>)
    requires
        labels@.len() <= points@.len(),
    ensures
        r@ == filtered(points@, labels@, labels@.len()),
{
    let mut kept: Vec<usize> = Vec::new();
    let mut idx: usize = 0;
    while idx < labels.len()
        invariant
            idx <= labels@.len(),
            labels@.len() <= points@.len(),
            kept@ == filtered(points@, labels@, idx as nat),
            forall|t: int| 0 <= t < kept@.len() ==> #[trigger] kept@[t] < idx,
        decreases labels@.len() - idx,
    {
        let point = &points[idx];
        let mut taken = false;
        let mut t: usize = 0;
        while t < kept.len()
            invariant
                t <= kept@.len(),
                idx < points@.len(),
                *point == points@[idx as int],
                forall|s: int| 0 <= s < kept@.len() ==> #[trigger] kept@[s] < idx,
                taken == exists|s: int| 0 <= s < t && same_place(points@[kept@[s] as int], *point),
            decreases kept@.len() - t,
        {
            if points[kept[t]].same_as(point) {
                taken = true;
            }
            t = t + 1;
        }
        let label = labels[idx];
        if !taken && (label == OUTLIER_LABEL || idx == 0 || label != labels[idx - 1]) {
            kept.push(idx);
        }
        idx = idx + 1;
    }
    kept
}

} // verus!
