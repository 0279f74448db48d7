use vstd::prelude::*;

verus! {

/// A geographic coordinate, `[longitude, latitude]`, each held as an order key:
/// an integer whose order and equality are those of the coordinate.
#[derive(Clone, Copy, Debug, PartialEq, Eq)]
pub struct Point(pub [i64; 2]);

/// The result of clustering: an id and the indices of its member points,
/// in the order in which they were discovered.
#[derive(Clone, Debug)]
pub struct Cluster {
    pub c: usize,
    pub points: Vec<usize>,
}

/// Two points with equal coordinates.
pub open spec fn same_place(p: Point, q: Point) -> bool {
    p.0[0] == q.0[0] && p.0[1] == q.0[1]
}

impl Point {
    /// True when the two points have equal coordinates.
    pub fn same_as(&self, b: &Point) -> (r: bool)
        ensures
            r == same_place(*self, *b),
    {
        self.0[0] == b.0[0] && self.0[1] == b.0[1]
    }

    /// True when both coordinates of `self` are at most those of `b`.
    pub fn less_eq(&self, b: &Point) -> (r: bool)
        ensures
            r == (self.0[0] <= b.0[0] && self.0[1] <= b.0[1]),
    {
        self.0[0] <= b.0[0] && self.0[1] <= b.0[1]
    }

    /// True when both coordinates of `self` are at least those of `b`.
    pub fn greater_eq(&self, b: &Point) -> (r: bool)
        ensures
            r == (self.0[0] >= b.0[0] && self.0[1] >= b.0[1]),
    {
        self.0[0] >= b.0[0] && self.0[1] >= b.0[1]
    }
}

/// The rectangle spanned by corners `(lo, hi)` contains the one spanned by
/// `(inner_lo, inner_hi)`.
pub open spec fn contains_rect(inner_lo: Point, inner_hi: Point, lo: Point, hi: Point) -> bool {
    &&& inner_lo.0[0] >= lo.0[0] && inner_lo.0[1] >= lo.0[1]
    &&& inner_hi.0[0] <= hi.0[0] && inner_hi.0[1] <= hi.0[1]
}

/// True when the rectangle `(inner_min, inner_max)` lies inside the rectangle
/// `(outer_min, outer_max)`.
pub fn inside(inner_min: &Point, inner_max: &Point, outer_min: &Point, outer_max: &Point) -> (r: bool)
    ensures
        r == contains_rect(*inner_min, *inner_max, *outer_min, *outer_max),
{
    inner_min.greater_eq(outer_min) && inner_max.less_eq(outer_max)
}

/// Every member index of the cluster names one of `n` points.
pub open spec fn members_valid(cluster: Cluster, n: nat) -> bool {
    forall|t: int| 0 <= t < cluster.points@.len() ==> #[trigger] cluster.points@[t] < n
}

/// On axis `d`, `lo` and `hi` are the minimum and maximum over the points
/// named by the first `upto` member indices.
pub open spec fn axis_extremes(members: Seq<usize>, upto: int, points: Seq<Point>, d: int, lo: i64, hi: i64) -> bool {
    &&& forall|t: int| 0 <= t < upto ==> lo <= #[trigger] points[members[t] as int].0[d] <= hi
    &&& exists|t: int| 0 <= t < upto && lo == #[trigger] points[members[t] as int].0[d]
    &&& exists|t: int| 0 <= t < upto && hi == #[trigger] points[members[t] as int].0[d]
}

/// `lo` and `hi` are the per-axis minimum and maximum over the members.
pub open spec fn is_bounds(cluster: Cluster, points: Seq<Point>, lo: Point, hi: Point) -> bool {
    &&& axis_extremes(cluster.points@, cluster.points@.len() as int, points, 0, lo.0[0], hi.0[0])
    &&& axis_extremes(cluster.points@, cluster.points@.len() as int, points, 1, lo.0[1], hi.0[1])
}

impl Cluster {
    /// The bounding box of the cluster, as its minimum and maximum corners.
    pub fn bounds(&self, points: &Vec<Point>) -> (r: (Point, Point))
        requires
            self.points@.len() > 0,
            members_valid(*self, points@.len()),
        ensures
            is_bounds(*self, points@, r.0, r.1),
    {
        let first = points[self.points[0]];
        let mut lo = first;
        let mut hi = first;
        let mut t: usize = 1;
        while t < self.points.len()
            invariant
                1 <= t <= self.points@.len(),
                members_valid(*self, points@.len()),
                axis_extremes(self.points@, t as int, points@, 0, lo.0[0], hi.0[0]),
                axis_extremes(self.points@, t as int, points@, 1, lo.0[1], hi.0[1]),
            decreases self.points@.len() - t,
        {
            let p = points[self.points[t]];
            let ghost (old_lo, old_hi) = (lo, hi);
            if p.0[0] < lo.0[0] {
                lo.0[0] = p.0[0];
            }
            if p.0[1] < lo.0[1] {
                lo.0[1] = p.0[1];
            }
            if p.0[0] > hi.0[0] {
                hi.0[0] = p.0[0];
            }
            if p.0[1] > hi.0[1] {
                hi.0[1] = p.0[1];
            }
            proof {
                assert(points@[self.points@[t as int] as int] == p);
                assert(axis_extremes(self.points@, t + 1, points@, 0, lo.0[0], hi.0[0]));
                assert(axis_extremes(self.points@, t + 1, points@, 1, lo.0[1], hi.0[1]));
            }
            t = t + 1;
        }
        (lo, hi)
    }
}

} // verus!
