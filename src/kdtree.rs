use vstd::prelude::*;
use crate::point::{same_place, Point};

verus! {

/// A two-dimensional tree over a point list. Nodes hold indices into
/// `points`, never coordinates.
pub struct KDTree {
    pub points: Vec<Point>,
    pub root: Option<Box<KDTreeNode>>,
}

/// A node of the tree: its point, the points at the same place, the axis it
/// splits on, and the subtrees below (`left` strictly less on that axis).
pub struct KDTreeNode {
    pub point_id: usize,
    pub equal_ids: Vec<usize>,
    pub split: usize,
    pub left: Option<Box<KDTreeNode>>,
    pub right: Option<Box<KDTreeNode>>,
}

/// The indices stored in a subtree, duplicate buckets included.
pub open spec fn subtree_ids(t: Option<Box<KDTreeNode>>) -> Set<usize>
    decreases t,
{
    match t {
        None => Set::empty(),
        Some(node) => Set::empty().insert(node.point_id).union(node.equal_ids@.to_set()).union(
            subtree_ids(node.left),
        ).union(subtree_ids(node.right)),
    }
}

/// The indices stored in a subtree, node by node: the node's own, its
/// duplicate bucket, then the left and the right subtree.
pub open spec fn subtree_list(t: Option<Box<KDTreeNode>>) -> Seq<usize>
    decreases t,
{
    match t {
        None => Seq::empty(),
        Some(node) => seq![node.point_id] + node.equal_ids@ + subtree_list(node.left) + subtree_list(node.right),
    }
}

/// Joining two duplicate-free sequences with no common element.
proof fn lemma_concat_distinct(a: Seq<usize>, b: Seq<usize>)
    requires
        a.no_duplicates(),
        b.no_duplicates(),
        forall|x: usize| !(a.contains(x) && b.contains(x)),
    ensures
        (a + b).no_duplicates(),
        forall|x: usize| #[trigger] (a + b).contains(x) <==> a.contains(x) || b.contains(x),
{
    broadcast use vstd::seq_lib::lemma_seq_concat_contains_all_elements;
    assert forall|i: int, j: int| 0 <= i < a.len() && 0 <= j < b.len() implies a[i] != b[j] by {
        assert(a.contains(a[i]));
        assert(b.contains(b[j]));
    }
    vstd::seq_lib::lemma_no_dup_in_concat(a, b);
}

/// The two parts of a duplicate-free concatenation are duplicate-free and
/// share no element.
proof fn lemma_concat_split(a: Seq<usize>, b: Seq<usize>)
    requires
        (a + b).no_duplicates(),
    ensures
        a.no_duplicates(),
        b.no_duplicates(),
        forall|x: usize| !(a.contains(x) && b.contains(x)),
{
    let ab = a + b;
    assert forall|i: int, j: int| 0 <= i < a.len() && 0 <= j < a.len() && i != j implies a[i] != a[j] by {
        assert(ab[i] == a[i] && ab[j] == a[j]);
    }
    assert forall|i: int, j: int| 0 <= i < b.len() && 0 <= j < b.len() && i != j implies b[i] != b[j] by {
        assert(ab[a.len() + i] == b[i] && ab[a.len() + j] == b[j]);
    }
    assert forall|x: usize| !(a.contains(x) && b.contains(x)) by {
        if a.contains(x) && b.contains(x) {
            let i = choose|i: int| 0 <= i < a.len() && a[i] == x;
            let j = choose|j: int| 0 <= j < b.len() && b[j] == x;
            assert(ab[i] == x && ab[a.len() + j] == x);
        }
    }
}

/// The listed indices of a subtree are its stored indices.
proof fn lemma_list_is_ids(t: Option<Box<KDTreeNode>>)
    ensures
        forall|x: usize| #[trigger] subtree_list(t).contains(x) <==> subtree_ids(t).contains(x),
    decreases t,
{
    broadcast use vstd::seq_lib::lemma_seq_concat_contains_all_elements;
    match t {
        None => {},
        Some(node) => {
            lemma_list_is_ids(node.left);
            lemma_list_is_ids(node.right);
            assert(subtree_list(t) == seq![node.point_id] + node.equal_ids@ + subtree_list(node.left) + subtree_list(node.right));
            assert(subtree_ids(t) == Set::empty().insert(node.point_id).union(node.equal_ids@.to_set()).union(
                subtree_ids(node.left)).union(subtree_ids(node.right)));
            assert forall|x: usize| #[trigger] subtree_list(t).contains(x) <==> subtree_ids(t).contains(x) by {
                assert(seq![node.point_id].contains(x) <==> x == node.point_id) by {
                    if x == node.point_id {
                        assert(seq![node.point_id][0] == x);
                    }
                }
                assert(node.equal_ids@.to_set().contains(x) <==> node.equal_ids@.contains(x));
            }
        },
    }
}

/// Search order and bookkeeping of a subtree over `points`: each index is
/// valid, each split axis is 0 or 1 and alternates level by level starting at
/// `split`, each duplicate bucket lies at its node's place, and on the node's
/// axis the left subtree lies strictly below the node and the right one not.
pub open spec fn subtree_wf(t: Option<Box<KDTreeNode>>, points: Seq<Point>, split: usize) -> bool
    decreases t,
{
    match t {
        None => true,
        Some(node) => {
            &&& split < 2
            &&& node.split == split
            &&& node.point_id < points.len()
            &&& forall|e: int| 0 <= e < node.equal_ids@.len() ==> {
                &&& #[trigger] node.equal_ids@[e] < points.len()
                &&& same_place(points[node.equal_ids@[e] as int], points[node.point_id as int])
            }
            &&& forall|x: usize| #[trigger] subtree_ids(node.left).contains(x) ==>
                x < points.len() && points[x as int].0[split as int] < points[node.point_id as int].0[split as int]
            &&& forall|x: usize| #[trigger] subtree_ids(node.right).contains(x) ==>
                x < points.len() && points[x as int].0[split as int] >= points[node.point_id as int].0[split as int]
            &&& subtree_wf(node.left, points, (1 - split) as usize)
            &&& subtree_wf(node.right, points, (1 - split) as usize)
        },
    }
}

/// The number of nodes on the longest path down from the root.
pub open spec fn subtree_height(t: Option<Box<KDTreeNode>>) -> nat
    decreases t,
{
    match t {
        None => 0,
        Some(node) => {
            let l = subtree_height(node.left);
            let r = subtree_height(node.right);
            (if l >= r { l } else { r }) + 1
        },
    }
}

/// A subtree is no taller than the number of indices it stores.
pub proof fn lemma_height_le_list(t: Option<Box<KDTreeNode>>)
    ensures
        subtree_height(t) <= subtree_list(t).len(),
    decreases t,
{
    match t {
        None => {},
        Some(node) => {
            lemma_height_le_list(node.left);
            lemma_height_le_list(node.right);
            assert(subtree_list(t).len() == 1 + node.equal_ids@.len() + subtree_list(node.left).len()
                + subtree_list(node.right).len());
        },
    }
}

/// A duplicate-free list of indices below `n` holds at most `n` of them.
proof fn lemma_distinct_below(s: Seq<usize>, n: nat)
    requires
        s.no_duplicates(),
        forall|t: int| 0 <= t < s.len() ==> #[trigger] s[t] < n,
    ensures
        s.len() <= n,
{
    let si = s.map_values(|x: usize| x as int);
    assert forall|i: int, j: int| 0 <= i < si.len() && 0 <= j < si.len() && i != j implies si[i] != si[j] by {
        assert(s[i] != s[j]);
    }
    si.unique_seq_to_set();
    assert forall|v: int| si.to_set().contains(v) implies vstd::set_lib::set_int_range(0, n as int).contains(v) by {
        let w = choose|w: int| 0 <= w < si.len() && si[w] == v;
        assert(s[w] < n);
    }
    vstd::set_lib::lemma_int_range(0, n as int);
    vstd::set_lib::lemma_len_subset(si.to_set(), vstd::set_lib::set_int_range(0, n as int));
}

/// A well-formed tree is no taller than its number of points.
pub proof fn lemma_height_bounded(tree: KDTree)
    requires
        tree.wf(),
    ensures
        subtree_height(tree.root) <= tree.points@.len(),
{
    lemma_height_le_list(tree.root);
    lemma_list_is_ids(tree.root);
    let s = subtree_list(tree.root);
    assert forall|t: int| 0 <= t < s.len() implies #[trigger] s[t] < tree.points@.len() by {
        assert(s.contains(s[t]));
        assert(subtree_ids(tree.root).contains(s[t]));
    }
    lemma_distinct_below(s, tree.points@.len());
}

impl KDTree {
    /// The tree is well formed over its points and stores each of them once.
    pub open spec fn wf(&self) -> bool {
        &&& subtree_wf(self.root, self.points@, 0)
        &&& subtree_list(self.root).no_duplicates()
        &&& forall|x: usize| #[trigger] subtree_ids(self.root).contains(x) <==> x < self.points@.len()
    }

    /// The height of the tree: 0 when empty.
    pub fn height(&self) -> (r: usize)
        requires
            self.wf(),
        ensures
            r == subtree_height(self.root),
    {
        let count: usize = self.points.len();
        proof {
            lemma_height_bounded(*self);
            assert(subtree_height(self.root) <= count);
        }
        match &self.root {
            None => 0,
            Some(node) => {
                assert(self.root == Some(Box::new(**node)));
                node.height()
            },
        }
    }
}

impl KDTreeNode {
    /// The height of the subtree rooted here. `lemma_height_le_list` bounds
    /// it by the number of indices stored below.
    pub fn height(&self) -> (r: usize)
        requires
            subtree_height(Some(Box::new(*self))) <= usize::MAX,
        ensures
            r == subtree_height(Some(Box::new(*self))),
        decreases subtree_height(Some(Box::new(*self))),
    {
        let ht: usize = match &self.left {
            None => 0,
            Some(l) => l.height(),
        };
        let rht: usize = match &self.right {
            None => 0,
            Some(r) => r.height(),
        };
        proof {
            let me = Some(Box::new(*self));
            assert(ht == subtree_height(self.left));
            assert(rht == subtree_height(self.right));
            assert(subtree_height(me) == (if ht >= rht { ht as nat } else { rht as nat }) + 1);
        }
        if ht >= rht {
            ht + 1
        } else {
            rht + 1
        }
    }
}

/// The sort key of point `id` on axis `d`: its coordinate on `d`, then on
/// the other axis, then the index itself.
pub open spec fn axis_key(points: Seq<Point>, d: int, id: usize) -> (i64, i64, usize) {
    (points[id as int].0[d], points[id as int].0[1 - d], id)
}

/// `a` comes no later than `b` in the lexicographic order of triples.
pub open spec fn triple_le(a: (i64, i64, usize), b: (i64, i64, usize)) -> bool {
    a.0 < b.0 || (a.0 == b.0 && (a.1 < b.1 || (a.1 == b.1 && a.2 <= b.2)))
}

/// Relies on `slice::sort` with std's `Ord` for tuples of integers, which is
/// lexicographic: the result is a permutation of the input, in ascending order.
#[verifier::external_body]
fn sort_triples(v: &mut Vec<(i64, i64, usize)>)
    ensures
        final(v)@.to_multiset() == old(v)@.to_multiset(),
        forall|i: int, j: int| 0 <= i < j < final(v)@.len() ==> triple_le(#[trigger] final(v)@[i], #[trigger] final(v)@[j]),
{
    v.sort()
}

/// The indices in `s` are ascending on axis `d` of their points.
pub open spec fn sorted_on(s: Seq<usize>, points: Seq<Point>, d: int) -> bool {
    forall|i: int, j: int| 0 <= i < j < s.len() ==> points[#[trigger] s[i] as int].0[d] <= points[#[trigger] s[j] as int].0[d]
}

/// A distinct list of valid indices, ascending on axis `d`.
pub open spec fn axis_order_ok(s: Seq<usize>, points: Seq<Point>, d: int) -> bool {
    &&& s.no_duplicates()
    &&& forall|t: int| 0 <= t < s.len() ==> #[trigger] s[t] < points.len()
    &&& sorted_on(s, points, d)
}

/// Every index of `points`, ordered by `axis_key` on axis `d`.
fn sort_axis(points: &Vec<Point>, d: usize) -> (r: Vec<usize>)
    requires
        d < 2,
    ensures
        axis_order_ok(r@, points@, d as int),
        r@.len() == points@.len(),
        forall|x: usize| r@.contains(x) <==> x < points@.len(),
        forall|i: int, j: int| 0 <= i < j < r@.len() ==>
            triple_le(axis_key(points@, d as int, #[trigger] r@[i]), axis_key(points@, d as int, #[trigger] r@[j])),
{
    broadcast use vstd::seq_lib::group_to_multiset_ensures;
    let n = points.len();
    let mut keys: Vec<(i64, i64, usize)> = Vec::new();
    let mut i: usize = 0;
    while i < n
        invariant
            i <= n,
            n == points@.len(),
            d < 2,
            keys@.len() == i,
            forall|t: int| 0 <= t < i ==> #[trigger] keys@[t] == axis_key(points@, d as int, t as usize),
        decreases n - i,
    {
        let p = points[i];
        keys.push((p.0[d], p.0[1 - d], i));
        i = i + 1;
    }
    let ghost unsorted = keys@;
    proof {
        assert(unsorted.no_duplicates());
        unsorted.lemma_multiset_has_no_duplicates();
    }
    sort_triples(&mut keys);
    let ghost sorted = keys@;
    proof {
        assert forall|u: (i64, i64, usize)| sorted.to_multiset().contains(u) implies sorted.to_multiset().count(u) == 1 by {
            assert(unsorted.to_multiset().contains(u));
        }
        sorted.lemma_multiset_has_no_duplicates_conv();
        assert(sorted.len() == n) by {
            assert(sorted.to_multiset().len() == unsorted.to_multiset().len());
        }
        assert forall|t: int| 0 <= t < sorted.len() implies #[trigger] sorted[t] == axis_key(points@, d as int, sorted[t].2) && sorted[t].2 < n by {
            assert(sorted.contains(sorted[t]));
            assert(sorted.to_multiset().count(sorted[t]) > 0);
            assert(unsorted.contains(sorted[t]));
            let w = choose|w: int| 0 <= w < unsorted.len() && unsorted[w] == sorted[t];
            assert(unsorted[w] == axis_key(points@, d as int, w as usize));
        }
    }
    let mut out: Vec<usize> = Vec::new();
    let mut t: usize = 0;
    while t < n
        invariant
            t <= n,
            n == points@.len(),
            keys@ == sorted,
            sorted.len() == n,
            out@.len() == t,
            forall|s: int| 0 <= s < t ==> #[trigger] out@[s] == sorted[s].2,
        decreases n - t,
    {
        out.push(keys[t].2);
        t = t + 1;
    }
    proof {
        assert forall|a: int, b: int| 0 <= a < b < out@.len() implies
            triple_le(axis_key(points@, d as int, #[trigger] out@[a]), axis_key(points@, d as int, #[trigger] out@[b])) by {
            assert(sorted[a] == axis_key(points@, d as int, sorted[a].2));
            assert(sorted[b] == axis_key(points@, d as int, sorted[b].2));
            assert(triple_le(sorted[a], sorted[b]));
        }
        assert forall|a: int, b: int| 0 <= a < b < out@.len() implies
            points@[#[trigger] out@[a] as int].0[d as int] <= points@[#[trigger] out@[b] as int].0[d as int] by {
            assert(sorted[a] == axis_key(points@, d as int, sorted[a].2));
            assert(sorted[b] == axis_key(points@, d as int, sorted[b].2));
            assert(triple_le(sorted[a], sorted[b]));
        }
        assert forall|a: int, b: int| 0 <= a < out@.len() && 0 <= b < out@.len() && a != b implies out@[a] != out@[b] by {
            assert(sorted[a] == axis_key(points@, d as int, sorted[a].2));
            assert(sorted[b] == axis_key(points@, d as int, sorted[b].2));
        }
        assert forall|x: usize| out@.contains(x) <==> x < n by {
            if x < n {
                assert(unsorted[x as int] == axis_key(points@, d as int, x));
                assert(unsorted.contains(axis_key(points@, d as int, x)));
                assert(unsorted.to_multiset().count(axis_key(points@, d as int, x)) > 0);
                assert(sorted.contains(axis_key(points@, d as int, x)));
                let w = choose|w: int| 0 <= w < sorted.len() && sorted[w] == axis_key(points@, d as int, x);
                assert(out@[w] == x);
            }
            if out@.contains(x) {
                let w = choose|w: int| 0 <= w < out@.len() && out@[w] == x;
                assert(sorted[w].2 < n);
            }
        }
    }
    out
}

/// The point indices of one subtree to build, sorted once per axis.
struct PreSorted {
    by_lon: Vec<usize>,
    by_lat: Vec<usize>,
}

impl PreSorted {
    spec fn axis(&self, d: int) -> Seq<usize> {
        if d == 0 {
            self.by_lon@
        } else {
            self.by_lat@
        }
    }

    /// Both orders hold the same distinct valid indices, each sorted on its axis.
    spec fn wf(&self, points: Seq<Point>) -> bool {
        &&& axis_order_ok(self.by_lon@, points, 0)
        &&& axis_order_ok(self.by_lat@, points, 1)
        &&& self.by_lon@.len() == self.by_lat@.len()
        &&& forall|x: usize| self.by_lon@.contains(x) <==> self.by_lat@.contains(x)
    }

    fn axis_ids(&self, d: usize) -> (r: &Vec<usize>)
        requires
            d < 2,
        ensures
            r@ == self.axis(d as int),
    {
        if d == 0 {
            &self.by_lon
        } else {
            &self.by_lat
        }
    }
}

/// Two duplicate-free sequences with the same elements have the same length.
proof fn lemma_same_elements_same_len(a: Seq<usize>, b: Seq<usize>)
    requires
        a.no_duplicates(),
        b.no_duplicates(),
        forall|x: usize| a.contains(x) <==> b.contains(x),
    ensures
        a.len() == b.len(),
{
    assert(a.to_set() =~= b.to_set());
    a.unique_seq_to_set();
    b.unique_seq_to_set();
}

/// What a sequence holds after a push.
pub(crate) proof fn lemma_push_contains(s: Seq<usize>, v: usize)
    ensures
        forall|y: usize| #[trigger] s.push(v).contains(y) <==> (s.contains(y) || v == y),
{
    assert forall|y: usize| #[trigger] s.push(v).contains(y) <==> (s.contains(y) || v == y) by {
        if s.contains(y) {
            let w = choose|w: int| 0 <= w < s.len() && s[w] == y;
            assert(s.push(v)[w] == y);
        }
        if v == y {
            assert(s.push(v)[s.len() as int] == y);
        }
        if s.push(v).contains(y) && v != y {
            let w = choose|w: int| 0 <= w < s.len() + 1 && s.push(v)[w] == y;
            assert(s[w] == y);
        }
    }
}

/// A stretch of a distinct, valid, axis-sorted list is one too.
proof fn lemma_subrange_order_ok(s: Seq<usize>, points: Seq<Point>, d: int, lo: int, hi: int)
    requires
        axis_order_ok(s, points, d),
        0 <= lo <= hi <= s.len(),
    ensures
        axis_order_ok(s.subrange(lo, hi), points, d),
{
    let r = s.subrange(lo, hi);
    assert forall|i: int, j: int| 0 <= i < j < r.len() implies points[#[trigger] r[i] as int].0[d] <= points[#[trigger] r[j] as int].0[d] by {
        assert(r[i] == s[lo + i] && r[j] == s[lo + j]);
    }
    assert forall|i: int, j: int| 0 <= i < r.len() && 0 <= j < r.len() && i != j implies r[i] != r[j] by {
        assert(r[i] == s[lo + i] && r[j] == s[lo + j]);
    }
}

/// Every index of `points`, sorted once on each axis.
fn pre_sort(points: &Vec<Point>) -> (r: PreSorted)
    ensures
        r.wf(points@),
        r.by_lon@.len() == points@.len(),
        forall|x: usize| r.by_lon@.contains(x) <==> x < points@.len(),
        forall|d: int, i: int, j: int| 0 <= d < 2 && 0 <= i < j < r.axis(d).len() ==>
            triple_le(axis_key(points@, d, #[trigger] r.axis(d)[i]), axis_key(points@, d, #[trigger] r.axis(d)[j])),
{
    let by_lon = sort_axis(points, 0);
    let by_lat = sort_axis(points, 1);
    PreSorted { by_lon, by_lat }
}

/// The elements of `s` from position `lo` up to, not including, `hi`.
fn copy_range(s: &Vec<usize>, lo: usize, hi: usize) -> (r: Vec<usize>)
    requires
        lo <= hi <= s@.len(),
    ensures
        r@ == s@.subrange(lo as int, hi as int),
{
    let mut r: Vec<usize> = Vec::new();
    let mut i: usize = lo;
    while i < hi
        invariant
            lo <= i <= hi <= s@.len(),
            r@ == s@.subrange(lo as int, i as int),
        decreases hi - i,
    {
        r.push(s[i]);
        i = i + 1;
        assert(r@ =~= s@.subrange(lo as int, i as int));
    }
    r
}

/// Whether `x` occurs in `s`.
fn holds(s: &Vec<usize>, x: usize) -> (r: bool)
    ensures
        r == s@.contains(x),
{
    let mut i: usize = 0;
    while i < s.len()
        invariant
            i <= s@.len(),
            forall|t: int| 0 <= t < i ==> s@[t] != x,
        decreases s@.len() - i,
    {
        if s[i] == x {
            return true;
        }
        i = i + 1;
    }
    false
}

/// On the other axis, the indices that go below the median on axis `dim`.
spec fn below_pred(points: Seq<Point>, equal: Seq<usize>, med: usize, dim: int) -> spec_fn(usize) -> bool {
    |x: usize| x != med && !equal.contains(x) && points[x as int].0[dim] < points[med as int].0[dim]
}

/// On the other axis, the indices that go at or above the median on axis
/// `dim`, the median and its duplicates left out.
spec fn above_pred(points: Seq<Point>, equal: Seq<usize>, med: usize, dim: int) -> spec_fn(usize) -> bool {
    |x: usize| x != med && !equal.contains(x) && points[x as int].0[dim] >= points[med as int].0[dim]
}

impl PreSorted {
    /// Splits at the median on axis `dim`: the median index, the indices after
    /// it at the very same place, and the remaining indices strictly below and
    /// at or above the median's coordinate on `dim`, each still sorted on both
    /// axes.
    #[verifier::rlimit(100)]
    fn split_med(&self, points: &Vec<Point>, dim: usize) -> (r: (usize, Vec<usize>, PreSorted, PreSorted))
        requires
            self.wf(points@),
            dim < 2,
            self.by_lon@.len() >= 2,
        ensures
            ({
                let (med, equal, left, right) = r;
                let pivot = points@[med as int].0[dim as int];
                let cd = self.axis(dim as int);
                let half = (cd.len() / 2) as int;
                &&& exists|m: int| {
                    &&& 0 <= m <= half
                    &&& #[trigger] cd[m] == med
                    &&& pivot == points@[cd[half] as int].0[dim as int]
                    &&& (m == 0 || points@[cd[m - 1] as int].0[dim as int] != pivot)
                    &&& equal@ == cd.subrange(m + 1, m + 1 + equal@.len())
                    &&& (m + 1 + equal@.len() == cd.len()
                        || !same_place(points@[cd[m + 1 + equal@.len()] as int], points@[med as int]))
                    &&& left.axis(dim as int) == cd.subrange(0, m)
                    &&& right.axis(dim as int) == cd.subrange(m + 1 + equal@.len(), cd.len() as int)
                }
                &&& left.axis(1 - dim) == self.axis(1 - dim).filter(below_pred(points@, equal@, med, dim as int))
                &&& right.axis(1 - dim) == self.axis(1 - dim).filter(above_pred(points@, equal@, med, dim as int))
                &&& self.by_lon@.contains(med)
                &&& equal@.no_duplicates()
                &&& !equal@.contains(med)
                &&& forall|t: int| 0 <= t < equal@.len() ==> {
                    &&& self.by_lon@.contains(#[trigger] equal@[t])
                    &&& equal@[t] < points@.len()
                    &&& same_place(points@[equal@[t] as int], points@[med as int])
                }
                &&& left.wf(points@)
                &&& right.wf(points@)
                &&& forall|x: usize| #[trigger] left.by_lon@.contains(x) <==> (self.by_lon@.contains(x) && points@[x as int].0[dim as int] < pivot)
                &&& forall|x: usize| #[trigger] right.by_lon@.contains(x) <==> (self.by_lon@.contains(x)
                    && points@[x as int].0[dim as int] >= pivot && x != med && !equal@.contains(x))
                &&& left.by_lon@.len() < self.by_lon@.len()
                &&& right.by_lon@.len() < self.by_lon@.len()
            }),
    {
        let cd = self.axis_ids(dim);
        let len = cd.len();
        proof {
            if dim == 1 {
                lemma_same_elements_same_len(self.by_lon@, self.by_lat@);
            }
        }
        let mut m: usize = len / 2;
        while m > 0 && points[cd[m - 1]].0[dim] == points[cd[m]].0[dim]
            invariant
                m <= len / 2,
                points@[cd@[m as int] as int].0[dim as int] == points@[cd@[(len / 2) as int] as int].0[dim as int],
                len == cd@.len(),
                len >= 2,
                dim < 2,
                axis_order_ok(cd@, points@, dim as int),
            decreases m,
        {
            m = m - 1;
        }
        let mut mh: usize = m;
        while mh < len - 1 && points[cd[mh + 1]].same_as(&points[cd[m]])
            invariant
                m <= mh <= len - 1,
                len == cd@.len(),
                len >= 2,
                dim < 2,
                axis_order_ok(cd@, points@, dim as int),
                forall|q: int| m < q <= mh ==> same_place(#[trigger] points@[cd@[q] as int], points@[cd@[m as int] as int]),
            decreases len - mh,
        {
            mh = mh + 1;
        }
        let med = cd[m];
        let equal = copy_range(cd, m + 1, mh + 1);
        assert(cd@[m as int] == med);
        let pivot = points[med].0[dim];
        let below = copy_range(cd, 0, m);
        let above = copy_range(cd, mh + 1, len);
        let ghost all = cd@;
        proof {
            // Positions before m lie strictly below the pivot, the others at or above it.
            assert forall|q: int| 0 <= q < len implies (#[trigger] points@[all[q] as int].0[dim as int] < pivot <==> q < m) by {
                if q < m {
                    assert(points@[all[m - 1] as int].0[dim as int] != pivot);
                    if q < m - 1 {
                        assert(points@[all[q] as int].0[dim as int] <= points@[all[m - 1] as int].0[dim as int]);
                    }
                    assert(points@[all[m - 1] as int].0[dim as int] <= pivot);
                } else if q > m {
                    assert(points@[all[m as int] as int].0[dim as int] <= points@[all[q] as int].0[dim as int]);
                }
            }
        }

        let other: usize = 1 - dim;
        let co = self.axis_ids(other);
        let mut left_o: Vec<usize> = Vec::new();
        let mut right_o: Vec<usize> = Vec::new();
        let mut a: usize = 0;
        while a < co.len()
            invariant
                a <= co@.len(),
                dim < 2,
                other == 1 - dim,
                co@ == self.axis(other as int),
                self.wf(points@),
                pivot == points@[med as int].0[dim as int],
                med < points@.len(),
                axis_order_ok(co@, points@, other as int),
                forall|t: int| 0 <= t < left_o@.len() ==> #[trigger] left_o@[t] < points@.len(),
                forall|t: int| 0 <= t < right_o@.len() ==> #[trigger] right_o@[t] < points@.len(),
                left_o@.no_duplicates(),
                right_o@.no_duplicates(),
                sorted_on(left_o@, points@, other as int),
                sorted_on(right_o@, points@, other as int),
                forall|t: int, q: int| 0 <= t < left_o@.len() && a <= q < co@.len() ==>
                    points@[#[trigger] left_o@[t] as int].0[other as int] <= points@[#[trigger] co@[q] as int].0[other as int],
                forall|t: int, q: int| 0 <= t < right_o@.len() && a <= q < co@.len() ==>
                    points@[#[trigger] right_o@[t] as int].0[other as int] <= points@[#[trigger] co@[q] as int].0[other as int],
                left_o@ == co@.subrange(0, a as int).filter(below_pred(points@, equal@, med, dim as int)),
                right_o@ == co@.subrange(0, a as int).filter(above_pred(points@, equal@, med, dim as int)),
                forall|x: usize| left_o@.contains(x) <==> (co@.subrange(0, a as int).contains(x)
                    && x != med && !equal@.contains(x) && points@[x as int].0[dim as int] < pivot),
                forall|x: usize| right_o@.contains(x) <==> (co@.subrange(0, a as int).contains(x)
                    && x != med && !equal@.contains(x) && points@[x as int].0[dim as int] >= pivot),
            decreases co@.len() - a,
        {
            let x = co[a];
            let ghost seen = co@.subrange(0, a as int);
            let ghost l0 = left_o@;
            let ghost r0 = right_o@;
            proof {
                assert(co@.subrange(0, a + 1) == seen.push(x));
                assert(!seen.contains(x));
                lemma_push_contains(seen, x);
                lemma_push_contains(l0, x);
                lemma_push_contains(r0, x);
                assert(!l0.contains(x));
                assert(!r0.contains(x));
                seen.lemma_filter_push(x, below_pred(points@, equal@, med, dim as int));
                seen.lemma_filter_push(x, above_pred(points@, equal@, med, dim as int));
            }
            if x != med && !holds(&equal, x) {
                if points[x].0[dim] < pivot {
                    left_o.push(x);
                } else {
                    right_o.push(x);
                }
            }
            a = a + 1;
        }
        assert(co@.subrange(0, co@.len() as int) == co@);
        proof {
            assert(all.subrange(0, m as int) == below@);
            assert(all.subrange(m + 1 + equal@.len(), len as int) == above@);
            assert(all.contains(med));
            assert forall|x: usize| all.contains(x) <==> self.by_lon@.contains(x) by {}
            assert forall|x: usize| co@.contains(x) <==> self.by_lon@.contains(x) by {}
            assert forall|t: int| 0 <= t < equal@.len() implies {
                &&& all.contains(#[trigger] equal@[t])
                &&& equal@[t] < points@.len()
                &&& same_place(points@[equal@[t] as int], points@[med as int])
            } by {
                assert(equal@[t] == all[m + 1 + t]);
            }
            lemma_subrange_order_ok(all, points@, dim as int, 0, m as int);
            lemma_subrange_order_ok(all, points@, dim as int, m + 1, mh + 1);
            if equal@.contains(med) {
                let e = choose|e: int| 0 <= e < equal@.len() && equal@[e] == med;
                assert(all[m + 1 + e] == med);
            }
            lemma_subrange_order_ok(all, points@, dim as int, mh + 1, len as int);
            assert forall|x: usize| below@.contains(x) <==> (all.contains(x) && points@[x as int].0[dim as int] < pivot) by {
                if below@.contains(x) {
                    let q = choose|q: int| 0 <= q < below@.len() && below@[q] == x;
                    assert(all[q] == x);
                }
                if all.contains(x) && points@[x as int].0[dim as int] < pivot {
                    let q = choose|q: int| 0 <= q < all.len() && all[q] == x;
                    assert(points@[all[q] as int].0[dim as int] < pivot);
                    assert(below@[q] == x);
                }
            }
            assert forall|x: usize| above@.contains(x) <==> (all.contains(x)
                && points@[x as int].0[dim as int] >= pivot && x != med && !equal@.contains(x)) by {
                if above@.contains(x) {
                    let q = choose|q: int| 0 <= q < above@.len() && above@[q] == x;
                    assert(all[mh + 1 + q] == x);
                    assert(points@[all[mh + 1 + q] as int].0[dim as int] >= pivot);
                    assert(all[m as int] == med);
                    if equal@.contains(x) {
                        let e = choose|e: int| 0 <= e < equal@.len() && equal@[e] == x;
                        assert(all[m + 1 + e] == x);
                    }
                }
                if all.contains(x) && points@[x as int].0[dim as int] >= pivot && x != med && !equal@.contains(x) {
                    let q = choose|q: int| 0 <= q < all.len() && all[q] == x;
                    assert(points@[all[q] as int].0[dim as int] >= pivot);
                    assert(q >= m);
                    assert(q != m);
                    if q <= mh {
                        assert(equal@[q - m - 1] == x);
                    }
                    assert(above@[q - mh - 1] == x);
                }
            }
            assert forall|x: usize| left_o@.contains(x) <==> below@.contains(x) by {
                if all.contains(x) && points@[x as int].0[dim as int] < pivot {
                    if equal@.contains(x) {
                        let e = choose|e: int| 0 <= e < equal@.len() && equal@[e] == x;
                        assert(same_place(points@[equal@[e] as int], points@[med as int]));
                    }
                }
            }
            assert forall|x: usize| right_o@.contains(x) <==> above@.contains(x) by {}
            lemma_same_elements_same_len(left_o@, below@);
            lemma_same_elements_same_len(right_o@, above@);
        }
        let (left, right) = if dim == 0 {
            (PreSorted { by_lon: below, by_lat: left_o }, PreSorted { by_lon: above, by_lat: right_o })
        } else {
            (PreSorted { by_lon: left_o, by_lat: below }, PreSorted { by_lon: right_o, by_lat: above })
        };
        (med, equal, left, right)
    }
}

/// The number of binary digits of `n`: floor(log2 n) + 1, or 0 for 0.
pub open spec fn bit_length(n: nat) -> nat
    decreases n,
{
    if n == 0 {
        0
    } else {
        1 + bit_length(n / 2)
    }
}

/// No two points share a coordinate on either axis.
pub open spec fn distinct_coords(points: Seq<Point>) -> bool {
    forall|i: int, j: int| 0 <= i < points.len() && 0 <= j < points.len() && i != j ==>
        #[trigger] points[i].0[0] != #[trigger] points[j].0[0] && points[i].0[1] != points[j].0[1]
}

/// More indices never take fewer binary digits.
proof fn lemma_bit_length_monotone(a: nat, b: nat)
    requires
        a <= b,
    ensures
        bit_length(a) <= bit_length(b),
    decreases b,
{
    if a > 0 {
        lemma_bit_length_monotone(a / 2, b / 2);
    }
}

/// Builds the subtree over the indices of `nodes`, splitting first on axis
/// `split` and then alternating.
fn build_tree(split: usize, nodes: &PreSorted, points: &Vec<Point>) -> (r: Option<Box<KDTreeNode>>)
    requires
        split < 2,
        nodes.wf(points@),
    ensures
        subtree_wf(r, points@, split),
        forall|x: usize| #[trigger] subtree_ids(r).contains(x) <==> nodes.by_lon@.contains(x),
        subtree_list(r).no_duplicates(),
        distinct_coords(points@) ==> subtree_height(r) <= bit_length(nodes.by_lon@.len()),
    decreases nodes.by_lon@.len(),
{
    let cur = nodes.axis_ids(split);
    if cur.len() == 0 {
        proof {
            assert forall|x: usize| !nodes.by_lon@.contains(x) by {
                if nodes.by_lon@.contains(x) {
                    assert(nodes.by_lat@.contains(x));
                }
            }
        }
        None
    } else if cur.len() == 1 {
        let id = cur[0];
        let node = KDTreeNode { point_id: id, equal_ids: Vec::new(), split, left: None, right: None };
        let r = Some(Box::new(node));
        proof {
            assert(cur@.contains(id));
            assert(cur@[0] < points@.len());
            assert(node.equal_ids@.to_set() =~= Set::empty());
            assert(subtree_ids(None) == Set::<usize>::empty());
            assert(subtree_ids(r) =~= Set::empty().insert(id));
            assert(subtree_wf(None, points@, (1 - split) as usize));
            assert(subtree_wf(r, points@, split));
            assert(subtree_list(None) == Seq::<usize>::empty());
            assert(node.equal_ids@ == Seq::<usize>::empty());
            assert(subtree_list(r) =~= seq![id]);
            assert(subtree_height(r) == 1);
            assert(bit_length(1) == 1 + bit_length(0));
            assert forall|x: usize| #[trigger] subtree_ids(r).contains(x) <==> nodes.by_lon@.contains(x) by {
                assert(subtree_ids(r).contains(x) <==> x == id);
                if nodes.by_lon@.contains(x) {
                    assert(cur@.contains(x));
                    let w = choose|w: int| 0 <= w < cur@.len() && cur@[w] == x;
                    assert(w == 0);
                }
            }
        }
        r
    } else {
        proof {
            lemma_same_elements_same_len(nodes.by_lon@, nodes.by_lat@);
        }
        let (med, equal, left, right) = nodes.split_med(points, split);
        let l = build_tree(1 - split, &left, points);
        let rt = build_tree(1 - split, &right, points);
        let node = KDTreeNode { point_id: med, equal_ids: equal, split, left: l, right: rt };
        let r = Some(Box::new(node));
        proof {
            let pivot = points@[med as int].0[split as int];
            let w = choose|w: int| 0 <= w < nodes.by_lon@.len() && nodes.by_lon@[w] == med;
            assert(nodes.by_lon@[w] < points@.len());
            assert forall|x: usize| #[trigger] subtree_ids(l).contains(x) implies
                x < points@.len() && points@[x as int].0[split as int] < pivot by {
                let q = choose|q: int| 0 <= q < left.by_lon@.len() && left.by_lon@[q] == x;
                assert(left.by_lon@[q] < points@.len());
            }
            assert forall|x: usize| #[trigger] subtree_ids(rt).contains(x) implies
                x < points@.len() && points@[x as int].0[split as int] >= pivot by {
                assert(right.by_lon@.contains(x));
                let q = choose|q: int| 0 <= q < right.by_lon@.len() && right.by_lon@[q] == x;
                assert(right.by_lon@[q] < points@.len());
                assert(nodes.by_lon@.contains(x) && points@[x as int].0[split as int] >= pivot);
            }
            assert(subtree_ids(r) == Set::empty().insert(med).union(equal@.to_set()).union(
                subtree_ids(l)).union(subtree_ids(rt)));
            assert(subtree_wf(r, points@, split));
            assert forall|x: usize| #[trigger] subtree_ids(r).contains(x) <==> nodes.by_lon@.contains(x) by {
                assert(node.equal_ids@.to_set().contains(x) <==> equal@.contains(x));
                if equal@.contains(x) {
                    let e = choose|e: int| 0 <= e < equal@.len() && equal@[e] == x;
                    assert(nodes.by_lon@.contains(equal@[e]));
                }
            }
            lemma_list_is_ids(l);
            lemma_list_is_ids(rt);
            let head = seq![med];
            assert(head.no_duplicates());
            assert forall|x: usize| head.contains(x) <==> x == med by {
                if x == med {
                    assert(head[0] == x);
                }
            }
            lemma_concat_distinct(head, equal@);
            assert forall|x: usize| !((head + equal@).contains(x) && subtree_list(l).contains(x)) by {
                if (head + equal@).contains(x) && subtree_list(l).contains(x) {
                    if equal@.contains(x) {
                        let e = choose|e: int| 0 <= e < equal@.len() && equal@[e] == x;
                        assert(same_place(points@[equal@[e] as int], points@[med as int]));
                    }
                }
            }
            lemma_concat_distinct(head + equal@, subtree_list(l));
            assert forall|x: usize| !((head + equal@ + subtree_list(l)).contains(x) && subtree_list(rt).contains(x)) by {
                if (head + equal@ + subtree_list(l)).contains(x) && subtree_list(rt).contains(x) {
                    assert(subtree_ids(rt).contains(x));
                    if subtree_list(l).contains(x) {
                        assert(subtree_ids(l).contains(x));
                    }
                }
            }
            lemma_concat_distinct(head + equal@ + subtree_list(l), subtree_list(rt));
            if distinct_coords(points@) {
                let cd = nodes.axis(split as int);
                let len = cd.len();
                let half = (len / 2) as int;
                let m = choose|m: int| {
                    &&& 0 <= m <= half
                    &&& #[trigger] cd[m] == med
                    &&& pivot == points@[cd[half] as int].0[split as int]
                    &&& (m == 0 || points@[cd[m - 1] as int].0[split as int] != pivot)
                    &&& equal@ == cd.subrange(m + 1, m + 1 + equal@.len())
                    &&& (m + 1 + equal@.len() == cd.len()
                        || !same_place(points@[cd[m + 1 + equal@.len()] as int], points@[med as int]))
                    &&& left.axis(split as int) == cd.subrange(0, m)
                    &&& right.axis(split as int) == cd.subrange(m + 1 + equal@.len(), cd.len() as int)
                };
                assert(len == nodes.by_lon@.len());
                if equal@.len() > 0 {
                    assert(same_place(points@[equal@[0] as int], points@[med as int]));
                    assert(equal@.contains(equal@[0]));
                    assert(points@[equal@[0] as int].0[0] == points@[med as int].0[0]);
                }
                if m < half {
                    assert(cd[m] != cd[half]);
                    assert(points@[cd[m] as int].0[split as int] == points@[cd[half] as int].0[split as int]);
                }
                assert(m == half);
                assert(left.by_lon@.len() == left.axis(split as int).len());
                assert(right.by_lon@.len() == right.axis(split as int).len());
                assert(left.by_lon@.len() <= len / 2);
                assert(right.by_lon@.len() <= len / 2);
                lemma_bit_length_monotone(left.by_lon@.len(), len / 2);
                lemma_bit_length_monotone(right.by_lon@.len(), len / 2);
                assert(bit_length(len) == 1 + bit_length(len / 2));
            }
        }
        r
    }
}

/// Builds the tree over `points`, splitting each subtree at its median.
pub fn new_kd_tree(points: Vec<Point>) -> (r: KDTree)
    ensures
        r.points@ == points@,
        r.wf(),
        distinct_coords(points@) ==> subtree_height(r.root) <= bit_length(points@.len()),
{
    let mut result = KDTree { points, root: None };
    if result.points.len() > 0 {
        let sorted = pre_sort(&result.points);
        result.root = build_tree(0, &sorted, &result.points);
    }
    result
}

/// Appending a point keeps a subtree well formed: its indices all name
/// earlier points.
proof fn lemma_wf_extend(t: Option<Box<KDTreeNode>>, points: Seq<Point>, p: Point, split: usize)
    requires
        subtree_wf(t, points, split),
    ensures
        subtree_wf(t, points.push(p), split),
    decreases t,
{
    match t {
        None => {},
        Some(node) => {
            let ext = points.push(p);
            lemma_wf_extend(node.left, points, p, (1 - split) as usize);
            lemma_wf_extend(node.right, points, p, (1 - split) as usize);
            assert(ext[node.point_id as int] == points[node.point_id as int]);
            assert forall|e: int| 0 <= e < node.equal_ids@.len() implies {
                &&& #[trigger] node.equal_ids@[e] < ext.len()
                &&& same_place(ext[node.equal_ids@[e] as int], ext[node.point_id as int])
            } by {
                assert(ext[node.equal_ids@[e] as int] == points[node.equal_ids@[e] as int]);
            }
            assert forall|x: usize| #[trigger] subtree_ids(node.left).contains(x) implies
                x < ext.len() && ext[x as int].0[split as int] < ext[node.point_id as int].0[split as int] by {
                assert(ext[x as int] == points[x as int]);
            }
            assert forall|x: usize| #[trigger] subtree_ids(node.right).contains(x) implies
                x < ext.len() && ext[x as int].0[split as int] >= ext[node.point_id as int].0[split as int] by {
                assert(ext[x as int] == points[x as int]);
            }
        },
    }
}

/// The subtree root that results from placing the leaf `n` below `t`: at
/// each node go left where the leaf's point lies strictly below the node's on
/// the node's own axis, right otherwise; at the end the leaf takes the axis
/// `split` of its level.
pub open spec fn walk_insert(t: Option<Box<KDTreeNode>>, split: usize, n: KDTreeNode, points: Seq<Point>) -> KDTreeNode
    decreases t,
{
    match t {
        None => KDTreeNode { split, ..n },
        Some(node) => if points[n.point_id as int].0[node.split as int] < points[node.point_id as int].0[node.split as int] {
            KDTreeNode { left: Some(Box::new(walk_insert(node.left, (1 - split) as usize, n, points))), ..*node }
        } else {
            KDTreeNode { right: Some(Box::new(walk_insert(node.right, (1 - split) as usize, n, points))), ..*node }
        },
    }
}

/// Placing a leaf raises the height of a subtree by at most one.
pub proof fn lemma_walk_height(t: Option<Box<KDTreeNode>>, split: usize, n: KDTreeNode, points: Seq<Point>)
    requires
        n.left is None,
        n.right is None,
    ensures
        subtree_height(t) <= subtree_height(Some(Box::new(walk_insert(t, split, n, points)))),
        subtree_height(Some(Box::new(walk_insert(t, split, n, points)))) <= subtree_height(t) + 1,
    decreases t,
{
    match t {
        None => {
            assert(subtree_height(Some(Box::new(walk_insert(t, split, n, points)))) == 1);
        },
        Some(node) => {
            lemma_walk_height(node.left, (1 - split) as usize, n, points);
            lemma_walk_height(node.right, (1 - split) as usize, n, points);
        },
    }
}

/// Places the leaf `n` below `t`, going left where the leaf's point lies
/// strictly below a node's on that node's axis, right otherwise. `split` is
/// the axis of the level at which `t` stands.
fn insert_node(t: Option<Box<KDTreeNode>>, split: usize, n: KDTreeNode, points: &Vec<Point>) -> (r: KDTreeNode)
    requires
        split < 2,
        subtree_wf(t, points@, split),
        n.point_id < points@.len(),
        n.equal_ids@.len() == 0,
        n.left is None,
        n.right is None,
        subtree_list(t).no_duplicates(),
        !subtree_ids(t).contains(n.point_id),
    ensures
        subtree_wf(Some(Box::new(r)), points@, split),
        subtree_ids(Some(Box::new(r))) == subtree_ids(t).insert(n.point_id),
        subtree_list(Some(Box::new(r))).no_duplicates(),
        r == walk_insert(t, split, n, points@),
    decreases t,
{
    match t {
        None => {
            let mut n = n;
            n.split = split;
            proof {
                assert(n.equal_ids@.to_set() =~= Set::empty());
                assert(subtree_ids(None) == Set::<usize>::empty());
                assert(subtree_ids(Some(Box::new(n))) =~= subtree_ids(t).insert(n.point_id));
                assert(subtree_wf(None, points@, (1 - split) as usize));
                assert(subtree_list(None) == Seq::<usize>::empty());
                assert(subtree_list(Some(Box::new(n))) =~= seq![n.point_id]);
            }
            n
        },
        Some(tn) => {
            let mut node: KDTreeNode = *tn;
            let ghost before = node;
            let ghost head = seq![node.point_id];
            proof {
                assert(subtree_list(t) == head + node.equal_ids@ + subtree_list(node.left) + subtree_list(node.right));
                lemma_concat_split(head + node.equal_ids@ + subtree_list(node.left), subtree_list(node.right));
                lemma_concat_split(head + node.equal_ids@, subtree_list(node.left));
                lemma_concat_split(head, node.equal_ids@);
                lemma_list_is_ids(node.left);
                lemma_list_is_ids(node.right);
                assert(!subtree_ids(node.left).contains(n.point_id));
                assert(!subtree_ids(node.right).contains(n.point_id));
            }
            if points[n.point_id].0[node.split] < points[node.point_id].0[node.split] {
                let sub = node.left.take();
                let placed = insert_node(sub, 1 - split, n, points);
                node.left = Some(Box::new(placed));
            } else {
                let sub = node.right.take();
                let placed = insert_node(sub, 1 - split, n, points);
                node.right = Some(Box::new(placed));
            }
            proof {
                broadcast use vstd::seq_lib::lemma_seq_concat_contains_all_elements;
                let new_t = Some(Box::new(node));
                lemma_list_is_ids(node.left);
                lemma_list_is_ids(node.right);
                lemma_list_is_ids(t);
                assert(subtree_list(new_t) == head + node.equal_ids@ + subtree_list(node.left) + subtree_list(node.right));
                assert forall|x: usize| head.contains(x) <==> x == node.point_id by {
                    if x == node.point_id {
                        assert(head[0] == x);
                    }
                }
                assert(node.equal_ids@.to_set().contains(n.point_id) <==> node.equal_ids@.contains(n.point_id));
                assert(!head.contains(n.point_id));
                assert(!node.equal_ids@.contains(n.point_id));
                lemma_concat_distinct(head, node.equal_ids@);
                lemma_concat_distinct(head + node.equal_ids@, subtree_list(node.left));
                lemma_concat_distinct(head + node.equal_ids@ + subtree_list(node.left), subtree_list(node.right));
                assert(subtree_ids(Some(Box::new(node))) =~= subtree_ids(t).insert(n.point_id));
                assert(subtree_wf(Some(Box::new(node)), points@, split));
            }
            node
        },
    }
}

impl KDTree {
    /// Appends `point` to the point list and places it in the tree as a new
    /// leaf. The tree stays well formed; a point already present is stored
    /// again under a new index.
    pub fn insert(&mut self, point: Point)
        requires
            old(self).wf(),
            old(self).points@.len() < usize::MAX,
        ensures
            final(self).points@ == old(self).points@.push(point),
            final(self).wf(),
            exists|leaf: KDTreeNode| {
                &&& leaf.point_id == old(self).points@.len()
                &&& leaf.equal_ids@.len() == 0
                &&& leaf.left is None
                &&& leaf.right is None
                &&& final(self).root == Some(Box::new(walk_insert(old(self).root, 0, leaf, final(self).points@)))
            },
            subtree_height(old(self).root) <= subtree_height(final(self).root) <= subtree_height(old(self).root) + 1,
    {
        let ghost old_points = self.points@;
        self.points.push(point);
        let point_id = self.points.len() - 1;
        proof {
            lemma_wf_extend(self.root, old_points, point, 0);
        }
        let new_node = KDTreeNode { point_id, equal_ids: Vec::new(), split: 0, left: None, right: None };
        let root = self.root.take();
        proof {
            assert(!subtree_ids(root).contains(point_id));
        }
        let node = insert_node(root, 0, new_node, &self.points);
        self.root = Some(Box::new(node));
        proof {
            lemma_walk_height(root, 0, new_node, self.points@);
            assert forall|x: usize| #[trigger] subtree_ids(self.root).contains(x) <==> x < self.points@.len() by {
                if x < old_points.len() {
                    assert(subtree_ids(root).contains(x));
                }
            }
        }
    }
}

} // verus!
