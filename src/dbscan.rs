use vstd::prelude::*;
use bitvec::vec::BitVec;
use crate::point::Cluster;

verus! {

/// A dense set of marks over point indices, kept in a bit-vector.
#[verifier::external_body]
pub struct Marks {
    bits: BitVec,
}

/// The marks held, one per index.
pub uninterp spec fn marks_of(m: Marks) -> Seq<bool>;

impl Marks {
    /// Relies on `BitVec::repeat`: `len` cleared bits.
    #[verifier::external_body]
    fn cleared(len: usize) -> (r: Marks)
        ensures
            marks_of(r) == Seq::new(len as nat, |i: int| false),
    {
        Marks { bits: BitVec::repeat(false, len) }
    }

    /// Relies on `BitSlice::fill`: every bit cleared, the length kept.
    #[verifier::external_body]
    fn clear_all(&mut self)
        ensures
            marks_of(*final(self)) == Seq::new(marks_of(*old(self)).len(), |i: int| false),
    {
        self.bits.fill(false)
    }

    /// Relies on `BitSlice::set`: the bit at `index` becomes `value`.
    #[verifier::external_body]
    fn set(&mut self, index: usize, value: bool)
        requires
            index < marks_of(*old(self)).len(),
        ensures
            marks_of(*final(self)) == marks_of(*old(self)).update(index as int, value),
    {
        self.bits.set(index, value)
    }

    /// Relies on indexing a `BitSlice`: the bit at `index`.
    #[verifier::external_body]
    fn get(&self, index: usize) -> (r: bool)
        requires
            index < marks_of(*self).len(),
        ensures
            r == marks_of(*self)[index as int],
    {
        self.bits[index]
    }
}

/// Every listed neighbour is a valid point index.
pub open spec fn neighbors_valid(neighbors: Seq<Vec<usize>>) -> bool {
    forall|i: int, j: int|
        0 <= i < neighbors.len() && 0 <= j < neighbors[i]@.len() ==> neighbors[i]@[j] < neighbors.len()
}

/// `k` is a member of some cluster.
pub open spec fn in_some_cluster(clusters: Seq<Cluster>, k: usize) -> bool {
    exists|c: int| 0 <= c < clusters.len() && #[trigger] clusters[c].points@.contains(k)
}

/// Every point that is core, and every point in its neighbourhood, lies in a
/// cluster.
pub open spec fn cores_clustered(clusters: Seq<Cluster>, neighbors: Seq<Vec<usize>>, min_points: usize) -> bool {
    forall|k: int| 0 <= k < neighbors.len() && #[trigger] neighbors[k]@.len() >= min_points ==> {
        &&& in_some_cluster(clusters, k as usize)
        &&& forall|t: int| 0 <= t < neighbors[k]@.len() ==> in_some_cluster(clusters, #[trigger] neighbors[k]@[t])
    }
}

/// Every point lies in the noise list or in a cluster.
pub open spec fn covers(clusters: Seq<Cluster>, noise: Seq<usize>, n: nat) -> bool {
    forall|k: usize| k < n ==> noise.contains(k) || in_some_cluster(clusters, k)
}

/// No point lies in two clusters, and no cluster lists a point twice.
pub open spec fn exclusive(clusters: Seq<Cluster>) -> bool {
    &&& forall|c1: int, c2: int, k: usize|
        0 <= c1 < clusters.len() && 0 <= c2 < clusters.len() && c1 != c2
            && #[trigger] clusters[c1].points@.contains(k) ==> !(#[trigger] clusters[c2].points@.contains(k))
    &&& forall|c: int| 0 <= c < clusters.len() ==> (#[trigger] clusters[c]).points@.no_duplicates()
}

/// The shape of a clustering result over `n` points: ids are dense and in
/// order of discovery, each cluster is non-empty, every index is valid and the
/// noise list is strictly ascending.
pub open spec fn well_formed_result(clusters: Seq<Cluster>, noise: Seq<usize>, n: nat) -> bool {
    &&& forall|c: int| 0 <= c < clusters.len() ==> (#[trigger] clusters[c]).c == c
    &&& forall|c: int| 0 <= c < clusters.len() ==> (#[trigger] clusters[c]).points@.len() > 0
    &&& forall|c: int, t: int|
        0 <= c < clusters.len() && 0 <= t < clusters[c].points@.len() ==> (#[trigger] clusters[c].points@[t]) < n
    &&& forall|t: int| 0 <= t < noise.len() ==> #[trigger] noise[t] < n
    &&& forall|s: int, t: int| 0 <= s < t < noise.len() ==> noise[s] < noise[t]
}

/// The state of a scan: the next point of the outer pass, the per-point
/// flags, the finished clusters and the noise log, and, while a cluster
/// grows, its members so far, its frontier with the cursor `j`, and the
/// marks of what the frontier has taken in.
pub struct ScanState {
    pub i: nat,
    pub visited: Seq<bool>,
    pub members: Seq<bool>,
    pub clusters: Seq<Seq<usize>>,
    pub noise: Seq<usize>,
    pub growing: bool,
    pub current: Seq<usize>,
    pub frontier: Seq<usize>,
    pub j: nat,
    pub marks: Seq<bool>,
}

/// `marks` with every index of `s` set.
pub open spec fn mark_all(marks: Seq<bool>, s: Seq<usize>) -> Seq<bool>
    decreases s.len(),
{
    if s.len() == 0 {
        marks
    } else {
        mark_all(marks, s.drop_last()).update(s.last() as int, true)
    }
}

/// Appends to the frontier each index of `s` not yet marked, marking it.
pub open spec fn absorb(frontier: Seq<usize>, marks: Seq<bool>, s: Seq<usize>) -> (Seq<usize>, Seq<bool>)
    decreases s.len(),
{
    if s.len() == 0 {
        (frontier, marks)
    } else {
        let (f, m) = absorb(frontier, marks, s.drop_last());
        let p = s.last();
        if !m[p as int] {
            (f.push(p), m.update(p as int, true))
        } else {
            (f, m)
        }
    }
}

/// The state before the scan over `n` points.
pub open spec fn scan_start(n: nat) -> ScanState {
    ScanState {
        i: 0,
        visited: Seq::new(n, |x: int| false),
        members: Seq::new(n, |x: int| false),
        clusters: Seq::empty(),
        noise: Seq::empty(),
        growing: false,
        current: Seq::empty(),
        frontier: Seq::empty(),
        j: 0,
        marks: Seq::new(n, |x: int| false),
    }
}

/// The scan has visited every point and grows no cluster.
pub open spec fn scan_done(nb: Seq<Vec<usize>>, s: ScanState) -> bool {
    !s.growing && s.i >= nb.len()
}

/// One step of the scan. While a cluster grows, the step handles the
/// frontier entry under the cursor: a first visit takes in the neighbourhood
/// of a core point, and a point not yet in a cluster joins this one; past the
/// end of the frontier the cluster is finished. Otherwise the step visits the
/// next point: skipped if visited, logged as noise if not core, else the seed
/// of a new cluster whose frontier is its neighbourhood.
pub open spec fn scan_step(nb: Seq<Vec<usize>>, min_points: usize, s: ScanState) -> ScanState {
    if s.growing {
        if s.j < s.frontier.len() {
            let k = s.frontier[s.j as int];
            let fresh = !s.visited[k as int];
            let grown = if fresh && nb[k as int]@.len() >= min_points {
                absorb(s.frontier, s.marks, nb[k as int]@)
            } else {
                (s.frontier, s.marks)
            };
            let joins = !s.members[k as int];
            ScanState {
                visited: if fresh { s.visited.update(k as int, true) } else { s.visited },
                members: if joins { s.members.update(k as int, true) } else { s.members },
                current: if joins { s.current.push(k) } else { s.current },
                frontier: grown.0,
                marks: grown.1,
                j: s.j + 1,
                ..s
            }
        } else {
            ScanState {
                i: s.i + 1,
                clusters: s.clusters.push(s.current),
                growing: false,
                current: Seq::empty(),
                frontier: Seq::empty(),
                j: 0,
                ..s
            }
        }
    } else if s.i < nb.len() {
        let i = s.i as int;
        if s.visited[i] {
            ScanState { i: s.i + 1, ..s }
        } else if nb[i]@.len() < min_points {
            ScanState { i: s.i + 1, visited: s.visited.update(i, true), noise: s.noise.push(i as usize), ..s }
        } else {
            ScanState {
                visited: s.visited.update(i, true),
                members: s.members.update(i, true),
                growing: true,
                current: seq![i as usize],
                frontier: nb[i]@,
                j: 0,
                marks: mark_all(Seq::new(nb.len(), |x: int| false), nb[i]@),
                ..s
            }
        }
    } else {
        s
    }
}

/// The state after `fuel` steps.
pub open spec fn scan_run(nb: Seq<Vec<usize>>, min_points: usize, fuel: nat) -> ScanState
    decreases fuel,
{
    if fuel == 0 {
        scan_start(nb.len())
    } else {
        scan_step(nb, min_points, scan_run(nb, min_points, (fuel - 1) as nat))
    }
}

/// The state in which the scan ends.
pub open spec fn scan_outcome(nb: Seq<Vec<usize>>, min_points: usize) -> ScanState {
    scan_run(nb, min_points, choose|f: nat| scan_done(nb, #[trigger] scan_run(nb, min_points, f)))
}

/// A finished scan stays finished, unchanged.
pub proof fn lemma_done_stays(nb: Seq<Vec<usize>>, min_points: usize, f1: nat, f2: nat)
    requires
        scan_done(nb, scan_run(nb, min_points, f1)),
        f1 <= f2,
    ensures
        scan_run(nb, min_points, f2) == scan_run(nb, min_points, f1),
    decreases f2 - f1,
{
    if f2 > f1 {
        lemma_done_stays(nb, min_points, f1, (f2 - 1) as nat);
    }
}

/// The scan is deterministic: any two step counts after which it has finished
/// lead to the same state, which is therefore its outcome.
pub proof fn lemma_scan_deterministic(nb: Seq<Vec<usize>>, min_points: usize, f1: nat, f2: nat)
    requires
        scan_done(nb, scan_run(nb, min_points, f1)),
        scan_done(nb, scan_run(nb, min_points, f2)),
    ensures
        scan_run(nb, min_points, f1) == scan_run(nb, min_points, f2),
        scan_run(nb, min_points, f1) == scan_outcome(nb, min_points),
{
    if f1 <= f2 {
        lemma_done_stays(nb, min_points, f1, f2);
    } else {
        lemma_done_stays(nb, min_points, f2, f1);
    }
    let f = choose|f: nat| scan_done(nb, #[trigger] scan_run(nb, min_points, f));
    if f <= f1 {
        lemma_done_stays(nb, min_points, f, f1);
    } else {
        lemma_done_stays(nb, min_points, f1, f);
    }
}

/// The member lists of the clusters.
pub open spec fn cluster_lists(clusters: Seq<Cluster>) -> Seq<Seq<usize>> {
    clusters.map_values(|c: Cluster| c.points@)
}

/// The scan between clusters, at point `i`.
spec fn idle_state(i: nat, visited: Seq<bool>, members: Seq<bool>, clusters: Seq<Cluster>, noise: Seq<usize>, marks: Seq<bool>) -> ScanState {
    ScanState {
        i,
        visited,
        members,
        clusters: cluster_lists(clusters),
        noise,
        growing: false,
        current: Seq::empty(),
        frontier: Seq::empty(),
        j: 0,
        marks,
    }
}

/// The scan while the cluster seeded at point `i` grows.
spec fn growing_state(
    i: nat,
    visited: Seq<bool>,
    members: Seq<bool>,
    clusters: Seq<Cluster>,
    noise: Seq<usize>,
    current: Seq<usize>,
    frontier: Seq<usize>,
    j: nat,
    marks: Seq<bool>,
) -> ScanState {
    ScanState { i, visited, members, clusters: cluster_lists(clusters), noise, growing: true, current, frontier, j, marks }
}

/// Groups points by density, given for each point the indices of the points in
/// its neighbourhood (itself included).
///
/// Points are visited in ascending order. A visited point whose neighbourhood
/// holds fewer than `min_points` indices is logged as noise; otherwise it seeds
/// a new cluster that grows breadth-first through the neighbourhoods of its
/// core points. Noise is a log of first visits: a point logged there may later
/// join a cluster as a border point. The member lists and the noise log are
/// exactly those of `scan_outcome`, the state in which the scan ends.
#[verifier::loop_isolation(false)]
pub fn cluster_neighborhoods(neighbors: &Vec<Vec<usize>>, min_points: usize) -> (r: (Vec<Cluster>, Vec<usize>))
    requires
        neighbors_valid(neighbors@),
    ensures
        covers(r.0@, r.1@, neighbors@.len()),
        exclusive(r.0@),
        cores_clustered(r.0@, neighbors@, min_points),
        well_formed_result(r.0@, r.1@, neighbors@.len()),
        cluster_lists(r.0@) == scan_outcome(neighbors@, min_points).clusters,
        r.1@ == scan_outcome(neighbors@, min_points).noise,
        forall|t: int| 0 <= t < r.1@.len() ==> neighbors@[#[trigger] r.1@[t] as int]@.len() < min_points,
        forall|c: int| 0 <= c < r.0@.len() ==> neighbors@[(#[trigger] r.0@[c]).points@[0] as int]@.len() >= min_points,
{
    let n = neighbors.len();
    let mut visited: Vec<bool> = Vec::new();
    let mut members: Vec<bool> = Vec::new();
    let mut x: usize = 0;
    while x < n
        invariant
            x <= n,
            visited@ == Seq::new(x as nat, |i: int| false),
            members@ == Seq::new(x as nat, |i: int| false),
        decreases n - x,
    {
        visited.push(false);
        members.push(false);
        x = x + 1;
        assert(visited@ =~= Seq::new(x as nat, |i: int| false));
        assert(members@ =~= Seq::new(x as nat, |i: int| false));
    }
    let mut clusters: Vec<Cluster> = Vec::new();
    let mut noise: Vec<usize> = Vec::new();
    let mut c: usize = 0;
    let mut unique = Marks::cleared(n);
    let ghost mut fuel: nat = 0;
    proof {
        assert(cluster_lists(clusters@) =~= Seq::<Seq<usize>>::empty());
        assert(scan_run(neighbors@, min_points, fuel) == idle_state(0, visited@, members@, clusters@, noise@, marks_of(unique)));
    }

    let mut i: usize = 0;
    while i < n
        invariant
            n == neighbors@.len(),
            neighbors_valid(neighbors@),
            i <= n,
            visited@.len() == n,
            members@.len() == n,
            marks_of(unique).len() == n,
            c == clusters@.len(),
            c <= i,
            forall|k: int| 0 <= k < i ==> visited@[k],
            forall|k: int| 0 <= k < n && #[trigger] visited@[k] ==> noise@.contains(k as usize) || members@[k],
            forall|k: usize| k < n ==> (#[trigger] members@[k as int] <==> in_some_cluster(clusters@, k)),
            forall|k: int| 0 <= k < n && #[trigger] members@[k] ==> visited@[k],
            exclusive(clusters@),
            well_formed_result(clusters@, noise@, n as nat),
            forall|t: int| 0 <= t < noise@.len() ==> #[trigger] noise@[t] < i,
            forall|t: int| 0 <= t < noise@.len() ==> neighbors@[#[trigger] noise@[t] as int]@.len() < min_points,
            forall|q: int| 0 <= q < clusters@.len() ==> neighbors@[(#[trigger] clusters@[q]).points@[0] as int]@.len() >= min_points,
            forall|k: int| 0 <= k < n && #[trigger] visited@[k] && neighbors@[k]@.len() >= min_points ==> {
                &&& members@[k]
                &&& forall|t: int| 0 <= t < neighbors@[k]@.len() ==> members@[#[trigger] neighbors@[k]@[t] as int]
            },
            scan_run(neighbors@, min_points, fuel) == idle_state(i as nat, visited@, members@, clusters@, noise@, marks_of(unique)),
        decreases n - i,
    {
        if visited[i] {
            proof {
                fuel = fuel + 1;
            }
            i = i + 1;
            continue;
        }
        visited.set(i, true);
        let neighbor_pts = neighbors[i].clone();
        if neighbor_pts.len() < min_points {
            let ghost old_noise = noise@;
            noise.push(i);
            proof {
                fuel = fuel + 1;
            }
            assert forall|k: int| 0 <= k < n && #[trigger] visited@[k] implies noise@.contains(k as usize) || members@[k] by {
                if k == i {
                    assert(noise@[noise@.len() - 1] == i);
                } else if old_noise.contains(k as usize) {
                    let t = choose|t: int| 0 <= t < old_noise.len() && old_noise[t] == k as usize;
                    assert(noise@[t] == k as usize);
                }
            }
        } else {
            let ghost before = clusters@;
            let mut points: Vec<usize> = Vec::new();
            points.push(i);
            assert(!members@[i as int]);
            assert(!in_some_cluster(before, i));
            members.set(i, true);
            assert forall|k: usize| points@.contains(k) implies !in_some_cluster(before, k) by {
                assert(points@[0] == i);
            }
            assert forall|k: usize| k < n implies (members@[k as int] <==> (in_some_cluster(before, k) || points@.contains(k))) by {
                if k == i {
                    assert(points@[0] == i);
                } else {
                    assert(points@.contains(k) ==> points@[0] == k);
                }
            }
            c = c + 1;
            unique.clear_all();
            let ghost marked: Set<int> = Set::empty();
            let mut a: usize = 0;
            while a < neighbor_pts.len()
                invariant
                    a <= neighbor_pts@.len(),
                    neighbor_pts@ == neighbors@[i as int]@,
                    n == neighbors@.len(),
                    neighbors_valid(neighbors@),
                    i < n,
                    marks_of(unique).len() == n,
                    marked.finite(),
                    forall|p: int| marked.contains(p) <==> 0 <= p < n && marks_of(unique)[p],
                    forall|p: int| marked.contains(p) ==> neighbor_pts@.contains(p as usize),
                    marks_of(unique) == mark_all(Seq::new(n as nat, |x: int| false), neighbor_pts@.subrange(0, a as int)),
                decreases neighbor_pts@.len() - a,
            {
                unique.set(neighbor_pts[a], true);
                proof {
                    assert(neighbor_pts@.subrange(0, a + 1).drop_last() =~= neighbor_pts@.subrange(0, a as int));
                    assert(neighbor_pts@.contains(neighbor_pts@[a as int]));
                    marked = marked.insert(neighbor_pts@[a as int] as int);
                }
                a = a + 1;
            }
            proof {
                assert(neighbor_pts@.subrange(0, neighbor_pts@.len() as int) =~= neighbor_pts@);
                assert(points@ =~= seq![i]);
                fuel = fuel + 1;
            }
            let mut frontier = neighbor_pts;
            let ghost init_len = frontier@.len();
            let mut j: usize = 0;
            while j < frontier.len()
                invariant
                    n == neighbors@.len(),
                    neighbors_valid(neighbors@),
                    i < n,
                    c == before.len() + 1,
                    visited@.len() == n,
                    members@.len() == n,
                    marks_of(unique).len() == n,
                    marked.finite(),
                    forall|p: int| marked.contains(p) <==> 0 <= p < n && marks_of(unique)[p],
                    frontier@.len() <= init_len + marked.len(),
                    init_len == neighbors@[i as int]@.len(),
                    forall|t: int| 0 <= t < frontier@.len() ==> #[trigger] frontier@[t] < n,
                    clusters@ == before,
                    points@.len() > 0,
                    points@[0] == i,
                    points@.no_duplicates(),
                    forall|t: int| 0 <= t < points@.len() ==> #[trigger] points@[t] < n,
                    forall|k: int| 0 <= k < i ==> visited@[k],
                    visited@[i as int],
                    forall|k: int| 0 <= k < n && #[trigger] visited@[k] ==> noise@.contains(k as usize) || members@[k],
                    forall|k: usize| k < n ==> (#[trigger] members@[k as int] <==> (in_some_cluster(before, k) || points@.contains(k))),
                    forall|k: usize| points@.contains(k) ==> !in_some_cluster(before, k),
                    forall|k: int| 0 <= k < n && #[trigger] members@[k] ==> visited@[k],
                    exclusive(before),
                    well_formed_result(before, noise@, n as nat),
                    forall|t: int| 0 <= t < noise@.len() ==> #[trigger] noise@[t] < i,
                    forall|t: int| 0 <= t < noise@.len() ==> neighbors@[#[trigger] noise@[t] as int]@.len() < min_points,
                    forall|q: int| 0 <= q < before.len() ==> neighbors@[(#[trigger] before[q]).points@[0] as int]@.len() >= min_points,
                    neighbors@[i as int]@.len() >= min_points,
                    forall|t: int| 0 <= t < j ==> members@[#[trigger] frontier@[t] as int],
                    scan_run(neighbors@, min_points, fuel) == growing_state(
                        i as nat, visited@, members@, before, noise@, points@, frontier@, j as nat, marks_of(unique)),
                    forall|p: int| marked.contains(p) ==> frontier@.contains(p as usize),
                    forall|k: int| 0 <= k < n && #[trigger] visited@[k] && neighbors@[k]@.len() >= min_points ==> {
                        &&& (members@[k] || frontier@.contains(k as usize))
                        &&& forall|t: int| 0 <= t < neighbors@[k]@.len() ==>
                            (members@[#[trigger] neighbors@[k]@[t] as int] || frontier@.contains(neighbors@[k]@[t]))
                    },
                decreases init_len + n - j,
            {
                proof {
                    vstd::set_lib::lemma_int_range(0, n as int);
                    vstd::set_lib::lemma_len_subset(marked, vstd::set_lib::set_int_range(0, n as int));
                }
                let k = frontier[j];
                let ghost f0 = frontier@;
                let ghost m0 = members@;
                let ghost v0 = visited@;
                let ghost mk0 = marks_of(unique);
                let ghost p0 = points@;
                if !visited[k] {
                    visited.set(k, true);
                    let more = &neighbors[k];
                    if more.len() >= min_points {
                        let mut b: usize = 0;
                        proof {
                            assert(more@.subrange(0, 0) =~= Seq::<usize>::empty());
                        }
                        while b < more.len()
                            invariant
                                b <= more@.len(),
                                more@ == neighbors@[k as int]@,
                                n == neighbors@.len(),
                                neighbors_valid(neighbors@),
                                k < n,
                                marks_of(unique).len() == n,
                                marked.finite(),
                                forall|p: int| marked.contains(p) <==> 0 <= p < n && marks_of(unique)[p],
                                frontier@.len() <= init_len + marked.len(),
                                forall|t: int| 0 <= t < frontier@.len() ==> #[trigger] frontier@[t] < n,
                                j < frontier@.len(),
                                f0.len() <= frontier@.len(),
                                forall|t: int| 0 <= t < f0.len() ==> #[trigger] frontier@[t] == f0[t],
                                forall|p: int| marked.contains(p) ==> frontier@.contains(p as usize),
                                forall|t: int| 0 <= t < b ==> marked.contains(#[trigger] more@[t] as int),
                                (frontier@, marks_of(unique)) == absorb(f0, mk0, more@.subrange(0, b as int)),
                            decreases more@.len() - b,
                        {
                            let p = more[b];
                            proof {
                                assert(more@.subrange(0, b + 1).drop_last() =~= more@.subrange(0, b as int));
                            }
                            if !unique.get(p) {
                                let ghost fb = frontier@;
                                frontier.push(p);
                                unique.set(p, true);
                                proof {
                                    assert(!marked.contains(p as int));
                                    marked = marked.insert(p as int);
                                    crate::kdtree::lemma_push_contains(fb, p);
                                }
                            }
                            b = b + 1;
                        }
                    }
                }
                if !members[k] {
                    let ghost old_points = points@;
                    let ghost old_members = members@;
                    proof {
                        assert(!(in_some_cluster(before, k) || points@.contains(k)));
                    }
                    points.push(k);
                    members.set(k, true);
                    proof {
                        assert forall|q: usize| points@.contains(q) implies !in_some_cluster(before, q) by {
                            if q != k {
                                let t = choose|t: int| 0 <= t < points@.len() && points@[t] == q;
                                assert(old_points[t] == q);
                            }
                        }
                        assert forall|q: usize| q < n implies (members@[q as int] <==> (in_some_cluster(before, q) || points@.contains(q))) by {
                            if q == k {
                                assert(points@[points@.len() - 1] == k);
                            } else {
                                assert(old_members[q as int] == members@[q as int]);
                                assert(old_members[q as int] <==> (in_some_cluster(before, q) || old_points.contains(q)));
                                if points@.contains(q) {
                                    let t = choose|t: int| 0 <= t < points@.len() && points@[t] == q;
                                    assert(old_points[t] == q);
                                }
                                if old_points.contains(q) {
                                    let t = choose|t: int| 0 <= t < old_points.len() && old_points[t] == q;
                                    assert(points@[t] == q);
                                }
                            }
                        }
                    }
                }
                assert(members@[k as int]);
                proof {
                    assert forall|q: usize| f0.contains(q) implies frontier@.contains(q) by {
                        let w = choose|w: int| 0 <= w < f0.len() && f0[w] == q;
                        assert(frontier@[w] == q);
                    }
                    assert forall|t: int| 0 <= t < j + 1 implies members@[#[trigger] frontier@[t] as int] by {
                        assert(frontier@[t] == f0[t]);
                        if t < j {
                            assert(m0[f0[t] as int]);
                        }
                    }
                    assert forall|q: int| 0 <= q < n && #[trigger] visited@[q] && neighbors@[q]@.len() >= min_points implies {
                        &&& (members@[q] || frontier@.contains(q as usize))
                        &&& forall|t: int| 0 <= t < neighbors@[q]@.len() ==>
                            (members@[#[trigger] neighbors@[q]@[t] as int] || frontier@.contains(neighbors@[q]@[t]))
                    } by {
                        if v0[q] {
                            assert forall|t: int| 0 <= t < neighbors@[q]@.len() implies
                                (members@[#[trigger] neighbors@[q]@[t] as int] || frontier@.contains(neighbors@[q]@[t])) by {
                                let y = neighbors@[q]@[t];
                                if !m0[y as int] {
                                    assert(f0.contains(y));
                                }
                            }
                            if !m0[q] {
                                assert(f0.contains(q as usize));
                            }
                        } else {
                            assert(q == k);
                            assert forall|t: int| 0 <= t < neighbors@[q]@.len() implies
                                (members@[#[trigger] neighbors@[q]@[t] as int] || frontier@.contains(neighbors@[q]@[t])) by {
                                assert(marked.contains(neighbors@[k as int]@[t] as int));
                            }
                        }
                    }
                }
                proof {
                    if !v0[k as int] && neighbors@[k as int]@.len() >= min_points {
                        assert(neighbors@[k as int]@.subrange(0, neighbors@[k as int]@.len() as int) =~= neighbors@[k as int]@);
                    }
                    fuel = fuel + 1;
                }
                j = j + 1;
            }
            let ghost grown = points@;
            let cluster = Cluster { c: c - 1, points };
            clusters.push(cluster);
            proof {
                assert(clusters@ == before.push(cluster));
                assert(cluster_lists(clusters@) =~= cluster_lists(before).push(grown));
                fuel = fuel + 1;
                assert(clusters@[before.len() as int].points@ == grown);
                assert forall|q: int| 0 <= q < before.len() implies clusters@[q] == before[q] by {}
                assert forall|k: usize| k < n implies (members@[k as int] <==> in_some_cluster(clusters@, k)) by {
                    if members@[k as int] {
                        if in_some_cluster(before, k) {
                            let q = choose|q: int| 0 <= q < before.len() && #[trigger] before[q].points@.contains(k);
                            assert(clusters@[q] == before[q]);
                        } else {
                            assert(grown.contains(k));
                            assert(clusters@[before.len() as int].points@.contains(k));
                        }
                    }
                    if in_some_cluster(clusters@, k) {
                        let q = choose|q: int| 0 <= q < clusters@.len() && #[trigger] clusters@[q].points@.contains(k);
                        if q < before.len() {
                            assert(before[q] == clusters@[q]);
                        } else {
                            assert(grown.contains(k));
                        }
                    }
                }
                assert forall|c1: int, c2: int, k: usize|
                    0 <= c1 < clusters@.len() && 0 <= c2 < clusters@.len() && c1 != c2
                        && #[trigger] clusters@[c1].points@.contains(k) implies !(#[trigger] clusters@[c2].points@.contains(k)) by {
                    if c1 == before.len() {
                        assert(clusters@[c2] == before[c2]);
                        assert(grown.contains(k));
                        if clusters@[c2].points@.contains(k) {
                            assert(in_some_cluster(before, k));
                        }
                    } else if c2 == before.len() {
                        assert(clusters@[c1] == before[c1]);
                        assert(in_some_cluster(before, k));
                    } else {
                        assert(clusters@[c1] == before[c1]);
                        assert(clusters@[c2] == before[c2]);
                    }
                }
            }
        }
        i = i + 1;
    }
    assert forall|k: usize| k < n implies noise@.contains(k) || in_some_cluster(clusters@, k) by {
        assert(visited@[k as int]);
    }
    proof {
        lemma_scan_deterministic(neighbors@, min_points, fuel, fuel);
    }
    assert forall|k: int| 0 <= k < n && #[trigger] neighbors@[k]@.len() >= min_points implies {
        &&& in_some_cluster(clusters@, k as usize)
        &&& forall|t: int| 0 <= t < neighbors@[k]@.len() ==> in_some_cluster(clusters@, #[trigger] neighbors@[k]@[t])
    } by {
        assert(visited@[k]);
        assert(members@[(k as usize) as int]);
        assert forall|t: int| 0 <= t < neighbors@[k]@.len() implies in_some_cluster(clusters@, #[trigger] neighbors@[k]@[t]) by {
            let y = neighbors@[k]@[t];
            assert(members@[y as int]);
        }
    }
    (clusters, noise)
}

} // verus!
