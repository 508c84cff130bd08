//! Static nearest-neighbour index over stop coordinates.
//!
//! The index is built once from a stop collection and is read-only
//! afterwards.  The i-th indexed point is the coordinate pair of the i-th
//! record of the collection it was built from, so the two must be kept
//! together.  Queries rank points by squared Euclidean distance in the
//! fixed-point (latitude, longitude) plane, breaking ties by the lower
//! stored index.

use vstd::prelude::*;
use vstd::assert_by_contradiction;
use crate::errors::EmptyIndexError;
use crate::stop::StopRecord;

verus! {

/// One indexed coordinate pair, in fixed point (degrees times `10^7`).
#[derive(Debug, PartialEq, Eq, Structural, Clone, Copy)]
pub struct Point {
    pub lat: i32,
    pub lon: i32,
}

/// Squared Euclidean distance between two points in the coordinate plane.
pub open spec fn dist2(a: Point, b: Point) -> int {
    (a.lat - b.lat) * (a.lat - b.lat) + (a.lon - b.lon) * (a.lon - b.lon)
}

/// `i` ranks strictly before `j` among the stored points for a query `q`:
/// nearer, or equally near with the lower index.
pub open spec fn ranks_before(pts: Seq<Point>, q: Point, i: int, j: int) -> bool {
    dist2(pts[i], q) < dist2(pts[j], q) || (dist2(pts[i], q) == dist2(pts[j], q) && i < j)
}

/// `i` is the nearest stored index to `q`: no other index ranks before it.
pub open spec fn is_nearest(pts: Seq<Point>, q: Point, i: int) -> bool {
    &&& 0 <= i < pts.len()
    &&& forall|j: int| 0 <= j < pts.len() && j != i ==> ranks_before(pts, q, i, j)
}

/// The static spatial index: the stored points, in collection order.
pub struct SpatialIndex {
    pub points: Vec<Point>,
}

impl View for SpatialIndex {
    type V = Seq<Point>;

    open spec fn view(&self) -> Seq<Point> {
        self.points@
    }
}

/// The coordinate pair of one stop record.
pub open spec fn spec_point_of(s: StopRecord) -> Point {
    Point { lat: s.stop_lat, lon: s.stop_lon }
}

/// The points an index built from `stops` holds.
pub open spec fn points_of(stops: Seq<StopRecord>) -> Seq<Point> {
    stops.map_values(|s: StopRecord| spec_point_of(s))
}

fn dist2_exec(a: Point, b: Point) -> (r: i128)
    ensures
        r == dist2(a, b),
        r >= 0,
{
    let dlat: i64 = (a.lat as i64) - (b.lat as i64);
    let dlon: i64 = (a.lon as i64) - (b.lon as i64);
    proof {
        assert(dlat * dlat + dlon * dlon <= 0x1_0000_0000_0000_0000i128 * 0x2_0000_0000i128
            && dlat * dlat >= 0 && dlon * dlon >= 0) by (nonlinear_arith)
            requires
                -0x1_0000_0000i64 < dlat < 0x1_0000_0000i64,
                -0x1_0000_0000i64 < dlon < 0x1_0000_0000i64,
        ;
    }
    (dlat as i128) * (dlat as i128) + (dlon as i128) * (dlon as i128)
}

impl SpatialIndex {
    /// Build the index for a stop collection: the i-th point is the i-th
    /// record's coordinate pair.
    pub fn build(stops: &Vec<StopRecord>) -> (r: SpatialIndex)
        ensures
            r@ == points_of(stops@),
    {
        let mut points: Vec<Point> = Vec::new();
        let n = stops.len();
        let mut i: usize = 0;
        while i < n
            invariant
                n == stops@.len(),
                0 <= i <= n,
                points@ == points_of(stops@.take(i as int)),
            decreases n - i,
        {
            points.push(Point { lat: stops[i].stop_lat, lon: stops[i].stop_lon });
            proof {
                assert(points@ =~= points_of(stops@.take(i as int + 1)));
            }
            i += 1;
        }
        proof {
            assert(stops@.take(n as int) =~= stops@);
        }
        SpatialIndex { points }
    }

    /// Number of stored points.
    pub fn len(&self) -> (r: usize)
        ensures
            r == self@.len(),
    {
        self.points.len()
    }

    /// Index of the stored point nearest to `q`, ties broken by the lowest
    /// stored index.  Fails only on an empty index.
    pub fn nearest(&self, q: Point) -> (r: Result<usize, EmptyIndexError>)
        ensures
            match r {
                Ok(i) => is_nearest(self@, q, i as int),
                Err(_) => self@.len() == 0,
            },
    {
        let n = self.points.len();
        if n == 0 {
            return Err(EmptyIndexError);
        }
        let mut best: usize = 0;
        let mut best_d: i128 = dist2_exec(self.points[0], q);
        let mut i: usize = 1;
        while i < n
            invariant
                n == self@.len(),
                1 <= i <= n,
                0 <= best < i,
                best_d == dist2(self@[best as int], q),
                forall|j: int|
                    0 <= j < i && j != best ==> ranks_before(self@, q, best as int, j),
            decreases n - i,
        {
            let d = dist2_exec(self.points[i], q);
            let ghost prev_best = best as int;
            if d < best_d {
                best = i;
                best_d = d;
            }
            proof {
                assert forall|j: int| 0 <= j < i + 1 && j != best as int implies ranks_before(
                    self@,
                    q,
                    best as int,
                    j,
                ) by {
                    if j != i as int && j != prev_best {
                        assert(ranks_before(self@, q, prev_best, j));
                    }
                }
            }
            i += 1;
        }
        Ok(best)
    }

    /// Indices of the `k` stored points nearest to `q`, in rank order
    /// (distance, then stored index).  Returns all points when fewer than
    /// `k` are stored.  Fails only on an empty index.
    pub fn k_nearest(&self, q: Point, k: usize) -> (r: Result<Vec<usize>, EmptyIndexError>)
        ensures
            match r {
                Ok(out) => {
                    &&& self@.len() > 0
                    &&& out@.len() as int == if k as int <= self@.len() as int {
                        k as int
                    } else {
                        self@.len() as int
                    }
                    &&& forall|x: int| 0 <= x < out@.len() ==> 0 <= #[trigger] out@[x] < self@.len()
                    &&& forall|x: int, y: int|
                        0 <= x < y < out@.len() ==> ranks_before(
                            self@,
                            q,
                            out@[x] as int,
                            out@[y] as int,
                        )
                    &&& forall|x: int, j: int|
                        0 <= x < out@.len() && 0 <= j < self@.len() && !out@.contains(j as usize)
                            ==> ranks_before(self@, q, out@[x] as int, j)
                },
                Err(_) => self@.len() == 0,
            },
    {
        let n = self.points.len();
        if n == 0 {
            return Err(EmptyIndexError);
        }
        let want = if k <= n {
            k
        } else {
            n
        };
        let mut out: Vec<usize> = Vec::new();
        let mut round: usize = 0;
        while round < want
            invariant
                n == self@.len(),
                0 < n,
                want <= n,
                0 <= round <= want,
                out@.len() == round,
                forall|x: int| 0 <= x < out@.len() ==> 0 <= #[trigger] out@[x] < n,
                forall|x: int, y: int|
                    0 <= x < y < out@.len() ==> ranks_before(self@, q, out@[x] as int, out@[y] as int),
                forall|x: int, j: int|
                    0 <= x < out@.len() && 0 <= j < n && !out@.contains(j as usize) ==> ranks_before(
                        self@,
                        q,
                        out@[x] as int,
                        j,
                    ),
            decreases want - round,
        {
            let mut cand: usize = n;
            let mut cand_d: i128 = 0;
            let mut i: usize = 0;
            while i < n
                invariant
                    n == self@.len(),
                    out@.len() < n,
                    0 <= i <= n,
                    cand == n || (0 <= cand < i && !out@.contains(cand)),
                    cand < n ==> cand_d == dist2(self@[cand as int], q),
                    cand == n ==> forall|j: int|
                        0 <= j < i ==> out@.contains(#[trigger] (j as usize)),
                    forall|j: int|
                        0 <= j < i && !out@.contains(#[trigger] (j as usize)) && j != cand ==> cand
                            < n && ranks_before(self@, q, cand as int, j),
                decreases n - i,
            {
                if !contains_index(&out, i) {
                    let d = dist2_exec(self.points[i], q);
                    if cand == n || d < cand_d {
                        cand = i;
                        cand_d = d;
                    }
                }
                i += 1;
            }
            let ghost prev = out@;
            proof {
                if cand == n {
                    lemma_some_index_missing(out@, n as int);
                }
                assert(!prev.contains(cand));
                assert(forall|j: int|
                    0 <= j < n && !prev.contains(#[trigger] (j as usize)) && j != cand
                        ==> ranks_before(self@, q, cand as int, j));
                assert(forall|x: int, j: int|
                    0 <= x < prev.len() && 0 <= j < n && !prev.contains(j as usize)
                        ==> #[trigger] ranks_before(self@, q, prev[x] as int, j));
            }
            out.push(cand);
            proof {
                let cur = out@;
                let last = cur.len() - 1;
                assert(cur[last] == cand);
                assert forall|x: int, y: int| 0 <= x < y < cur.len() implies ranks_before(
                    self@,
                    q,
                    cur[x] as int,
                    cur[y] as int,
                ) by {
                    if y == last {
                        assert(cur[x] == prev[x]);
                        assert(ranks_before(self@, q, prev[x] as int, cand as int));
                    } else {
                        assert(cur[x] == prev[x] && cur[y] == prev[y]);
                    }
                }
                assert forall|x: int, j: int|
                    0 <= x < cur.len() && 0 <= j < n && !cur.contains(j as usize) implies
                    #[trigger] ranks_before(self@, q, cur[x] as int, j) by {
                    assert(!prev.contains(j as usize)) by {
                        if prev.contains(j as usize) {
                            let idx = choose|idx: int|
                                0 <= idx < prev.len() && prev[idx] == j as usize;
                            assert(cur[idx] == j as usize);
                            assert(cur.contains(j as usize));
                        }
                    }
                    assert(j != cand as int) by {
                        if j == cand as int {
                            assert(cur.contains(j as usize));
                        }
                    }
                    if x == last {
                        assert(ranks_before(self@, q, cand as int, j));
                    } else {
                        assert(cur[x] == prev[x]);
                        assert(ranks_before(self@, q, prev[x] as int, j));
                    }
                }
            }
            round += 1;
        }
        Ok(out)
    }
}

/// Whether `v` holds `x`.
fn contains_index(v: &Vec<usize>, x: usize) -> (r: bool)
    ensures
        r == v@.contains(x),
{
    let n = v.len();
    let mut i: usize = 0;
    while i < n
        invariant
            n == v@.len(),
            0 <= i <= n,
            forall|j: int| 0 <= j < i ==> v@[j] != x,
        decreases n - i,
    {
        if v[i] == x {
            proof {
                assert(v@.contains(x));
            }
            return true;
        }
        i += 1;
    }
    proof {
        assert(!v@.contains(x));
    }
    false
}

/// A sequence shorter than `n` leaves at least one index below `n`
/// uncovered.
proof fn lemma_some_index_missing(s: Seq<usize>, n: int)
    requires
        0 <= s.len() < n <= usize::MAX as int,
    ensures
        exists|j: int| 0 <= j < n && !s.contains(#[trigger] (j as usize)),
{
    assert_by_contradiction!(exists|j: int| 0 <= j < n && !s.contains(#[trigger] (j as usize)), {
        let full = Set::new(|v: usize| 0 <= v < n);
        assert(full.subset_of(s.to_set())) by {
            assert forall|v: usize| full.contains(v) implies s.to_set().contains(v) by {
                assert(s.contains((v as int) as usize));
            }
        }
        s.lemma_cardinality_of_set();
        lemma_usize_range_card(n);
        vstd::set_lib::lemma_len_subset(full, s.to_set());
    });
}

/// The set of `usize` values below `n` has exactly `n` elements.
proof fn lemma_usize_range_card(n: int)
    requires
        0 <= n <= usize::MAX as int,
    ensures
        Set::new(|v: usize| 0 <= v < n).finite(),
        Set::new(|v: usize| 0 <= v < n).len() == n,
    decreases n,
{
    if n == 0 {
        assert(Set::new(|v: usize| 0 <= v < 0) =~= Set::<usize>::empty());
    } else {
        lemma_usize_range_card(n - 1);
        assert(Set::new(|v: usize| 0 <= v < n) =~= Set::new(|v: usize| 0 <= v < n - 1).insert(
            (n - 1) as usize,
        ));
    }
}

/// Querying a built index with the exact coordinates of a stored point
/// returns a point at distance zero: the lowest stored index among exact
/// duplicates of that coordinate pair.
pub proof fn lemma_nearest_on_stored_point(pts: Seq<Point>, q: Point, r: int, i: int)
    requires
        0 <= i < pts.len(),
        pts[i] == q,
        is_nearest(pts, q, r),
    ensures
        dist2(pts[r], q) == 0,
        pts[r] == q,
        r <= i,
        forall|j: int| 0 <= j < r ==> pts[j] != q,
{
    assert(dist2(q, q) == 0);
    if r != i {
        assert(ranks_before(pts, q, r, i));
    }
    assert(dist2(pts[r], q) >= 0) by (nonlinear_arith);
    assert(dist2(pts[r], q) == 0);
    lemma_zero_dist_eq(pts[r], q);
    assert forall|j: int| 0 <= j < r implies pts[j] != q by {
        if pts[j] == q {
            assert(ranks_before(pts, q, r, j));
            assert(dist2(pts[j], q) == 0);
        }
    }
}

/// Distance zero means the coordinates are equal.
proof fn lemma_zero_dist_eq(a: Point, b: Point)
    requires
        dist2(a, b) == 0,
    ensures
        a.lat == b.lat && a.lon == b.lon,
{
    assert((a.lat - b.lat) * (a.lat - b.lat) == 0 ==> a.lat == b.lat) by (nonlinear_arith);
    assert((a.lon - b.lon) * (a.lon - b.lon) == 0 ==> a.lon == b.lon) by (nonlinear_arith);
    assert((a.lat - b.lat) * (a.lat - b.lat) >= 0 && (a.lon - b.lon) * (a.lon - b.lon) >= 0)
        by (nonlinear_arith);
}

} // verus!
