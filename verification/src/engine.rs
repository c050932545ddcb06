//! The centroid-fitting engine: Lloyd's iteration over a fixed-point
//! observation matrix.
//!
//! The whole iteration is modelled by the spec function [`lloyd`]: starting
//! from an initial labelling, each pass recomputes one centroid per
//! non-empty cluster (the column-wise truncated mean of its member rows, in
//! ascending cluster order — an empty cluster contributes no centroid row)
//! and then relabels every observation with the index of its nearest
//! centroid, until the labelling repeats or the iteration budget runs out.
//! Distances are compared as squared Euclidean distances; taking square
//! roots would not change which centroid is nearest, nor how ties fall.
//! On an exact tie the lower centroid index wins.

use vstd::arithmetic::div_mod::{
    lemma_div_by_multiple, lemma_div_is_ordered, lemma_div_nonincreasing, lemma_div_pos_is_pos,
};
use vstd::prelude::*;

use crate::matrix::{row_view, rows_view, Matrix, COORD_LIMIT};

use rand::Rng;

verus! {

/// Raised when an internal array-construction step would have to combine
/// rows of different lengths. Surfaced to the caller rather than ignored.
#[derive(Debug, PartialEq, Eq)]
pub struct ShapeMismatch;

/// Integer division truncated towards zero, the rounding the engine uses
/// for centroid coordinates.
pub open spec fn div_trunc(a: int, b: int) -> int {
    if a >= 0 {
        a / b
    } else {
        -((-a) / b)
    }
}

/// The sum of column `j` over a stack of rows.
pub open spec fn col_sum(rows: Seq<Seq<int>>, j: int) -> int
    decreases rows.len(),
{
    if rows.len() == 0 {
        0
    } else {
        col_sum(rows.drop_last(), j) + rows.last()[j]
    }
}

/// The column-wise truncated mean of a stack of rows, as a row of `cols`
/// entries. Meaningful only for a non-empty stack.
pub open spec fn mean_row(rows: Seq<Seq<int>>, cols: int) -> Seq<int> {
    Seq::new(cols as nat, |j: int| div_trunc(col_sum(rows, j), rows.len() as int))
}

/// The rows of `x` labelled `c`, in row order.
pub open spec fn rows_of_cluster(x: Seq<Seq<int>>, labels: Seq<usize>, c: int) -> Seq<Seq<int>>
    decreases x.len(),
{
    if x.len() == 0 {
        Seq::empty()
    } else {
        rows_of_cluster(x.drop_last(), labels.drop_last(), c) + (if labels.last() as int == c {
            seq![x.last()]
        } else {
            Seq::empty()
        })
    }
}

/// One centroid row per non-empty cluster among `0..k`, in ascending
/// cluster order. An empty cluster contributes nothing, so the centroid
/// row index of every later cluster shifts down by one.
pub open spec fn centroids_of(x: Seq<Seq<int>>, labels: Seq<usize>, k: int) -> Seq<Seq<int>>
    decreases k,
{
    if k <= 0 {
        Seq::empty()
    } else {
        let members = rows_of_cluster(x, labels, k - 1);
        centroids_of(x, labels, k - 1) + (if members.len() > 0 {
            seq![mean_row(members, members[0].len() as int)]
        } else {
            Seq::empty()
        })
    }
}

/// The squared Euclidean distance between `a` and `b`, summed over the
/// first `n` coordinates.
pub open spec fn dist_sq_upto(a: Seq<int>, b: Seq<int>, n: int) -> int
    decreases n,
{
    if n <= 0 {
        0
    } else {
        dist_sq_upto(a, b, n - 1) + (a[n - 1] - b[n - 1]) * (a[n - 1] - b[n - 1])
    }
}

/// The squared Euclidean distance between observation row `p` and a row `q`
/// of the same length.
pub open spec fn dist_sq(p: Seq<int>, q: Seq<int>) -> int {
    dist_sq_upto(p, q, p.len() as int)
}

/// The index of the centroid among `cs[0..n]` nearest to `p`; a candidate
/// replaces the best so far only when strictly nearer, so on a tie the
/// lower index wins. `0` when there is no centroid to scan.
pub open spec fn nearest_upto(p: Seq<int>, cs: Seq<Seq<int>>, n: int) -> int
    decreases n,
{
    if n <= 1 {
        0
    } else {
        let b = nearest_upto(p, cs, n - 1);
        if dist_sq(p, cs[n - 1]) < dist_sq(p, cs[b]) {
            n - 1
        } else {
            b
        }
    }
}

/// The index of the centroid of `cs` nearest to `p` (`0` when `cs` is empty).
pub open spec fn nearest(p: Seq<int>, cs: Seq<Seq<int>>) -> int {
    nearest_upto(p, cs, cs.len() as int)
}

/// The label assignment that sends every row of `x` to its nearest centroid.
pub open spec fn assign(x: Seq<Seq<int>>, cs: Seq<Seq<int>>) -> Seq<usize> {
    Seq::new(x.len(), |i: int| nearest(x[i], cs) as usize)
}

/// An all-zero labelling of `n` rows, the reference the first convergence
/// check compares against.
pub open spec fn zero_labels_seq(n: int) -> Seq<usize> {
    Seq::new(n as nat, |i: int| 0usize)
}

/// Lloyd's iteration, step by step. The state is the current labelling,
/// the previous labelling, and the centroid matrix computed alongside the
/// current labelling. A pass stops the loop when the labelling repeats;
/// otherwise it recomputes the centroids from the current labelling and
/// relabels every row, consuming one unit of fuel.
pub open spec fn lloyd(
    x: Seq<Seq<int>>,
    labels: Seq<usize>,
    prev: Seq<usize>,
    cents: Seq<Seq<int>>,
    k: int,
    fuel: nat,
) -> (Seq<usize>, Seq<Seq<int>>)
    decreases fuel,
{
    if labels == prev || fuel == 0 {
        (labels, cents)
    } else {
        let cs = centroids_of(x, labels, k);
        lloyd(x, assign(x, cs), labels, cs, k, (fuel - 1) as nat)
    }
}

/// The labels and centroids Lloyd's iteration reaches from an initial
/// labelling, with an all-zero previous labelling and no centroids.
pub open spec fn lloyd_result(x: Seq<Seq<int>>, init: Seq<usize>, k: int, cap: nat) -> (
    Seq<usize>,
    Seq<Seq<int>>,
) {
    lloyd(x, init, zero_labels_seq(x.len() as int), Seq::empty(), k, cap)
}

/// A well-formed initial labelling: one label per row, every label below `k`.
pub open spec fn valid_init(init: Seq<usize>, rows: int, k: int) -> bool {
    init.len() == rows && forall|i: int| 0 <= i < init.len() ==> (#[trigger] init[i] as int) < k
}

/// `labels` and `cents` are a possible outcome of Lloyd's iteration on `x`
/// from the well-formed initial labelling `init`.
pub open spec fn lloyd_outcome(
    x: Seq<Seq<int>>,
    init: Seq<usize>,
    k: int,
    cap: nat,
    labels: Seq<usize>,
    cents: Seq<Seq<int>>,
) -> bool {
    &&& valid_init(init, x.len() as int, k)
    &&& labels == lloyd_result(x, init, k, cap).0
    &&& cents == lloyd_result(x, init, k, cap).1
}

/// Every label is a row index of the centroid matrix; when the centroid
/// matrix has no rows at all, every label is zero.
pub open spec fn range_ok(labels: Seq<usize>, cents: Seq<Seq<int>>) -> bool {
    forall|i: int|
        0 <= i < labels.len() ==> ((#[trigger] labels[i] as int) < cents.len() || (cents.len() == 0
            && labels[i] == 0))
}

/// The centroid matrix can be measured against `x`: it either has no rows
/// or its column count matches.
pub open spec fn dims_compatible(x: Matrix, m: Matrix) -> bool {
    m@.len() == 0 || m.spec_cols() == x.spec_cols()
}

/// Truncated division of a bounded sum by the number of summands stays
/// within the bound on the summands.
proof fn lemma_div_trunc_bound(a: int, n: int, b: int)
    requires
        1 <= n,
        0 <= b,
        -(n * b) <= a <= n * b,
    ensures
        -b <= div_trunc(a, n) <= b,
{
    lemma_div_by_multiple(b, n);
    assert(n * b == b * n) by (nonlinear_arith);
    if a >= 0 {
        lemma_div_is_ordered(a, n * b, n);
        lemma_div_pos_is_pos(a, n);
    } else {
        lemma_div_is_ordered(-a, n * b, n);
        lemma_div_pos_is_pos(-a, n);
    }
}

/// Truncated integer division, computed through unsigned division.
fn div_trunc_i128(a: i128, n: usize) -> (q: i128)
    requires
        1 <= n,
        i128::MIN < a,
    ensures
        q as int == div_trunc(a as int, n as int),
        i128::MIN < q,
{
    if a >= 0 {
        let qu: u128 = (a as u128) / (n as u128);
        proof {
            lemma_div_pos_is_pos(a as int, n as int);
            lemma_div_nonincreasing(a as int, n as int);
        }
        qu as i128
    } else {
        let m: i128 = -a;
        let qu: u128 = (m as u128) / (n as u128);
        proof {
            lemma_div_pos_is_pos(m as int, n as int);
            lemma_div_nonincreasing(m as int, n as int);
        }
        -(qu as i128)
    }
}

/// Relies on `rand::thread_rng` and `rand::Rng::gen_range`: a draw
/// distributed uniformly over `[0, n_clusters)`, so strictly below
/// `n_clusters`; the range is non-empty, so the call does not panic.
#[verifier::external_body]
fn random_label_below(n_clusters: usize) -> (r: usize)
    requires
        1 <= n_clusters,
    ensures
        r < n_clusters,
{
    rand::thread_rng().gen_range(0..n_clusters)
}

/// An initial labelling: one label per row of `x`, each drawn independently
/// and uniformly at random from `[0, n_clusters)`.
pub fn init_labels(x: &Matrix, n_clusters: usize) -> (r: Vec<usize>)
    requires
        1 <= n_clusters,
    ensures
        valid_init(r@, x@.len() as int, n_clusters as int),
{
    let rows = x.rows();
    let mut r: Vec<usize> = Vec::new();
    let mut i: usize = 0;
    while i < rows
        invariant
            i <= rows,
            rows == x@.len(),
            r@.len() == i,
            forall|t: int| 0 <= t < i ==> (#[trigger] r@[t] as int) < n_clusters,
            1 <= n_clusters,
        decreases rows - i,
    {
        r.push(random_label_below(n_clusters));
        i += 1;
    }
    r
}

/// Element-wise comparison of two labellings of the same length.
fn labels_match(a: &Vec<usize>, b: &Vec<usize>) -> (r: bool)
    requires
        a@.len() == b@.len(),
    ensures
        r <==> a@ == b@,
{
    let n = a.len();
    let mut i: usize = 0;
    while i < n
        invariant
            i <= n,
            n == a@.len(),
            a@.len() == b@.len(),
            forall|t: int| 0 <= t < i ==> a@[t] == b@[t],
        decreases n - i,
    {
        if a[i] != b[i] {
            return false;
        }
        i += 1;
    }
    proof {
        assert(a@ =~= b@);
    }
    true
}

/// A copy of a labelling.
fn copy_labels(v: &Vec<usize>) -> (r: Vec<usize>)
    ensures
        r@ == v@,
{
    let n = v.len();
    let mut r: Vec<usize> = Vec::new();
    let mut i: usize = 0;
    while i < n
        invariant
            i <= n,
            n == v@.len(),
            r@.len() == i,
            forall|t: int| 0 <= t < i ==> r@[t] == v@[t],
        decreases n - i,
    {
        r.push(v[i]);
        i += 1;
    }
    proof {
        assert(r@ =~= v@);
    }
    r
}

/// The squared distances from every observation row to every centroid row:
/// entry `[c][i]` is the squared Euclidean distance from row `i` of `x` to
/// centroid `c`. Fails with `ShapeMismatch` exactly when a distance row
/// would have to be built from rows of different lengths, i.e. when
/// `mean_points` has rows but a column count different from `x`'s.
pub fn get_dist_mean(x: &Matrix, mean_points: &Matrix) -> (r: Result<
    Vec<Vec<u128>>,
    ShapeMismatch,
>)
    requires
        x.wf(),
        mean_points.wf(),
    ensures
        !dims_compatible(*x, *mean_points) ==> r is Err,
        dims_compatible(*x, *mean_points) ==> {
            &&& r is Ok
            &&& r->Ok_0@.len() == mean_points@.len()
            &&& forall|c: int|
                0 <= c < mean_points@.len() ==> (#[trigger] r->Ok_0@[c])@.len() == x@.len()
            &&& forall|c: int, i: int|
                0 <= c < mean_points@.len() && 0 <= i < x@.len()
                    ==> (#[trigger] r->Ok_0@[c]@[i]) as int == dist_sq(x@[i], mean_points@[c])
        },
{
    let n_c = mean_points.rows();
    let n_r = x.rows();
    let cols = x.cols();
    if n_c > 0 && mean_points.cols() != cols {
        return Err(ShapeMismatch);
    }
    let mut dist: Vec<Vec<u128>> = Vec::new();
    let mut c: usize = 0;
    while c < n_c
        invariant
            x.wf(),
            mean_points.wf(),
            c <= n_c,
            n_c == mean_points@.len(),
            n_r == x@.len(),
            cols == x.spec_cols(),
            n_c > 0 ==> mean_points.spec_cols() == cols,
            dist@.len() == c,
            forall|t: int| 0 <= t < c ==> (#[trigger] dist@[t])@.len() == x@.len(),
            forall|t: int, i: int|
                0 <= t < c && 0 <= i < x@.len() ==> (#[trigger] dist@[t]@[i]) as int == dist_sq(
                    x@[i],
                    mean_points@[t],
                ),
        decreases n_c - c,
    {
        let mut drow: Vec<u128> = Vec::new();
        let mut i: usize = 0;
        while i < n_r
            invariant
                x.wf(),
                mean_points.wf(),
                c < n_c,
                i <= n_r,
                n_c == mean_points@.len(),
                n_r == x@.len(),
                cols == x.spec_cols(),
                mean_points.spec_cols() == cols,
                drow@.len() == i,
                forall|t: int|
                    0 <= t < i ==> (#[trigger] drow@[t]) as int == dist_sq(
                        x@[t],
                        mean_points@[c as int],
                    ),
            decreases n_r - i,
        {
            let mut acc: u128 = 0;
            let mut j: usize = 0;
            while j < cols
                invariant
                    x.wf(),
                    mean_points.wf(),
                    c < n_c,
                    i < n_r,
                    j <= cols,
                    n_c == mean_points@.len(),
                    n_r == x@.len(),
                    cols == x.spec_cols(),
                    mean_points.spec_cols() == cols,
                    acc as int == dist_sq_upto(x@[i as int], mean_points@[c as int], j as int),
                    acc as int <= (j as int) * 4_000_000_000_000_000_000,
                decreases cols - j,
            {
                let xv = x.get(i, j);
                let cv = mean_points.get(c, j);
                let d: i64 = xv - cv;
                let ghost dd: int = d as int;
                proof {
                    assert(dd * dd >= 0 && dd * dd <= 4_000_000_000_000_000_000)
                        by (nonlinear_arith)
                        requires
                            -2_000_000_000 <= dd <= 2_000_000_000,
                    ;
                }
                let sq: i64 = d * d;
                acc = acc + (sq as u128);
                j += 1;
            }
            drow.push(acc);
            i += 1;
        }
        dist.push(drow);
        c += 1;
    }
    Ok(dist)
}

/// The scan of `nearest_upto` lands on an index in range when there is
/// anything to scan.
proof fn lemma_nearest_upto_range(p: Seq<int>, cs: Seq<Seq<int>>, n: int)
    requires
        1 <= n,
    ensures
        0 <= nearest_upto(p, cs, n) < n,
    decreases n,
{
    if n > 1 {
        lemma_nearest_upto_range(p, cs, n - 1);
    }
}

/// The scan of `nearest_upto` finds a minimum, and the lowest-indexed one:
/// every earlier index is strictly farther.
proof fn lemma_nearest_upto_min(p: Seq<int>, cs: Seq<Seq<int>>, n: int)
    requires
        1 <= n <= cs.len(),
    ensures
        forall|j: int|
            0 <= j < n ==> dist_sq(p, cs[nearest_upto(p, cs, n)]) <= #[trigger] dist_sq(p, cs[j]),
        forall|j: int|
            0 <= j < nearest_upto(p, cs, n) ==> #[trigger] dist_sq(p, cs[j]) > dist_sq(
                p,
                cs[nearest_upto(p, cs, n)],
            ),
    decreases n,
{
    lemma_nearest_upto_range(p, cs, n);
    if n > 1 {
        lemma_nearest_upto_min(p, cs, n - 1);
    }
}

/// Nearest-centroid law: with at least one centroid, the chosen index is in
/// range, no centroid is strictly nearer, and every centroid with a lower
/// index is strictly farther — so on an exact tie the lower index wins.
pub proof fn lemma_nearest_minimal(p: Seq<int>, cs: Seq<Seq<int>>)
    requires
        cs.len() >= 1,
    ensures
        0 <= nearest(p, cs) < cs.len(),
        forall|j: int|
            0 <= j < cs.len() ==> dist_sq(p, cs[nearest(p, cs)]) <= #[trigger] dist_sq(p, cs[j]),
        forall|j: int|
            0 <= j < nearest(p, cs) ==> #[trigger] dist_sq(p, cs[j]) > dist_sq(p, cs[nearest(p, cs)]),
{
    lemma_nearest_upto_range(p, cs, cs.len() as int);
    lemma_nearest_upto_min(p, cs, cs.len() as int);
}

/// Every label produced by nearest-centroid assignment is a row index of
/// the centroid matrix; with no centroids at all, every label is zero.
pub proof fn lemma_assign_range(x: Seq<Seq<int>>, cs: Seq<Seq<int>>)
    requires
        cs.len() <= usize::MAX,
    ensures
        range_ok(assign(x, cs), cs),
{
    assert forall|i: int| 0 <= i < assign(x, cs).len() implies ((#[trigger] assign(x, cs)[i] as int)
        < cs.len() || (cs.len() == 0 && assign(x, cs)[i] == 0)) by {
        if cs.len() == 0 {
            assert(nearest(x[i], cs) == 0);
        } else {
            lemma_nearest_upto_range(x[i], cs, cs.len() as int);
        }
    }
}

/// Nearest-centroid assignment is a function of the observations and the
/// centroids alone: two labellings computed from the same observations and
/// the same centroids are identical.
pub proof fn lemma_assign_deterministic(
    x: Seq<Seq<int>>,
    cs: Seq<Seq<int>>,
    l1: Seq<usize>,
    l2: Seq<usize>,
)
    requires
        l1 == assign(x, cs),
        l2 == assign(x, cs),
    ensures
        l1 == l2,
{
}

/// The label of every row of `x`: the index of the nearest row of
/// `mean_points`, lowest index first on ties; `0` for every row when
/// `mean_points` has no rows. Fails with `ShapeMismatch` exactly when the
/// distances cannot be formed (see `get_dist_mean`).
pub fn get_labels(x: &Matrix, mean_points: &Matrix) -> (r: Result<Vec<usize>, ShapeMismatch>)
    requires
        x.wf(),
        mean_points.wf(),
    ensures
        !dims_compatible(*x, *mean_points) ==> r is Err,
        dims_compatible(*x, *mean_points) ==> r is Ok && r->Ok_0@ == assign(x@, mean_points@),
{
    let dist = match get_dist_mean(x, mean_points) {
        Ok(d) => d,
        Err(e) => {
            return Err(e);
        },
    };
    let n_c = mean_points.rows();
    let n_r = x.rows();
    let mut labels: Vec<usize> = Vec::new();
    let mut i: usize = 0;
    while i < n_r
        invariant
            x.wf(),
            mean_points.wf(),
            i <= n_r,
            n_c == mean_points@.len(),
            n_r == x@.len(),
            dims_compatible(*x, *mean_points),
            dist@.len() == n_c,
            forall|t: int| 0 <= t < n_c ==> (#[trigger] dist@[t])@.len() == x@.len(),
            forall|t: int, s: int|
                0 <= t < n_c && 0 <= s < x@.len() ==> (#[trigger] dist@[t]@[s]) as int == dist_sq(
                    x@[s],
                    mean_points@[t],
                ),
            labels@.len() == i,
            forall|t: int| 0 <= t < i ==> labels@[t] == assign(x@, mean_points@)[t],
        decreases n_r - i,
    {
        if n_c == 0 {
            labels.push(0);
        } else {
            let mut best_c: usize = 0;
            let mut best_d: u128 = dist[0][i];
            let mut c: usize = 1;
            while c < n_c
                invariant
                    x.wf(),
                    mean_points.wf(),
                    i < n_r,
                    1 <= c <= n_c,
                    n_c == mean_points@.len(),
                    n_r == x@.len(),
                    dist@.len() == n_c,
                    forall|t: int| 0 <= t < n_c ==> (#[trigger] dist@[t])@.len() == x@.len(),
                    forall|t: int, s: int|
                        0 <= t < n_c && 0 <= s < x@.len() ==> (#[trigger] dist@[t]@[s]) as int
                            == dist_sq(x@[s], mean_points@[t]),
                    best_c < c,
                    best_c as int == nearest_upto(x@[i as int], mean_points@, c as int),
                    best_d as int == dist_sq(x@[i as int], mean_points@[best_c as int]),
                decreases n_c - c,
            {
                let dd = dist[c][i];
                if dd < best_d {
                    best_c = c;
                    best_d = dd;
                }
                c += 1;
            }
            labels.push(best_c);
        }
        i += 1;
    }
    proof {
        assert(labels@ =~= assign(x@, mean_points@));
    }
    Ok(labels)
}

/// The member rows of a cluster inherit the shape and bounds of `x`'s rows,
/// and there are no more of them than `x` has rows.
proof fn lemma_rows_of_cluster_shape(
    x: Seq<Seq<int>>,
    labels: Seq<usize>,
    c: int,
    cols: int,
    lim: int,
)
    requires
        forall|i: int| 0 <= i < x.len() ==> (#[trigger] x[i]).len() == cols,
        forall|i: int, j: int|
            0 <= i < x.len() && 0 <= j < x[i].len() ==> -lim <= #[trigger] x[i][j] <= lim,
    ensures
        rows_of_cluster(x, labels, c).len() <= x.len(),
        forall|m: int|
            0 <= m < rows_of_cluster(x, labels, c).len()
                ==> (#[trigger] rows_of_cluster(x, labels, c)[m]).len() == cols,
        forall|m: int, j: int|
            0 <= m < rows_of_cluster(x, labels, c).len() && 0 <= j < cols ==> -lim
                <= #[trigger] rows_of_cluster(x, labels, c)[m][j] <= lim,
    decreases x.len(),
{
    if x.len() > 0 {
        lemma_rows_of_cluster_shape(x.drop_last(), labels.drop_last(), c, cols, lim);
    }
}

/// At most one centroid row is produced per cluster index.
proof fn lemma_centroids_of_len(x: Seq<Seq<int>>, labels: Seq<usize>, k: int)
    ensures
        centroids_of(x, labels, k).len() <= (if k >= 0 {
            k
        } else {
            0
        }),
    decreases k,
{
    if k > 0 {
        lemma_centroids_of_len(x, labels, k - 1);
    }
}

/// One centroid row per non-empty cluster among `0..n_clusters`, ascending:
/// the column-wise truncated mean of the cluster's member rows.
fn compute_centroids(x: &Matrix, labels: &Vec<usize>, n_clusters: usize) -> (m: Matrix)
    requires
        x.wf(),
        labels@.len() == x@.len(),
    ensures
        m@ == centroids_of(x@, labels@, n_clusters as int),
        m.wf(),
        m.spec_cols() == x.spec_cols(),
        m@.len() <= n_clusters,
{
    let cols = x.cols();
    let rows = x.rows();
    let mut out: Vec<Vec<i64>> = Vec::new();
    let mut c: usize = 0;
    while c < n_clusters
        invariant
            x.wf(),
            labels@.len() == x@.len(),
            cols == x.spec_cols(),
            rows == x@.len(),
            c <= n_clusters,
            rows_view(out@) == centroids_of(x@, labels@, c as int),
            out@.len() <= c,
            forall|t: int| 0 <= t < out@.len() ==> (#[trigger] out@[t])@.len() == cols as int,
            forall|t: int, j: int|
                0 <= t < out@.len() && 0 <= j < out@[t]@.len()
                    ==> -(COORD_LIMIT as int) <= #[trigger] (out@[t]@[j] as int)
                        <= COORD_LIMIT as int,
        decreases n_clusters - c,
    {
        let ghost rr = rows_of_cluster(x@, labels@, c as int);
        proof {
            lemma_rows_of_cluster_shape(x@, labels@, c as int, cols as int, COORD_LIMIT as int);
        }
        // collect the rows currently labelled c, in row order
        let mut members: Vec<Vec<i64>> = Vec::new();
        let mut i: usize = 0;
        while i < rows
            invariant
                x.wf(),
                labels@.len() == x@.len(),
                rows == x@.len(),
                i <= rows,
                rows_view(members@) == rows_of_cluster(
                    x@.take(i as int),
                    labels@.take(i as int),
                    c as int,
                ),
            decreases rows - i,
        {
            proof {
                assert(x@.take(i + 1).drop_last() =~= x@.take(i as int));
                assert(labels@.take(i + 1).drop_last() =~= labels@.take(i as int));
                assert(x@.take(i + 1).last() == x@[i as int]);
                assert(labels@.take(i + 1).last() == labels@[i as int]);
            }
            if labels[i] == c {
                let xr = x.row(i);
                proof {
                    assert(rows_view(members@.push(xr)) =~= rows_view(members@) + seq![
                        row_view(xr@),
                    ]);
                }
                members.push(xr);
            }
            i += 1;
        }
        proof {
            assert(x@.take(rows as int) =~= x@);
            assert(labels@.take(rows as int) =~= labels@);
            assert(rows_view(members@) == rr);
        }
        let n = members.len();
        if n > 0 {
            // the column-wise truncated mean of the member rows
            let mut mrow: Vec<i64> = Vec::new();
            let mut j: usize = 0;
            while j < cols
                invariant
                    x.wf(),
                    labels@.len() == x@.len(),
                    cols == x.spec_cols(),
                    j <= cols,
                    rr == rows_of_cluster(x@, labels@, c as int),
                    rows_view(members@) == rr,
                    n == members@.len(),
                    1 <= n,
                    n == rr.len(),
                    forall|t: int| 0 <= t < rr.len() ==> (#[trigger] rr[t]).len() == cols as int,
                    forall|t: int, s: int|
                        0 <= t < rr.len() && 0 <= s < cols as int ==> -(COORD_LIMIT as int)
                            <= #[trigger] rr[t][s] <= COORD_LIMIT as int,
                    mrow@.len() == j,
                    forall|t: int|
                        0 <= t < j ==> #[trigger] (mrow@[t] as int) == div_trunc(
                            col_sum(rr, t),
                            n as int,
                        ),
                    forall|t: int|
                        0 <= t < j ==> -(COORD_LIMIT as int) <= #[trigger] (mrow@[t] as int)
                            <= COORD_LIMIT as int,
                decreases cols - j,
            {
                let mut s: i128 = 0;
                let mut t: usize = 0;
                while t < n
                    invariant
                        j < cols,
                        t <= n,
                        rows_view(members@) == rr,
                        n == members@.len(),
                        n == rr.len(),
                        forall|u: int|
                            0 <= u < rr.len() ==> (#[trigger] rr[u]).len() == cols as int,
                        forall|u: int, v: int|
                            0 <= u < rr.len() && 0 <= v < cols as int ==> -(COORD_LIMIT as int)
                                <= #[trigger] rr[u][v] <= COORD_LIMIT as int,
                        s as int == col_sum(rr.take(t as int), j as int),
                        -((t as int) * (COORD_LIMIT as int)) <= s as int <= (t as int) * (
                        COORD_LIMIT as int),
                    decreases n - t,
                {
                    proof {
                        assert(rr.take(t + 1).drop_last() =~= rr.take(t as int));
                        assert(rr.take(t + 1).last() == rr[t as int]);
                        assert(members@[t as int]@.len() == rr[t as int].len());
                        assert(members@[t as int]@[j as int] as int == rr[t as int][j as int]);
                    }
                    s = s + (members[t][j] as i128);
                    t += 1;
                }
                proof {
                    assert(rr.take(n as int) =~= rr);
                    lemma_div_trunc_bound(s as int, n as int, COORD_LIMIT as int);
                }
                let q = div_trunc_i128(s, n);
                mrow.push(q as i64);
                j += 1;
            }
            proof {
                assert(row_view(mrow@) =~= mean_row(rr, cols as int));
                assert(rr[0].len() == cols as int);
                assert(mean_row(rr, rr[0].len() as int) == mean_row(rr, cols as int));
                assert(centroids_of(x@, labels@, c as int + 1) == centroids_of(
                    x@,
                    labels@,
                    c as int,
                ) + seq![mean_row(rr, rr[0].len() as int)]);
                assert(rows_view(out@.push(mrow)) =~= rows_view(out@) + seq![row_view(mrow@)]);
            }
            out.push(mrow);
        } else {
            proof {
                assert(rr.len() == 0);
                assert(centroids_of(x@, labels@, c as int + 1) == centroids_of(
                    x@,
                    labels@,
                    c as int,
                ) + Seq::<Seq<int>>::empty());
                assert(centroids_of(x@, labels@, c as int) + Seq::<Seq<int>>::empty()
                    =~= centroids_of(x@, labels@, c as int));
            }
        }
        c += 1;
    }
    Matrix::from_raw(cols, out)
}

/// Lloyd's iteration: starting from `init_labels`, repeatedly recompute
/// the centroids of the current clusters and reassign every row of `x` to
/// its nearest centroid, until the labelling repeats or `max_iter` passes
/// have run. Returns the final labels, the final centroid matrix, and the
/// number of reassignment passes performed, which never exceeds `max_iter`.
/// The defensive `ShapeMismatch` outcome is proved unreachable here: the
/// result is always `Ok`.
pub fn fit_clusters(x: &Matrix, init_labels: Vec<usize>, n_clusters: usize, max_iter: usize) -> (r:
    Result<(Vec<usize>, Matrix, usize), ShapeMismatch>)
    requires
        x.wf(),
        init_labels@.len() == x@.len(),
    ensures
        r is Ok,
        ({
            let (labels, cents, passes) = r->Ok_0;
            &&& labels@ == lloyd_result(x@, init_labels@, n_clusters as int, max_iter as nat).0
            &&& cents@ == lloyd_result(x@, init_labels@, n_clusters as int, max_iter as nat).1
            &&& labels@.len() == x@.len()
            &&& cents.wf()
            &&& cents.spec_cols() == x.spec_cols()
            &&& cents@.len() <= n_clusters
            &&& passes <= max_iter
        }),
{
    let ghost init0 = init_labels@;
    let rows = x.rows();
    let mut labels = init_labels;

    let mut pre_labels: Vec<usize> = Vec::new();
    let mut z: usize = 0;
    while z < rows
        invariant
            z <= rows,
            pre_labels@.len() == z,
            forall|t: int| 0 <= t < z ==> pre_labels@[t] == 0usize,
        decreases rows - z,
    {
        pre_labels.push(0);
        z += 1;
    }
    proof {
        assert(pre_labels@ =~= zero_labels_seq(x@.len() as int));
    }

    let mut mean_array = Matrix::empty(x.cols());
    let mut passes: usize = 0;
    let mut it: usize = 0;
    let mut converged = false;
    while it < max_iter && !converged
        invariant
            x.wf(),
            labels@.len() == x@.len(),
            pre_labels@.len() == x@.len(),
            mean_array.wf(),
            mean_array.spec_cols() == x.spec_cols(),
            mean_array@.len() <= n_clusters,
            it <= max_iter,
            passes <= it,
            lloyd(
                x@,
                labels@,
                pre_labels@,
                mean_array@,
                n_clusters as int,
                (max_iter - it) as nat,
            ) == lloyd_result(x@, init0, n_clusters as int, max_iter as nat),
            converged ==> labels@ == pre_labels@,
        decreases max_iter - it,
    {
        if labels_match(&labels, &pre_labels) {
            converged = true;
        } else {
            pre_labels = copy_labels(&labels);
            mean_array = compute_centroids(x, &labels, n_clusters);
            let new_labels = match get_labels(x, &mean_array) {
                Ok(l) => l,
                Err(e) => {
                    proof {
                        assert(false);
                    }
                    return Err(e);
                },
            };
            labels = new_labels;
            passes += 1;
        }
        it += 1;
    }
    Ok((labels, mean_array, passes))
}

/// The labelling Lloyd's iteration returns keeps one label per row of `x`.
proof fn lemma_lloyd_len(
    x: Seq<Seq<int>>,
    labels: Seq<usize>,
    prev: Seq<usize>,
    cents: Seq<Seq<int>>,
    k: int,
    fuel: nat,
)
    requires
        labels.len() == x.len(),
    ensures
        lloyd(x, labels, prev, cents, k, fuel).0.len() == x.len(),
    decreases fuel,
{
    if !(labels == prev || fuel == 0) {
        let cs = centroids_of(x, labels, k);
        lemma_lloyd_len(x, assign(x, cs), labels, cs, k, (fuel - 1) as nat);
    }
}

/// Label-count law: `fit` hands back exactly one label per observation row.
pub proof fn lemma_fit_labels_len(x: Seq<Seq<int>>, init: Seq<usize>, k: int, cap: nat)
    requires
        init.len() == x.len(),
    ensures
        lloyd_result(x, init, k, cap).0.len() == x.len(),
{
    lemma_lloyd_len(x, init, zero_labels_seq(x.len() as int), Seq::empty(), k, cap);
}

/// Once the iteration state satisfies `range_ok` at every possible exit,
/// the result does: reassignment always re-establishes it.
proof fn lemma_lloyd_range(
    x: Seq<Seq<int>>,
    labels: Seq<usize>,
    prev: Seq<usize>,
    cents: Seq<Seq<int>>,
    k: int,
    fuel: nat,
)
    requires
        k <= usize::MAX,
        labels == prev ==> range_ok(labels, cents),
        fuel == 0 ==> range_ok(labels, cents),
    ensures
        range_ok(lloyd(x, labels, prev, cents, k, fuel).0, lloyd(x, labels, prev, cents, k, fuel).1),
    decreases fuel,
{
    if !(labels == prev || fuel == 0) {
        let cs = centroids_of(x, labels, k);
        lemma_centroids_of_len(x, labels, k);
        lemma_assign_range(x, cs);
        lemma_lloyd_range(x, assign(x, cs), labels, cs, k, (fuel - 1) as nat);
    }
}

/// Label-range law: every label `fit` returns is a row index of the
/// centroid matrix it returns — except that when every cluster emptied and
/// the centroid matrix has no rows, every label is zero.
pub proof fn lemma_fit_labels_in_range(x: Seq<Seq<int>>, init: Seq<usize>, k: int, cap: nat)
    requires
        init.len() == x.len(),
        0 <= k <= usize::MAX,
        cap >= 1,
    ensures
        range_ok(lloyd_result(x, init, k, cap).0, lloyd_result(x, init, k, cap).1),
{
    let zeros = zero_labels_seq(x.len() as int);
    if init == zeros {
        assert(range_ok(init, Seq::<Seq<int>>::empty()));
    }
    lemma_lloyd_range(x, init, zeros, Seq::empty(), k, cap);
}

/// Once the iteration state is a fixpoint of assignment at every possible
/// exit, the returned labels are the nearest-centroid assignment of the
/// returned centroids.
proof fn lemma_lloyd_fixpoint(
    x: Seq<Seq<int>>,
    labels: Seq<usize>,
    prev: Seq<usize>,
    cents: Seq<Seq<int>>,
    k: int,
    fuel: nat,
)
    requires
        labels == prev ==> labels == assign(x, cents),
        fuel == 0 ==> labels == assign(x, cents),
    ensures
        lloyd(x, labels, prev, cents, k, fuel).0 == assign(
            x,
            lloyd(x, labels, prev, cents, k, fuel).1,
        ),
    decreases fuel,
{
    if !(labels == prev || fuel == 0) {
        let cs = centroids_of(x, labels, k);
        lemma_lloyd_fixpoint(x, assign(x, cs), labels, cs, k, (fuel - 1) as nat);
    }
}

/// Fit/predict agreement law: the labels `fit` returns are exactly the
/// nearest-centroid assignment of the centroid matrix it returns — so a
/// `predict` on the training data reproduces `fit`'s own labels.
pub proof fn lemma_fit_predict_agree(x: Seq<Seq<int>>, init: Seq<usize>, k: int, cap: nat)
    requires
        init.len() == x.len(),
        cap >= 1,
    ensures
        lloyd_result(x, init, k, cap).0 == assign(x, lloyd_result(x, init, k, cap).1),
{
    let zeros = zero_labels_seq(x.len() as int);
    if init == zeros {
        assert forall|i: int| 0 <= i < x.len() implies assign(x, Seq::<Seq<int>>::empty())[i]
            == zeros[i] by {
            assert(nearest(x[i], Seq::<Seq<int>>::empty()) == 0);
        }
        assert(assign(x, Seq::<Seq<int>>::empty()) =~= zeros);
    }
    lemma_lloyd_fixpoint(x, init, zeros, Seq::empty(), k, cap);
}

} // verus!
