//! Windowed Dynamic Time Warping between two key-centre paths.
//!
//! The alignment cost follows the standard DTW recurrence with a
//! Sakoe-Chiba band of half-width `w`: cells with `|i - j| > w` are
//! unreachable.  Costs are exact integers; `INF_COST` is the sentinel
//! for "no valid alignment", and cumulative costs saturate there (far
//! beyond any cost a real path can reach, since a single step costs
//! less than 2^17).

use vstd::prelude::*;
use crate::types::Point;
use crate::keyboard::{dist_spec, euclidean_dist, lemma_dist_bound};

verus! {

/// Sentinel cost meaning "no valid alignment" (2^60).
pub const INF_COST: u64 = 0x1000_0000_0000_0000;

/// Whether the cell `(i, j)` lies inside the Sakoe-Chiba band of
/// half-width `w`.
pub open spec fn in_band(i: int, j: int, w: int) -> bool {
    -w <= i - j <= w
}

/// The smaller of two cumulative costs.
pub open spec fn min_cost(a: int, b: int) -> int {
    if a <= b {
        a
    } else {
        b
    }
}

/// The minimum cumulative cost of a warping path from `(0, 0)` to
/// `(i, j)` inside the band: the local cost of aligning `a[i]` with
/// `b[j]` plus the cheapest of the three predecessor cells, saturating
/// at `INF_COST`.
pub open spec fn cell(a: Seq<Point>, b: Seq<Point>, w: int, i: int, j: int) -> int
    decreases i + j,
        when 0 <= i && 0 <= j
{
    if !in_band(i, j, w) {
        INF_COST as int
    } else {
        let l = dist_spec(a[i], b[j]);
        if i == 0 && j == 0 {
            l
        } else {
            let up = if i > 0 { cell(a, b, w, i - 1, j) } else { INF_COST as int };
            let left = if j > 0 { cell(a, b, w, i, j - 1) } else { INF_COST as int };
            let diag = if i > 0 && j > 0 { cell(a, b, w, i - 1, j - 1) } else { INF_COST as int };
            let p = min_cost(min_cost(up, left), diag);
            if p >= INF_COST as int {
                INF_COST as int
            } else if l + p >= INF_COST as int {
                INF_COST as int
            } else {
                l + p
            }
        }
    }
}

/// Every cell cost lies between 0 and the sentinel.
pub proof fn lemma_cell_bounds(a: Seq<Point>, b: Seq<Point>, w: int, i: int, j: int)
    requires
        0 <= i,
        0 <= j,
    ensures
        0 <= cell(a, b, w, i, j) <= INF_COST as int,
    decreases i + j,
{
    lemma_dist_bound(a[i], b[j]);
    if in_band(i, j, w) && !(i == 0 && j == 0) {
        if i > 0 {
            lemma_cell_bounds(a, b, w, i - 1, j);
        }
        if j > 0 {
            lemma_cell_bounds(a, b, w, i, j - 1);
        }
        if i > 0 && j > 0 {
            lemma_cell_bounds(a, b, w, i - 1, j - 1);
        }
    }
}

/// The band half-width actually used: at least the length difference of
/// the two sequences, so that a path from corner to corner exists inside
/// the band.
pub open spec fn eff_window(m: int, n: int, w: int) -> int {
    let d = if m >= n {
        m - n
    } else {
        n - m
    };
    if w >= d {
        w
    } else {
        d
    }
}

/// The windowed DTW alignment cost between `a` and `b`: `INF_COST` when
/// either sequence is empty, otherwise the corner cell of the dynamic
/// programming table under the effective band.
pub open spec fn dtw_spec(a: Seq<Point>, b: Seq<Point>, w: int) -> int {
    if a.len() == 0 || b.len() == 0 {
        INF_COST as int
    } else {
        cell(a, b, eff_window(a.len() as int, b.len() as int, w), a.len() - 1, b.len() - 1)
    }
}

/// The alignment cost always lies between 0 and the sentinel.
pub proof fn lemma_dtw_spec_bounds(a: Seq<Point>, b: Seq<Point>, w: int)
    ensures
        0 <= dtw_spec(a, b, w) <= INF_COST as int,
{
    if a.len() > 0 && b.len() > 0 {
        lemma_cell_bounds(
            a,
            b,
            eff_window(a.len() as int, b.len() as int, w),
            a.len() - 1,
            b.len() - 1,
        );
    }
}

/// One cell of the dynamic programming table, from the previous row and
/// the current row's prefix.
fn dtw_cell(
    a: &Vec<Point>,
    b: &Vec<Point>,
    prev: &Vec<u64>,
    cur: &Vec<u64>,
    i: usize,
    j: usize,
    w: usize,
) -> (val: u64)
    requires
        i < a@.len(),
        j < b@.len(),
        cur@.len() == j,
        forall|j2: int| 0 <= j2 < j ==> cur@[j2] == cell(a@, b@, w as int, i as int, j2),
        i > 0 ==> prev@.len() == b@.len(),
        i > 0 ==> forall|j2: int| 0 <= j2 < b@.len()
            ==> prev@[j2] == cell(a@, b@, w as int, i - 1, j2),
    ensures
        val as int == cell(a@, b@, w as int, i as int, j as int),
        val <= INF_COST,
{
    let band_dist: usize = if i >= j { i - j } else { j - i };
    if band_dist > w {
        return INF_COST;
    }
    let l = euclidean_dist(&a[i], &b[j]);
    proof {
        lemma_dist_bound(a@[i as int], b@[j as int]);
    }
    if i == 0 && j == 0 {
        return l;
    }
    let mut pmin: u64 = INF_COST;
    if i > 0 {
        proof {
            lemma_cell_bounds(a@, b@, w as int, i - 1, j as int);
        }
        let up = prev[j];
        if up < pmin {
            pmin = up;
        }
    }
    if j > 0 {
        proof {
            lemma_cell_bounds(a@, b@, w as int, i as int, j - 1);
        }
        let left = cur[j - 1];
        if left < pmin {
            pmin = left;
        }
    }
    if i > 0 && j > 0 {
        proof {
            lemma_cell_bounds(a@, b@, w as int, i - 1, j - 1);
        }
        let diag = prev[j - 1];
        if diag < pmin {
            pmin = diag;
        }
    }
    if pmin >= INF_COST {
        INF_COST
    } else {
        let s = l + pmin;
        if s >= INF_COST {
            INF_COST
        } else {
            s
        }
    }
}

/// Compute the windowed DTW alignment cost between two paths.
///
/// The window half-width is widened to the length difference of the two
/// paths whenever the caller's `window` is smaller, so a corner-to-corner
/// alignment always exists inside the band.
pub fn dtw_distance(a: &Vec<Point>, b: &Vec<Point>, window: usize) -> (r: u64)
    ensures
        r as int == dtw_spec(a@, b@, window as int),
{
    let m = a.len();
    let n = b.len();
    if m == 0 || n == 0 {
        return INF_COST;
    }
    let diff: usize = if m >= n { m - n } else { n - m };
    let w: usize = if window >= diff { window } else { diff };
    assert(w as int == eff_window(m as int, n as int, window as int));

    let mut prev: Vec<u64> = Vec::new();
    let mut i: usize = 0;
    while i < m
        invariant
            0 < i <= m || i == 0,
            1 <= m == a@.len(),
            1 <= n == b@.len(),
            w == eff_window(m as int, n as int, window as int),
            i > 0 ==> prev@.len() == n,
            i > 0 ==> forall|j2: int| 0 <= j2 < n
                ==> prev@[j2] == cell(a@, b@, w as int, i - 1, j2),
        decreases m - i,
    {
        let mut cur: Vec<u64> = Vec::new();
        let mut j: usize = 0;
        while j < n
            invariant
                j <= n,
                i < m,
                1 <= m == a@.len(),
                1 <= n == b@.len(),
                w == eff_window(m as int, n as int, window as int),
                i > 0 ==> prev@.len() == n,
                i > 0 ==> forall|j2: int| 0 <= j2 < n
                    ==> prev@[j2] == cell(a@, b@, w as int, i - 1, j2),
                cur@.len() == j,
                forall|j2: int| 0 <= j2 < j ==> cur@[j2] == cell(a@, b@, w as int, i as int, j2),
            decreases n - j,
        {
            let val = dtw_cell(a, b, &prev, &cur, i, j, w);
            cur.push(val);
            j = j + 1;
        }
        prev = cur;
        i = i + 1;
    }
    prev[n - 1]
}

/// The smallest cell cost in row `i` among columns `0 .. j`
/// (the sentinel when the range is empty).
pub open spec fn row_min(a: Seq<Point>, b: Seq<Point>, w: int, i: int, j: int) -> int
    decreases j,
        when j >= 0
{
    if j <= 0 {
        INF_COST as int
    } else {
        min_cost(row_min(a, b, w, i, j - 1), cell(a, b, w, i, j - 1))
    }
}

proof fn lemma_row_min_bound(a: Seq<Point>, b: Seq<Point>, w: int, i: int, j: int)
    requires
        0 <= j,
    ensures
        row_min(a, b, w, i, j) <= INF_COST as int,
    decreases j,
{
    if j > 0 {
        lemma_row_min_bound(a, b, w, i, j - 1);
    }
}

proof fn lemma_row_min_le(a: Seq<Point>, b: Seq<Point>, w: int, i: int, j: int, end: int)
    requires
        0 <= j < end,
    ensures
        row_min(a, b, w, i, end) <= cell(a, b, w, i, j),
        row_min(a, b, w, i, end) <= INF_COST as int,
    decreases end,
{
    lemma_row_min_bound(a, b, w, i, end);
    if j < end - 1 {
        lemma_row_min_le(a, b, w, i, j, end - 1);
    }
}

/// Cumulative costs only grow along a warping path: every cell at or
/// below row `i0` costs at least the cheapest cell of row `i0`, so once
/// a whole row exceeds a cutoff the corner does too.
proof fn lemma_cell_ge_row_min(a: Seq<Point>, b: Seq<Point>, w: int, i0: int, i: int, j: int)
    requires
        0 <= i0 <= i,
        0 <= j < b.len(),
    ensures
        cell(a, b, w, i, j) >= row_min(a, b, w, i0, b.len() as int),
    decreases i + j,
{
    let rm = row_min(a, b, w, i0, b.len() as int);
    lemma_row_min_le(a, b, w, i0, j, b.len() as int);
    if i == i0 {
    } else {
        if in_band(i, j, w) {
            lemma_dist_bound(a[i], b[j]);
            lemma_cell_ge_row_min(a, b, w, i0, i - 1, j);
            if j > 0 {
                lemma_cell_ge_row_min(a, b, w, i0, i, j - 1);
                lemma_cell_ge_row_min(a, b, w, i0, i - 1, j - 1);
            }
        }
    }
}

/// Windowed DTW with a cost cutoff: candidates whose true alignment cost
/// exceeds `cutoff` are reported as `INF_COST`; every cost at or below
/// `cutoff` is returned exactly.  Pruning therefore never disturbs any
/// result within the cutoff.
///
/// The table is abandoned early as soon as some row's cheapest cell
/// already exceeds the cutoff: no alignment through that row can do
/// better, so the final cost is provably above the cutoff as well.
pub fn dtw_distance_fast(a: &Vec<Point>, b: &Vec<Point>, window: usize, cutoff: u64) -> (r: u64)
    ensures
        r as int == (if dtw_spec(a@, b@, window as int) <= cutoff as int {
            dtw_spec(a@, b@, window as int)
        } else {
            INF_COST as int
        }),
{
    let m = a.len();
    let n = b.len();
    if m == 0 || n == 0 {
        return INF_COST;
    }
    let diff: usize = if m >= n { m - n } else { n - m };
    let w: usize = if window >= diff { window } else { diff };
    assert(w as int == eff_window(m as int, n as int, window as int));

    let mut prev: Vec<u64> = Vec::new();
    let mut i: usize = 0;
    while i < m
        invariant
            0 < i <= m || i == 0,
            1 <= m == a@.len(),
            1 <= n == b@.len(),
            w == eff_window(m as int, n as int, window as int),
            i > 0 ==> prev@.len() == n,
            i > 0 ==> forall|j2: int| 0 <= j2 < n
                ==> prev@[j2] == cell(a@, b@, w as int, i - 1, j2),
        decreases m - i,
    {
        let mut cur: Vec<u64> = Vec::new();
        let mut rmin: u64 = INF_COST;
        let mut j: usize = 0;
        while j < n
            invariant
                j <= n,
                i < m,
                1 <= m == a@.len(),
                1 <= n == b@.len(),
                w == eff_window(m as int, n as int, window as int),
                i > 0 ==> prev@.len() == n,
                i > 0 ==> forall|j2: int| 0 <= j2 < n
                    ==> prev@[j2] == cell(a@, b@, w as int, i - 1, j2),
                cur@.len() == j,
                forall|j2: int| 0 <= j2 < j ==> cur@[j2] == cell(a@, b@, w as int, i as int, j2),
                rmin as int == row_min(a@, b@, w as int, i as int, j as int),
            decreases n - j,
        {
            let val = dtw_cell(a, b, &prev, &cur, i, j, w);
            cur.push(val);
            if val < rmin {
                rmin = val;
            }
            j = j + 1;
        }
        if rmin > cutoff {
            // the cheapest cost through this row already exceeds the
            // cutoff, so the corner cannot come in under it
            proof {
                lemma_cell_ge_row_min(a@, b@, w as int, i as int, m - 1, n - 1);
            }
            return INF_COST;
        }
        prev = cur;
        i = i + 1;
    }
    let d = prev[n - 1];
    if d <= cutoff {
        d
    } else {
        INF_COST
    }
}

proof fn lemma_cell_diag_zero(a: Seq<Point>, w: int, k: int)
    requires
        0 <= k < a.len(),
        w >= 0,
    ensures
        cell(a, a, w, k, k) == 0,
    decreases k,
{
    assert(dist_spec(a[k], a[k]) == 0);
    if k > 0 {
        lemma_cell_diag_zero(a, w, k - 1);
        lemma_cell_bounds(a, a, w, k - 1, k);
        lemma_cell_bounds(a, a, w, k, k - 1);
    }
}

/// Aligning a non-empty path with itself costs exactly zero: the
/// diagonal of the table is free, whatever the window.
pub proof fn lemma_dtw_identical_zero(a: Seq<Point>, w: int)
    requires
        a.len() >= 1,
    ensures
        dtw_spec(a, a, w) == 0,
{
    lemma_cell_diag_zero(a, eff_window(a.len() as int, a.len() as int, w), a.len() - 1);
}

} // verus!
