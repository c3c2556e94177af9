//! Bresenham lines: which grid points a straight line goes through.

use vstd::prelude::*;

use crate::bbox::{max, BboxView};

verus! {

pub open spec fn abs(v: int) -> int {
    if v < 0 {
        -v
    } else {
        v
    }
}

/// The direction of travel from `from` to `to` along one axis.
pub open spec fn heading(from: int, to: int) -> int {
    if from < to {
        1
    } else {
        -1
    }
}

/// The number of steps of the line: its extent along its longer axis.
pub open spec fn steps(a: (int, int), b: (int, int)) -> int {
    max(abs(b.0 - a.0), abs(b.1 - a.1))
}

/// `extent * k / n` rounded to the nearest integer, halves rounded down: how
/// far `k` of `n` steps lead along an axis of the given extent.
pub open spec fn progress(extent: int, k: int, n: int) -> int {
    if n == 0 {
        0
    } else {
        (2 * extent * k + n - 1) / (2 * n)
    }
}

/// The `k`-th point of the line from `a` to `b`.
pub open spec fn line_point(a: (int, int), b: (int, int), k: int) -> (int, int) {
    let n = steps(a, b);
    (
        a.0 + heading(a.0, b.0) * progress(abs(b.0 - a.0), k, n),
        a.1 + heading(a.1, b.1) * progress(abs(b.1 - a.1), k, n),
    )
}

/// `progress` is the only integer within half a step of `extent * k / n`.
pub proof fn lemma_progress(extent: int, k: int, n: int, q: int)
    requires
        n > 0,
    ensures
        q == progress(extent, k, n) <==> 2 * n * q - n < 2 * extent * k <= 2 * n * q + n,
{
    let t = 2 * extent * k + n - 1;
    assert(q == t / (2 * n) <==> (2 * n) * q <= t < (2 * n) * q + 2 * n) by (nonlinear_arith)
        requires
            n > 0,
    ;
    assert((2 * n) * q == 2 * n * q);
}

/// `progress` starts at the start, ends at the end, and on the longer axis
/// advances by one at every step.
pub proof fn lemma_progress_ends(extent: int, n: int)
    requires
        0 <= extent <= n,
    ensures
        progress(extent, 0, n) == 0,
        progress(extent, n, n) == extent,
        forall|k: int| n > 0 ==> #[trigger] progress(n, k, n) == k,
{
    if n > 0 {
        assert(2 * extent * 0 == 0) by (nonlinear_arith);
        assert(2 * n * 0 == 0) by (nonlinear_arith);
        lemma_progress(extent, 0, n, 0);
        assert(2 * extent * n == 2 * n * extent) by (nonlinear_arith);
        lemma_progress(extent, n, n, extent);
        assert forall|k: int| #[trigger] progress(n, k, n) == k by {
            lemma_progress(n, k, n, k);
        }
    }
}

/// One step moves by one or not at all, and never past the end.
pub proof fn lemma_progress_step(extent: int, k: int, n: int)
    requires
        0 <= extent <= n,
        0 <= k < n,
    ensures
        0 <= progress(extent, k, n) <= extent,
        progress(extent, k, n) <= progress(extent, k + 1, n) <= progress(extent, k, n) + 1,
        progress(extent, k + 1, n) <= extent,
{
    let q = progress(extent, k, n);
    let q1 = progress(extent, k + 1, n);
    lemma_progress(extent, k, n, q);
    lemma_progress(extent, k + 1, n, q1);
    assert(2 * extent * (k + 1) == 2 * extent * k + 2 * extent) by (nonlinear_arith);
    assert(0 <= 2 * extent * k) by (nonlinear_arith)
        requires
            0 <= extent,
            0 <= k,
    ;
    assert(2 * extent * k + 2 * extent <= 2 * n * extent) by (nonlinear_arith)
        requires
            0 <= extent,
            0 <= k < n,
    ;
    // q >= 0: otherwise 2 * n * q + n <= -n < 0.
    assert(q >= 0) by (nonlinear_arith)
        requires
            n > 0,
            0 <= 2 * extent * k <= 2 * n * q + n,
    ;
    assert(q1 >= q) by (nonlinear_arith)
        requires
            n > 0,
            2 * n * q - n < 2 * extent * k,
            2 * extent * k + 2 * extent <= 2 * n * q1 + n,
            0 <= extent,
    ;
    assert(q1 <= q + 1) by (nonlinear_arith)
        requires
            n > 0,
            extent <= n,
            2 * extent * k <= 2 * n * q + n,
            2 * n * q1 - n < 2 * extent * k + 2 * extent,
    ;
    assert(q1 <= extent) by (nonlinear_arith)
        requires
            n > 0,
            2 * n * q1 - n < 2 * n * extent,
    ;
}

/// `progress` never decreases.
pub proof fn lemma_progress_monotone(extent: int, j: int, k: int, n: int)
    requires
        0 <= extent <= n,
        0 <= j <= k <= n,
    ensures
        0 <= progress(extent, j, n) <= progress(extent, k, n) <= extent,
    decreases k - j,
{
    lemma_progress_ends(extent, n);
    if n > 0 {
        if j < n {
            lemma_progress_step(extent, j, n);
        }
        if j < k {
            lemma_progress_monotone(extent, j + 1, k, n);
        }
    }
}

/// The error term after some steps: what decides which axis moves next. `i` and
/// `j` are the steps taken along the two axes so far.
pub open spec fn error_term(d: int, e: int, i: int, j: int) -> int {
    d * (j + 1) - e * (i + 1)
}

/// The error term tells, on each axis, whether the next point moves along it.
pub proof fn lemma_error_decides(d: int, e: int, k: int)
    requires
        0 <= d,
        0 <= e,
        0 <= k < max(d, e),
    ensures
        ({
            let n = max(d, e);
            let i = progress(d, k, n);
            let j = progress(e, k, n);
            let err = error_term(d, e, i, j);
            &&& progress(d, k + 1, n) == if 2 * err > -e { i + 1 } else { i }
            &&& progress(e, k + 1, n) == if 2 * err < d { j + 1 } else { j }
            &&& -3 * e <= 2 * err <= 3 * d
        }),
{
    let n = max(d, e);
    let i = progress(d, k, n);
    let j = progress(e, k, n);
    let err = error_term(d, e, i, j);
    lemma_progress_ends(d, n);
    lemma_progress_ends(e, n);
    if d >= e {
        assert(i == k);
        lemma_progress(e, k, n, j);
        lemma_progress(e, k + 1, n, j);
        lemma_progress(e, k + 1, n, j + 1);
        assert(2 * e * (k + 1) == 2 * e * k + 2 * e) by (nonlinear_arith);
        assert(2 * d * (j + 1) == 2 * d * j + 2 * d) by (nonlinear_arith);
        assert(2 * err == 2 * d * (j + 1) - 2 * e * (k + 1)) by (nonlinear_arith)
            requires
                err == d * (j + 1) - e * (k + 1),
        ;
        if d == e {
            assert(j == k);
            assert(err == 0) by (nonlinear_arith)
                requires
                    err == d * (k + 1) - d * (k + 1),
            ;
        }
    } else {
        assert(j == k);
        lemma_progress(d, k, n, i);
        lemma_progress(d, k + 1, n, i);
        lemma_progress(d, k + 1, n, i + 1);
        assert(2 * d * (k + 1) == 2 * d * k + 2 * d) by (nonlinear_arith);
        assert(2 * e * (i + 1) == 2 * e * i + 2 * e) by (nonlinear_arith);
        assert(2 * err == 2 * d * (k + 1) - 2 * e * (i + 1)) by (nonlinear_arith)
            requires
                err == d * (k + 1) - e * (i + 1),
        ;
    }
}

/// Travel along an axis goes up or down by the distance covered.
pub proof fn lemma_heading(from: int, to: int, q: int)
    ensures
        heading(from, to) * q == if from < to {
            q
        } else {
            -q
        },
{
    assert(1 * q == q && (-1) * q == -q) by (nonlinear_arith);
}

/// A line starts at `a`, ends at `b`, stays in the box of the two, and each
/// of its steps leads to one of the eight points around the last.
pub proof fn lemma_line(a: (int, int), b: (int, int))
    ensures
        line_point(a, b, 0) == a,
        line_point(a, b, steps(a, b)) == b,
        forall|k: int|
            0 <= k <= steps(a, b) ==> {
                let p = #[trigger] line_point(a, b, k);
                BboxView::from_two(a, b).contains(p.0, p.1)
            },
        forall|j: int, k: int|
            0 <= j && k == j + 1 && k <= steps(a, b) ==> {
                let p = #[trigger] line_point(a, b, j);
                let q = #[trigger] line_point(a, b, k);
                p != q && abs(q.0 - p.0) <= 1 && abs(q.1 - p.1) <= 1
            },
{
    let n = steps(a, b);
    let d = abs(b.0 - a.0);
    let e = abs(b.1 - a.1);
    lemma_progress_ends(d, n);
    lemma_progress_ends(e, n);
    lemma_heading(a.0, b.0, 0);
    lemma_heading(a.1, b.1, 0);
    lemma_heading(a.0, b.0, d);
    lemma_heading(a.1, b.1, e);
    assert forall|k: int| 0 <= k <= n implies {
        let p = #[trigger] line_point(a, b, k);
        BboxView::from_two(a, b).contains(p.0, p.1)
    } by {
        lemma_progress_monotone(d, 0, k, n);
        lemma_progress_monotone(e, 0, k, n);
        lemma_heading(a.0, b.0, progress(d, k, n));
        lemma_heading(a.1, b.1, progress(e, k, n));
    }
    assert forall|j: int, k: int| 0 <= j && k == j + 1 && k <= n implies {
        let p = #[trigger] line_point(a, b, j);
        let q = #[trigger] line_point(a, b, k);
        p != q && abs(q.0 - p.0) <= 1 && abs(q.1 - p.1) <= 1
    } by {
        lemma_progress_step(d, j, n);
        lemma_progress_step(e, j, n);
        lemma_heading(a.0, b.0, progress(d, j, n));
        lemma_heading(a.0, b.0, progress(d, k, n));
        lemma_heading(a.1, b.1, progress(e, j, n));
        lemma_heading(a.1, b.1, progress(e, k, n));
        assert(progress(n, j, n) == j && progress(n, k, n) == k);
    }
}

} // verus!
