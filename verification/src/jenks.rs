//! The classification entry point: validation, prefix aggregation, the
//! dynamic-programming table fill, and breakpoint backtracking.

use crate::grid::Grid;
use crate::model::{
    backtrack, best_cost, best_start, breaks_spec, class_cost, fact, input_ok, lemma_backtrack_props,
    lemma_best_bound, lemma_cost_bound, lemma_fact_small, lemma_prefix_bounds, lemma_scan_bound,
    lemma_start_range, lemma_unit_bounds, magnitude_ok, obs, psum, psumsq, scale_unit, scan,
    sorted_adjacent, ssd_num,
};
use vstd::prelude::*;

verus! {

/// Why a classification request was rejected. Every rejection is detected
/// before any table work starts, and no partial result is ever returned.
#[derive(Clone, Copy, Debug, PartialEq, Eq, Structural)]
pub enum JenksError {
    /// The requested class count was zero.
    ZeroClasses,
    /// More classes were requested than there are observations.
    TooManyClasses,
    /// Some adjacent pair of observations is out of ascending order.
    UnsortedInput,
}

impl JenksError {
    /// The diagnostic message of this error.
    pub open spec fn message_spec(self) -> Seq<char> {
        match self {
            JenksError::ZeroClasses => "Number of classes must be a positive integer."@,
            JenksError::TooManyClasses => "Number of classes cannot exceed number of data points."@,
            JenksError::UnsortedInput => "The input array must be sorted."@,
        }
    }

    /// The diagnostic message, for callers that report the failure.
    pub fn message(&self) -> (m: &'static str)
        ensures
            m@ == self.message_spec(),
    {
        match self {
            JenksError::ZeroClasses => "Number of classes must be a positive integer.",
            JenksError::TooManyClasses => "Number of classes cannot exceed number of data points.",
            JenksError::UnsortedInput => "The input array must be sorted.",
        }
    }
}

/// The width-scaled sum of squared deviations of `data[a..b]` from its own
/// mean: `w * Σx² - (Σx)²` over the range, `w` being its width `b - a`.
/// Dividing by `w` (as a rational) gives the range's sum of squared
/// deviations exactly.
pub fn ssd_numerator(data: &Vec<i64>, a: usize, b: usize) -> (r: i128)
    requires
        input_ok(data@),
        a < b,
        b <= data@.len(),
    ensures
        r == ssd_num(obs(data@), a as int, b as int),
{
    let ghost dd: Seq<int> = obs(data@);
    let (csum, csq) = prefix_tables(data);
    proof {
        lemma_prefix_bounds(dd, a as int);
        lemma_prefix_bounds(dd, b as int);
    }
    let w: i128 = (b - a) as i128;
    let s: i128 = csum[b] - csum[a];
    let q: i128 = csq[b] - csq[a];
    proof {
        assert(0 <= s * s <= 1600000000000000) by (nonlinear_arith)
            requires
                -40000000 <= s <= 40000000,
        ;
        assert(-400000000000000 <= w * q <= 400000000000000) by (nonlinear_arith)
            requires
                1 <= w <= 20,
                -20000000000000 <= q <= 20000000000000,
        ;
    }
    w * q - s * s
}

/// Build the cumulative-sum and cumulative-sum-of-squares tables of length
/// `n + 1`, index 0 holding zero.
fn prefix_tables(data: &Vec<i64>) -> (r: (Vec<i128>, Vec<i128>))
    requires
        input_ok(data@),
    ensures
        r.0@.len() == data@.len() + 1,
        r.1@.len() == data@.len() + 1,
        forall|x: int| 0 <= x <= data@.len() ==> #[trigger] r.0@[x] == psum(obs(data@), x),
        forall|x: int| 0 <= x <= data@.len() ==> #[trigger] r.1@[x] == psumsq(obs(data@), x),
{
    let ghost dd: Seq<int> = obs(data@);
    let n: usize = data.len();
    let mut csum: Vec<i128> = Vec::new();
    let mut csq: Vec<i128> = Vec::new();
    csum.push(0);
    csq.push(0);
    let mut i: usize = 1;
    while i <= n
        invariant
            input_ok(data@),
            dd == obs(data@),
            n == data@.len(),
            1 <= i <= n + 1,
            csum@.len() == i,
            csq@.len() == i,
            forall|x: int| 0 <= x < i ==> #[trigger] csum@[x] == psum(dd, x),
            forall|x: int| 0 <= x < i ==> #[trigger] csq@[x] == psumsq(dd, x),
        decreases n + 1 - i,
    {
        proof {
            lemma_prefix_bounds(dd, i - 1);
        }
        let v: i128 = data[i - 1] as i128;
        proof {
            assert(dd[i as int - 1] == data@[i as int - 1] as int);
            assert(0 <= v * v <= 1000000000000) by (nonlinear_arith)
                requires
                    -1000000 <= v <= 1000000,
            ;
        }
        let s: i128 = csum[i - 1] + v;
        let q: i128 = csq[i - 1] + v * v;
        csum.push(s);
        csq.push(q);
        i += 1;
    }
    (csum, csq)
}

/// The exact scaled cost of making `data[a..b]` one class, read off the
/// prefix tables in constant time: `(n! / w) * (w * Σx² - (Σx)²)` over the
/// range, `w` being its width.
fn range_cost(
    csum: &Vec<i128>,
    csq: &Vec<i128>,
    f: u64,
    a: usize,
    b: usize,
    Ghost(dd): Ghost<Seq<int>>,
) -> (r: i128)
    requires
        magnitude_ok(dd),
        csum@.len() == dd.len() + 1,
        csq@.len() == dd.len() + 1,
        forall|x: int| 0 <= x <= dd.len() ==> #[trigger] csum@[x] == psum(dd, x),
        forall|x: int| 0 <= x <= dd.len() ==> #[trigger] csq@[x] == psumsq(dd, x),
        f == fact(dd.len() as int),
        a < b,
        b <= dd.len(),
    ensures
        r == class_cost(dd, a as int, b as int),
{
    proof {
        lemma_prefix_bounds(dd, a as int);
        lemma_prefix_bounds(dd, b as int);
        lemma_fact_small(dd.len() as int);
        lemma_unit_bounds(dd, b - a);
        assert(csum@[a as int] == psum(dd, a as int));
        assert(csum@[b as int] == psum(dd, b as int));
    }
    let w: u64 = (b - a) as u64;
    let unit: u64 = f / w;
    let s: i128 = csum[b] - csum[a];
    let q: i128 = csq[b] - csq[a];
    proof {
        assert(unit as int == scale_unit(dd, b - a));
        assert(0 <= s * s <= 1600000000000000) by (nonlinear_arith)
            requires
                -40000000 <= s <= 40000000,
        ;
        assert(-400000000000000 <= (w as int) * q <= 400000000000000) by (nonlinear_arith)
            requires
                1 <= w <= 20,
                -20000000000000 <= q <= 20000000000000,
        ;
        assert(-4865804016353280000000000000000000 <= (unit as int) * ((w as int) * q - s * s)
            <= 4865804016353280000000000000000000) by (nonlinear_arith)
            requires
                0 <= unit <= 2432902008176640000,
                -2000000000000000 <= (w as int) * q - s * s <= 2000000000000000,
        ;
    }
    let num: i128 = (w as i128) * q - s * s;
    (unit as i128) * num
}

/// Check that no adjacent pair of observations is out of ascending order.
fn check_sorted(data: &Vec<i64>) -> (ok: bool)
    ensures
        ok == sorted_adjacent(obs(data@)),
{
    let ghost dd: Seq<int> = obs(data@);
    let n: usize = data.len();
    let mut t: usize = 1;
    while t < n
        invariant
            dd == obs(data@),
            n == data@.len(),
            1 <= t <= n || (n == 0 && t == 1),
            forall|x: int| 0 <= x && x + 1 < t ==> #[trigger] dd[x] <= dd[x + 1],
        decreases n - t,
    {
        if data[t - 1] > data[t] {
            proof {
                assert(dd[t as int - 1] > dd[t as int]);
            }
            return false;
        }
        t += 1;
    }
    true
}

/// `n!` for a small `n`, in a 64-bit word.
fn factorial_small(n: usize) -> (f: u64)
    requires
        n <= 20,
    ensures
        f == fact(n as int),
{
    let mut f: u64 = 1;
    let mut m: usize = 0;
    while m < n
        invariant
            0 <= m <= n,
            n <= 20,
            f == fact(m as int),
        decreases n - m,
    {
        proof {
            lemma_fact_small(m as int);
            lemma_fact_small(m as int + 1);
            assert(fact(m as int + 1) == (m as int + 1) * fact(m as int));
            assert((f as int) * (m as int + 1) == fact(m as int + 1)) by (nonlinear_arith)
                requires
                    f == fact(m as int),
                    fact(m as int + 1) == (m as int + 1) * fact(m as int),
            ;
        }
        f = f * ((m + 1) as u64);
        m += 1;
    }
    f
}

/// Fill one cell `(i, j)` of the dynamic program: scan every candidate split
/// `c` in `[j - 1, i - 1]` in ascending order, keeping the least total
/// `best[c][j-1] + cost(c, i)` and the start offset `c + 1` of the first
/// candidate that reached it (a strictly smaller total is required to
/// replace it, so ties keep the leftmost split).
#[verifier::loop_isolation(false)]
fn best_split(
    var: &Grid<i128>,
    csum: &Vec<i128>,
    csq: &Vec<i128>,
    f: u64,
    i: usize,
    j: usize,
    n: usize,
    k: usize,
    Ghost(dd): Ghost<Seq<int>>,
) -> (r: (i128, usize))
    requires
        magnitude_ok(dd),
        dd.len() == n,
        1 <= k <= n,
        csum@.len() == n + 1,
        csq@.len() == n + 1,
        forall|x: int| 0 <= x <= n ==> #[trigger] csum@[x] == psum(dd, x),
        forall|x: int| 0 <= x <= n ==> #[trigger] csq@[x] == psumsq(dd, x),
        f == fact(n as int),
        var.wf(),
        var.rows_spec() == n + 1,
        var.cols_spec() == k + 1,
        2 <= j <= k,
        j <= i <= n,
        forall|x: int|
            1 <= x <= n && j - 1 <= x ==> #[trigger] var.at(x, j - 1) == best_cost(dd, x, j - 1),
    ensures
        r.0 == best_cost(dd, i as int, j as int),
        r.1 == best_start(dd, i as int, j as int),
        j <= r.1 <= i,
{
    let prev_cell: i128 = var.get(j - 1, j - 1);
    proof {
        assert(var.at(j - 1, j - 1) == best_cost(dd, j - 1, j - 1));
        lemma_best_bound(dd, j - 1, j - 1);
        lemma_cost_bound(dd, j - 1, i as int);
    }
    let c0: i128 = range_cost(csum, csq, f, j - 1, i, Ghost(dd));
    let mut best: i128 = prev_cell + c0;
    let mut start: usize = j;
    let mut c: usize = j;
    proof {
        assert((best as int, start as int) == scan(dd, i as int, j as int, j - 1));
    }
    while c < i
        invariant
            j <= c <= i,
            j <= start <= c,
            (best as int, start as int) == scan(dd, i as int, j as int, c - 1),
        decreases i - c,
    {
        proof {
            assert(var.at(c as int, j - 1) == best_cost(dd, c as int, j - 1));
            lemma_best_bound(dd, c as int, j - 1);
            lemma_cost_bound(dd, c as int, i as int);
            lemma_scan_bound(dd, i as int, j as int, c - 1);
        }
        let cell: i128 = var.get(c, j - 1);
        let cc: i128 = range_cost(csum, csq, f, c, i, Ghost(dd));
        let cand: i128 = cell + cc;
        if cand < best {
            best = cand;
            start = c + 1;
        }
        c += 1;
        proof {
            assert((best as int, start as int) == scan(dd, i as int, j as int, c - 1));
        }
    }
    proof {
        assert(best as int == best_cost(dd, i as int, j as int));
        assert(start as int == best_start(dd, i as int, j as int));
    }
    (best, start)
}

/// Fill the two dynamic-programming tables: the base column of single-class
/// costs, then column by column the recurrence over every candidate split.
#[verifier::loop_isolation(false)]
fn fill_tables(
    csum: &Vec<i128>,
    csq: &Vec<i128>,
    f: u64,
    n: usize,
    k: usize,
    Ghost(dd): Ghost<Seq<int>>,
) -> (r: (Grid<i128>, Grid<usize>))
    requires
        magnitude_ok(dd),
        dd.len() == n,
        1 <= k <= n,
        csum@.len() == n + 1,
        csq@.len() == n + 1,
        forall|x: int| 0 <= x <= n ==> #[trigger] csum@[x] == psum(dd, x),
        forall|x: int| 0 <= x <= n ==> #[trigger] csq@[x] == psumsq(dd, x),
        f == fact(n as int),
    ensures
        r.0.wf(),
        r.0.rows_spec() == n + 1,
        r.0.cols_spec() == k + 1,
        r.1.wf(),
        r.1.rows_spec() == n + 1,
        r.1.cols_spec() == k + 1,
        forall|x: int| 1 <= x <= n ==> #[trigger] r.0.at(x, 1) == best_cost(dd, x, 1),
        forall|x: int| 1 <= x <= n ==> #[trigger] r.1.at(x, 1) == best_start(dd, x, 1),
        forall|jj: int, x: int|
            2 <= jj <= k && jj <= x <= n ==> #[trigger] r.0.at(x, jj) == best_cost(dd, x, jj),
        forall|jj: int, x: int|
            2 <= jj <= k && jj <= x <= n ==> #[trigger] r.1.at(x, jj) == best_start(dd, x, jj),
{
    let mut var: Grid<i128> = Grid::new(n + 1, k + 1, 0);
    let mut low: Grid<usize> = Grid::new(n + 1, k + 1, 0);

    let mut i: usize = 1;
    while i <= n
        invariant
            1 <= i <= n + 1,
            var.wf(),
            var.rows_spec() == n + 1,
            var.cols_spec() == k + 1,
            low.wf(),
            low.rows_spec() == n + 1,
            low.cols_spec() == k + 1,
            forall|x: int| 1 <= x < i ==> #[trigger] var.at(x, 1) == best_cost(dd, x, 1),
            forall|x: int| 1 <= x < i ==> #[trigger] low.at(x, 1) == best_start(dd, x, 1),
        decreases n + 1 - i,
    {
        let cost0: i128 = range_cost(csum, csq, f, 0, i, Ghost(dd));
        var.set(i, 1, cost0);
        low.set(i, 1, 1);
        i += 1;
    }

    let mut j: usize = 2;
    while j <= k
        invariant
            2 <= j <= k + 1,
            var.wf(),
            var.rows_spec() == n + 1,
            var.cols_spec() == k + 1,
            low.wf(),
            low.rows_spec() == n + 1,
            low.cols_spec() == k + 1,
            forall|x: int| 1 <= x <= n ==> #[trigger] var.at(x, 1) == best_cost(dd, x, 1),
            forall|x: int| 1 <= x <= n ==> #[trigger] low.at(x, 1) == best_start(dd, x, 1),
            forall|jj: int, x: int|
                2 <= jj < j && jj <= x <= n ==> #[trigger] var.at(x, jj) == best_cost(dd, x, jj),
            forall|jj: int, x: int|
                2 <= jj < j && jj <= x <= n ==> #[trigger] low.at(x, jj) == best_start(dd, x, jj),
        decreases k + 1 - j,
    {
        let mut i2: usize = j;
        while i2 <= n
            invariant
                j <= i2 <= n + 1,
                var.wf(),
                var.rows_spec() == n + 1,
                var.cols_spec() == k + 1,
                low.wf(),
                low.rows_spec() == n + 1,
                low.cols_spec() == k + 1,
                forall|x: int| 1 <= x <= n ==> #[trigger] var.at(x, 1) == best_cost(dd, x, 1),
                forall|x: int| 1 <= x <= n ==> #[trigger] low.at(x, 1) == best_start(dd, x, 1),
                forall|jj: int, x: int|
                    2 <= jj < j && jj <= x <= n ==> #[trigger] var.at(x, jj) == best_cost(
                        dd,
                        x,
                        jj,
                    ),
                forall|jj: int, x: int|
                    2 <= jj < j && jj <= x <= n ==> #[trigger] low.at(x, jj) == best_start(
                        dd,
                        x,
                        jj,
                    ),
                forall|x: int|
                    j <= x < i2 ==> #[trigger] var.at(x, j as int) == best_cost(dd, x, j as int),
                forall|x: int|
                    j <= x < i2 ==> #[trigger] low.at(x, j as int) == best_start(dd, x, j as int),
            decreases n + 1 - i2,
        {
            let (best, start) = best_split(&var, csum, csq, f, i2, j, n, k, Ghost(dd));
            var.set(i2, j, best);
            low.set(i2, j, start);
            i2 += 1;
        }
        j += 1;
    }
    (var, low)
}

/// Walk the filled table backward from `(n, k)` and collect the `k - 1`
/// zero-based breakpoints in ascending order.
#[verifier::loop_isolation(false)]
fn collect_breaks(low: &Grid<usize>, n: usize, k: usize, Ghost(dd): Ghost<Seq<int>>) -> (out: Vec<
    usize,
>)
    requires
        dd.len() == n,
        1 <= k <= n,
        low.wf(),
        low.rows_spec() == n + 1,
        low.cols_spec() == k + 1,
        forall|jj: int, x: int|
            2 <= jj <= k && jj <= x <= n ==> #[trigger] low.at(x, jj) == best_start(dd, x, jj),
    ensures
        out@.len() == k - 1,
        out@.map_values(|u: usize| u as int) == breaks_spec(dd, k as int),
{
    let ghost full: Seq<int> = breaks_spec(dd, k as int);
    proof {
        lemma_backtrack_props(dd, n as int, k as int);
    }
    let mut rev: Vec<usize> = Vec::new();
    let mut pos: usize = n;
    let mut j2: usize = k;
    while j2 >= 2
        invariant
            1 <= j2 <= k,
            j2 <= pos <= n,
            backtrack(dd, pos as int, j2 as int) == full.take(j2 - 1),
            rev@.len() == k - j2,
            forall|x: int| 0 <= x < k - j2 ==> #[trigger] rev@[x] as int == full[k - 2 - x],
        decreases j2,
    {
        proof {
            assert(low.at(pos as int, j2 as int) == best_start(dd, pos as int, j2 as int));
            lemma_start_range(dd, pos as int, j2 as int);
        }
        let s: usize = low.get(pos, j2);
        proof {
            let jj: int = j2 as int;
            let ss: int = best_start(dd, pos as int, jj);
            let x: Seq<int> = backtrack(dd, ss - 1, jj - 1);
            assert(backtrack(dd, pos as int, jj) == x.push(ss - 1));
            assert(full.take(jj - 1)[jj - 2] == ss - 1);
            assert(full[jj - 2] == ss - 1);
            lemma_backtrack_props(dd, ss - 1, jj - 1);
            assert(x =~= full.take(jj - 2)) by {
                assert forall|u: int| 0 <= u < jj - 2 implies x[u] == full.take(jj - 2)[u] by {
                    assert(x[u] == x.push(ss - 1)[u]);
                    assert(full.take(jj - 1)[u] == full[u]);
                }
            }
        }
        rev.push(s - 1);
        pos = s - 1;
        j2 -= 1;
    }
    let mut out: Vec<usize> = Vec::new();
    let mut t2: usize = 0;
    while t2 < k - 1
        invariant
            0 <= t2 <= k - 1,
            out@.len() == t2,
            forall|x: int| 0 <= x < t2 ==> #[trigger] out@[x] as int == full[x],
        decreases k - 1 - t2,
    {
        let v: usize = rev[k - 2 - t2];
        out.push(v);
        t2 += 1;
    }
    proof {
        assert(out@.map_values(|u: usize| u as int) =~= full);
    }
    out
}

/// Compute the Jenks natural breaks of `data` for `num_classes` classes.
///
/// On success the result holds the `num_classes - 1` zero-based start
/// offsets of classes 2, 3, ... in ascending order, for the contiguous
/// partition that minimizes the total within-class sum of squared deviations
/// from each class mean; among equally good partitions the recurrence keeps,
/// at every table cell, the split found first in its ascending candidate
/// scan (the leftmost one). Invalid requests are rejected before any table
/// work: a zero class count, more classes than observations, then unsorted
/// data, in that order.
pub fn compute_natural_breaks(data: &Vec<i64>, num_classes: usize) -> (r: Result<
    Vec<usize>,
    JenksError,
>)
    requires
        input_ok(data@),
    ensures
        num_classes == 0 ==> r == Result::<Vec<usize>, JenksError>::Err(JenksError::ZeroClasses),
        num_classes >= 1 && num_classes > data@.len() ==> r == Result::<
            Vec<usize>,
            JenksError,
        >::Err(JenksError::TooManyClasses),
        1 <= num_classes <= data@.len() && !sorted_adjacent(obs(data@)) ==> r == Result::<
            Vec<usize>,
            JenksError,
        >::Err(JenksError::UnsortedInput),
        1 <= num_classes <= data@.len() && sorted_adjacent(obs(data@)) ==> r is Ok,
        r is Ok ==> 1 <= num_classes <= data@.len() && sorted_adjacent(obs(data@)),
        r is Ok ==> r->Ok_0@.len() == num_classes - 1,
        r is Ok ==> r->Ok_0@.map_values(|u: usize| u as int) == breaks_spec(
            obs(data@),
            num_classes as int,
        ),
{
    let n: usize = data.len();
    if num_classes == 0 {
        return Err(JenksError::ZeroClasses);
    }
    if num_classes > n {
        return Err(JenksError::TooManyClasses);
    }
    let k: usize = num_classes;
    let ghost dd: Seq<int> = obs(data@);
    if !check_sorted(data) {
        return Err(JenksError::UnsortedInput);
    }
    let (csum, csq) = prefix_tables(data);
    let f: u64 = factorial_small(n);
    let (var, low) = fill_tables(&csum, &csq, f, n, k, Ghost(dd));
    let out: Vec<usize> = collect_breaks(&low, n, k, Ghost(dd));
    Ok(out)
}

} // verus!
