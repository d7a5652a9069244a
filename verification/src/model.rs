//! The mathematical model of the computation: prefix sums, the scaled
//! within-class cost, the dynamic-programming recurrence with its leftmost
//! tie-break, and the backtracking pass that reads the breakpoints off the
//! recurrence.

use vstd::prelude::*;

verus! {

/// The integer model of an observation sequence.
pub open spec fn obs(d: Seq<i64>) -> Seq<int> {
    d.map_values(|v: i64| v as int)
}

/// Admissible model: few enough observations, each small enough, that every
/// quantity of the scaled dynamic program fits the machine words used by the
/// implementation.
pub open spec fn magnitude_ok(d: Seq<int>) -> bool {
    &&& d.len() <= 20
    &&& forall|t: int| 0 <= t < d.len() ==> -1000000 <= #[trigger] d[t] <= 1000000
}

/// Admissible input.
pub open spec fn input_ok(d: Seq<i64>) -> bool {
    magnitude_ok(obs(d))
}

/// No adjacent pair is out of order.
pub open spec fn sorted_adjacent(d: Seq<int>) -> bool {
    forall|t: int| 0 <= t && t + 1 < d.len() ==> #[trigger] d[t] <= d[t + 1]
}

/// Sum of the first `i` observations.
pub open spec fn psum(d: Seq<int>, i: int) -> int
    decreases i,
{
    if i <= 0 {
        0
    } else {
        psum(d, i - 1) + d[i - 1]
    }
}

/// Sum of the squares of the first `i` observations.
pub open spec fn psumsq(d: Seq<int>, i: int) -> int
    decreases i,
{
    if i <= 0 {
        0
    } else {
        psumsq(d, i - 1) + d[i - 1] * d[i - 1]
    }
}

/// Sum of the observations with index in `[a, b)`.
pub open spec fn range_sum(d: Seq<int>, a: int, b: int) -> int {
    psum(d, b) - psum(d, a)
}

/// Sum of the squared observations with index in `[a, b)`.
pub open spec fn range_sumsq(d: Seq<int>, a: int, b: int) -> int {
    psumsq(d, b) - psumsq(d, a)
}

/// The width-scaled sum of squared deviations of `d[a..b]` from its mean:
/// with `w = b - a`, `S = range_sum` and `Q = range_sumsq`, this is
/// `w * Q - S * S`, which equals `w * w` times the variance of the range,
/// i.e. `w` times its sum of squared deviations.
pub open spec fn ssd_num(d: Seq<int>, a: int, b: int) -> int {
    (b - a) * range_sumsq(d, a, b) - range_sum(d, a, b) * range_sum(d, a, b)
}

/// `n` factorial (and `1` at or below zero).
pub open spec fn fact(n: int) -> int
    decreases n,
{
    if n <= 0 {
        1
    } else {
        n * fact(n - 1)
    }
}

/// `n! / w`: the factor that turns `ssd_num / w` (the sum of squared
/// deviations of a class of width `w`) into an integer, since every width
/// `1 <= w <= n` divides `n!`.
pub open spec fn scale_unit(d: Seq<int>, w: int) -> int {
    fact(d.len() as int) / w
}

/// The exact cost of making `d[a..b]` a single class: `n!` times the sum of
/// squared deviations of the range from its own mean. The common factor `n!`
/// is positive and fixed for a given input, so comparing these integers
/// compares the underlying rational costs exactly.
pub open spec fn class_cost(d: Seq<int>, a: int, b: int) -> int {
    scale_unit(d, b - a) * ssd_num(d, a, b)
}

/// The running state of the candidate scan that fills one cell `(i, j)` of
/// the dynamic program: after considering every candidate split `c'` in
/// `[j - 1, c]`, the pair holds the least candidate total and the 1-based
/// start offset `c' + 1` recorded for the first candidate that reached it
/// (a later candidate replaces the recorded one only on a strictly smaller
/// total, so ties resolve to the leftmost split).
pub open spec fn scan(d: Seq<int>, i: int, j: int, c: int) -> (int, int)
    decreases j, c,
{
    if j < 2 {
        (0, j)
    } else if c <= j - 1 {
        (best_cost(d, j - 1, j - 1) + class_cost(d, j - 1, i), j)
    } else {
        let prev = scan(d, i, j, c - 1);
        let cand: int = best_cost(d, c, j - 1) + class_cost(d, c, i);
        if cand < prev.0 {
            (cand, c + 1)
        } else {
            prev
        }
    }
}

/// The least total cost of partitioning the first `i` observations into
/// exactly `j` classes (for `1 <= j <= i`).
pub open spec fn best_cost(d: Seq<int>, i: int, j: int) -> int
    decreases j, i + 1,
{
    if j <= 1 {
        class_cost(d, 0, i)
    } else if i <= j - 1 {
        0
    } else {
        scan(d, i, j, i - 1).0
    }
}

/// The 1-based start offset of the final class in the optimal partition of
/// the first `i` observations into `j` classes, under the leftmost tie-break.
pub open spec fn best_start(d: Seq<int>, i: int, j: int) -> int {
    if j <= 1 {
        1
    } else if i <= j - 1 {
        j
    } else {
        scan(d, i, j, i - 1).1
    }
}

/// The breakpoints recovered by walking the recurrence backward from `pos`
/// observations and `j` classes: the breakpoint stored at output slot
/// `j - 2` is the zero-based start of class `j`, and the walk continues on
/// the prefix in front of it.
pub open spec fn backtrack(d: Seq<int>, pos: int, j: int) -> Seq<int>
    decreases j,
{
    if j <= 1 {
        Seq::empty()
    } else {
        let s: int = best_start(d, pos, j);
        backtrack(d, s - 1, j - 1).push(s - 1)
    }
}

/// The breakpoint sequence for the whole input and `k` classes.
pub open spec fn breaks_spec(d: Seq<int>, k: int) -> Seq<int> {
    backtrack(d, d.len() as int, k)
}

/// Prefix sums of an admissible model stay far below the word size.
pub proof fn lemma_prefix_bounds(d: Seq<int>, i: int)
    requires
        magnitude_ok(d),
        0 <= i <= d.len(),
    ensures
        -1000000 * i <= psum(d, i) <= 1000000 * i,
        0 <= psumsq(d, i) <= 1000000000000 * i,
    decreases i,
{
    if i > 0 {
        lemma_prefix_bounds(d, i - 1);
        let v: int = d[i - 1];
        assert(0 <= v * v <= 1000000000000) by (nonlinear_arith)
            requires
                -1000000 <= v <= 1000000,
        ;
    }
}

pub proof fn lemma_fact_mono(m: int, n: int)
    requires
        0 <= m <= n,
    ensures
        1 <= fact(m) <= fact(n),
    decreases n,
{
    if n == m {
        lemma_fact_pos(m);
    } else {
        lemma_fact_mono(m, n - 1);
        assert(fact(n - 1) <= n * fact(n - 1)) by (nonlinear_arith)
            requires
                n >= 1,
                fact(n - 1) >= 1,
        ;
    }
}

pub proof fn lemma_fact_pos(n: int)
    ensures
        fact(n) >= 1,
    decreases n,
{
    if n > 0 {
        lemma_fact_pos(n - 1);
        assert(n * fact(n - 1) >= fact(n - 1)) by (nonlinear_arith)
            requires
                n >= 1,
                fact(n - 1) >= 1,
        ;
    }
}

/// Factorials of admissible lengths fit comfortably in a 64-bit word.
pub proof fn lemma_fact_small(n: int)
    requires
        0 <= n <= 20,
    ensures
        1 <= fact(n) <= 2432902008176640000,
{
    lemma_fact_mono(n, 20);
    assert(fact(0) == 1);
    assert(fact(1) == 1);
    assert(fact(2) == 2);
    assert(fact(3) == 6);
    assert(fact(4) == 24);
    assert(fact(5) == 120);
    assert(fact(6) == 720);
    assert(fact(7) == 5040);
    assert(fact(8) == 40320);
    assert(fact(9) == 362880);
    assert(fact(10) == 3628800);
    assert(fact(11) == 39916800);
    assert(fact(12) == 479001600);
    assert(fact(13) == 6227020800);
    assert(fact(14) == 87178291200);
    assert(fact(15) == 1307674368000);
    assert(fact(16) == 20922789888000);
    assert(fact(17) == 355687428096000);
    assert(fact(18) == 6402373705728000);
    assert(fact(19) == 121645100408832000);
    assert(fact(20) == 2432902008176640000);
}

/// The scale factor `n! / w` of an admissible model is a nonnegative number
/// no larger than `n!` itself.
pub proof fn lemma_unit_bounds(d: Seq<int>, w: int)
    requires
        magnitude_ok(d),
        1 <= w <= 20,
    ensures
        0 <= scale_unit(d, w) <= 2432902008176640000,
{
    let n: int = d.len() as int;
    let f: int = fact(n);
    lemma_fact_small(n);
    vstd::arithmetic::div_mod::lemma_fundamental_div_mod(f, w);
    vstd::arithmetic::div_mod::lemma_mod_bound(f, w);
    let u: int = f / w;
    let r: int = f % w;
    assert(0 <= u && u <= f) by (nonlinear_arith)
        requires
            f == w * u + r,
            0 <= r < w,
            1 <= w,
            1 <= f,
    ;
}

/// Any single class of an admissible model costs at most `20! * 2e15` in
/// magnitude.
pub proof fn lemma_cost_bound(d: Seq<int>, a: int, b: int)
    requires
        magnitude_ok(d),
        0 <= a < b <= d.len(),
    ensures
        -4865804016353280000000000000000000 <= class_cost(d, a, b)
            <= 4865804016353280000000000000000000,
{
    lemma_prefix_bounds(d, a);
    lemma_prefix_bounds(d, b);
    lemma_unit_bounds(d, b - a);
    let w: int = b - a;
    let s: int = range_sum(d, a, b);
    let q: int = range_sumsq(d, a, b);
    let u: int = scale_unit(d, w);
    assert(0 <= s * s <= 1600000000000000) by (nonlinear_arith)
        requires
            -40000000 <= s <= 40000000,
    ;
    assert(-400000000000000 <= w * q <= 400000000000000) by (nonlinear_arith)
        requires
            1 <= w <= 20,
            -20000000000000 <= q <= 20000000000000,
    ;
    assert(-4865804016353280000000000000000000 <= u * (w * q - s * s)
        <= 4865804016353280000000000000000000) by (nonlinear_arith)
        requires
            0 <= u <= 2432902008176640000,
            -2000000000000000 <= w * q - s * s <= 2000000000000000,
    ;
}

/// Every cell of the dynamic program is a sum of at most `j` class costs, so
/// it is bounded by `j` times the single-class cap.
pub proof fn lemma_best_bound(d: Seq<int>, i: int, j: int)
    requires
        magnitude_ok(d),
        1 <= j <= i <= d.len(),
    ensures
        -4865804016353280000000000000000000 * j <= best_cost(d, i, j)
            <= 4865804016353280000000000000000000 * j,
    decreases j, i + 1,
{
    if j == 1 {
        lemma_cost_bound(d, 0, i);
    } else {
        lemma_scan_bound(d, i, j, i - 1);
    }
}

/// The scan state is bounded like the cell it is about to fill, and the
/// recorded start offset stays inside the candidate range.
pub proof fn lemma_scan_bound(d: Seq<int>, i: int, j: int, c: int)
    requires
        magnitude_ok(d),
        2 <= j <= i <= d.len(),
        j - 1 <= c <= i - 1,
    ensures
        -4865804016353280000000000000000000 * j <= scan(d, i, j, c).0
            <= 4865804016353280000000000000000000 * j,
        j <= scan(d, i, j, c).1 <= c + 1,
    decreases j, c,
{
    if c <= j - 1 {
        lemma_best_bound(d, j - 1, j - 1);
        lemma_cost_bound(d, j - 1, i);
    } else {
        lemma_scan_bound(d, i, j, c - 1);
        lemma_best_bound(d, c, j - 1);
        lemma_cost_bound(d, c, i);
    }
}

/// The recorded start of the final class always lies between `j` (the class
/// needs room for `j - 1` predecessors) and `i` (it starts no later than the
/// last observation).
pub proof fn lemma_start_range(d: Seq<int>, i: int, j: int)
    requires
        1 <= j <= i,
    ensures
        j <= best_start(d, i, j) <= i,
{
    if j >= 2 {
        lemma_scan_pick_range(d, i, j, i - 1);
    }
}

pub proof fn lemma_scan_pick_range(d: Seq<int>, i: int, j: int, c: int)
    requires
        2 <= j,
        j - 1 <= c,
    ensures
        j <= scan(d, i, j, c).1 <= c + 1,
    decreases c,
{
    if c > j - 1 {
        lemma_scan_pick_range(d, i, j, c - 1);
    }
}

/// The backtracking walk yields `j - 1` strictly increasing zero-based
/// breakpoints, each at least 1 and all in front of `pos`.
pub proof fn lemma_backtrack_props(d: Seq<int>, pos: int, j: int)
    requires
        1 <= j <= pos,
    ensures
        backtrack(d, pos, j).len() == j - 1,
        forall|t: int|
            0 <= t < j - 1 ==> t + 1 <= #[trigger] backtrack(d, pos, j)[t] <= pos - (j - 1) + t,
        forall|t: int|
            0 <= t && t + 1 < j - 1 ==> #[trigger] backtrack(d, pos, j)[t] < backtrack(
                d,
                pos,
                j,
            )[t + 1],
    decreases j,
{
    if j >= 2 {
        let s: int = best_start(d, pos, j);
        lemma_start_range(d, pos, j);
        lemma_backtrack_props(d, s - 1, j - 1);
    }
}

} // verus!
