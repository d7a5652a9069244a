//! General properties of the classification, stated and proved once for all
//! inputs: the single-class cost is the classic sum of squared deviations,
//! one class per observation costs nothing and puts every breakpoint at its
//! own observation, and allowing one more class never worsens the optimum.

use crate::model::{
    backtrack, best_cost, best_start, breaks_spec, class_cost, fact, psum, psumsq, range_sum,
    range_sumsq, scale_unit, scan, ssd_num,
};
use vstd::prelude::*;

verus! {

/// `Σ (q * d[t] - p)²` over `t` in `[a, b)`: the sum of squared deviations
/// of the range from the rational point `p / q`, scaled by `q²`.
pub open spec fn dev_sq_sum(d: Seq<int>, a: int, b: int, q: int, p: int) -> int
    decreases b - a,
{
    if b <= a {
        0
    } else {
        (q * d[a] - p) * (q * d[a] - p) + dev_sq_sum(d, a + 1, b, q, p)
    }
}

/// The deviation sum expanded over the prefix aggregates:
/// `Σ (q x - p)² == q² Σx² - 2pq Σx + w p²`.
pub proof fn lemma_dev_expand(d: Seq<int>, a: int, b: int, q: int, p: int)
    requires
        0 <= a <= b,
    ensures
        dev_sq_sum(d, a, b, q, p) == q * q * range_sumsq(d, a, b) - 2 * p * q * range_sum(d, a, b)
            + (b - a) * (p * p),
    decreases b - a,
{
    if a < b {
        lemma_dev_expand(d, a + 1, b, q, p);
        let x: int = d[a];
        let s1: int = range_sum(d, a + 1, b);
        let q1: int = range_sumsq(d, a + 1, b);
        let w1: int = b - a - 1;
        assert(psum(d, a + 1) == psum(d, a) + x);
        assert(psumsq(d, a + 1) == psumsq(d, a) + x * x);
        assert(range_sum(d, a, b) == s1 + x);
        assert(range_sumsq(d, a, b) == q1 + x * x);
        assert((q * x - p) * (q * x - p) == q * q * (x * x) - 2 * p * q * x + p * p)
            by (nonlinear_arith);
        assert(q * q * (q1 + x * x) == q * q * q1 + q * q * (x * x)) by (nonlinear_arith);
        assert(2 * p * q * (s1 + x) == 2 * p * q * s1 + 2 * p * q * x) by (nonlinear_arith);
        assert((w1 + 1) * (p * p) == w1 * (p * p) + p * p) by (nonlinear_arith);
        assert(dev_sq_sum(d, a, b, q, p) == (q * x - p) * (q * x - p) + dev_sq_sum(
            d,
            a + 1,
            b,
            q,
            p,
        ));
        assert(q * q * range_sumsq(d, a, b) == q * q * q1 + q * q * (x * x));
        assert(2 * p * q * range_sum(d, a, b) == 2 * p * q * s1 + 2 * p * q * x);
        assert((b - a) * (p * p) == w1 * (p * p) + p * p);
        assert(dev_sq_sum(d, a, b, q, p) == q * q * (x * x) - 2 * p * q * x + p * p + (q * q * q1
            - 2 * p * q * s1 + w1 * (p * p)));
    } else {
        assert(q * q * range_sumsq(d, a, b) == 0) by (nonlinear_arith)
            requires
                range_sumsq(d, a, b) == 0,
        ;
        assert(2 * p * q * range_sum(d, a, b) == 0) by (nonlinear_arith)
            requires
                range_sum(d, a, b) == 0,
        ;
        assert((b - a) * (p * p) == 0) by (nonlinear_arith)
            requires
                b == a,
        ;
    }
}

/// A sum of squares is nonnegative.
pub proof fn lemma_dev_nonneg(d: Seq<int>, a: int, b: int, q: int, p: int)
    ensures
        dev_sq_sum(d, a, b, q, p) >= 0,
    decreases b - a,
{
    if a < b {
        lemma_dev_nonneg(d, a + 1, b, q, p);
        let e: int = q * d[a] - p;
        assert(e * e >= 0) by (nonlinear_arith);
    }
}

/// The shortcut formula, held against the definition it abbreviates: the
/// width-scaled deviation sum of a range from its own mean is exactly
/// `w * ssd_num` (so `ssd_num / w` is the range's sum of squared deviations
/// from the mean), and `ssd_num` is never negative.
pub proof fn lemma_ssd_matches_deviations(d: Seq<int>, a: int, b: int)
    requires
        0 <= a < b,
    ensures
        dev_sq_sum(d, a, b, b - a, range_sum(d, a, b)) == (b - a) * ssd_num(d, a, b),
        ssd_num(d, a, b) >= 0,
{
    let w: int = b - a;
    let s: int = range_sum(d, a, b);
    let qq: int = range_sumsq(d, a, b);
    lemma_dev_expand(d, a, b, w, s);
    lemma_dev_nonneg(d, a, b, w, s);
    let dev: int = dev_sq_sum(d, a, b, w, s);
    assert(dev == w * ssd_num(d, a, b)) by (nonlinear_arith)
        requires
            dev == w * w * qq - 2 * s * w * s + w * (s * s),
            ssd_num(d, a, b) == w * qq - s * s,
    ;
    assert(ssd_num(d, a, b) >= 0) by (nonlinear_arith)
        requires
            w >= 1,
            dev >= 0,
            dev == w * ssd_num(d, a, b),
    ;
}

/// With a single class there is no breakpoint at all.
pub proof fn lemma_one_class_no_breaks(d: Seq<int>)
    ensures
        breaks_spec(d, 1) == Seq::<int>::empty(),
{
}

/// A class of one observation deviates not at all from its own mean.
pub proof fn lemma_singleton_cost(d: Seq<int>, a: int)
    requires
        0 <= a,
    ensures
        ssd_num(d, a, a + 1) == 0,
        class_cost(d, a, a + 1) == 0,
{
    let x: int = d[a];
    assert(psum(d, a + 1) == psum(d, a) + x);
    assert(psumsq(d, a + 1) == psumsq(d, a) + x * x);
    assert(range_sum(d, a, a + 1) == x);
    assert(range_sumsq(d, a, a + 1) == x * x);
    assert((a + 1 - a) * range_sumsq(d, a, a + 1) - range_sum(d, a, a + 1) * range_sum(d, a, a + 1)
        == 0) by (nonlinear_arith)
        requires
            range_sum(d, a, a + 1) == x,
            range_sumsq(d, a, a + 1) == x * x,
    ;
    assert(scale_unit(d, 1) * 0 == 0) by (nonlinear_arith);
}

/// Partitioning the first `i` observations into `i` singleton classes costs
/// nothing, and the final class starts at its own observation.
pub proof fn lemma_diag(d: Seq<int>, i: int)
    requires
        1 <= i,
    ensures
        best_cost(d, i, i) == 0,
        best_start(d, i, i) == i,
    decreases i,
{
    if i == 1 {
        lemma_singleton_cost(d, 0);
    } else {
        lemma_diag(d, i - 1);
        lemma_singleton_cost(d, i - 1);
        assert(scan(d, i, i, i - 1) == (best_cost(d, i - 1, i - 1) + class_cost(d, i - 1, i), i));
    }
}

pub proof fn lemma_backtrack_diag(d: Seq<int>, j: int)
    requires
        1 <= j,
    ensures
        backtrack(d, j, j) == Seq::new((j - 1) as nat, |t: int| t + 1),
    decreases j,
{
    if j == 1 {
        assert(backtrack(d, 1, 1) =~= Seq::new(0nat, |t: int| t + 1));
    } else {
        lemma_diag(d, j);
        lemma_backtrack_diag(d, j - 1);
        assert(backtrack(d, j, j) == backtrack(d, j - 1, j - 1).push(j - 1));
        assert(Seq::new((j - 2) as nat, |t: int| t + 1).push(j - 1) =~= Seq::new(
            (j - 1) as nat,
            |t: int| t + 1,
        ));
    }
}

/// With as many classes as observations, every observation is its own class:
/// the optimal total cost is zero and the breakpoints are exactly
/// `1, 2, ..., n - 1` (the zero-based starts of classes 2 to n).
pub proof fn lemma_all_singletons(d: Seq<int>)
    requires
        d.len() >= 1,
    ensures
        best_cost(d, d.len() as int, d.len() as int) == 0,
        breaks_spec(d, d.len() as int) == Seq::new((d.len() - 1) as nat, |t: int| t + 1),
{
    let n: int = d.len() as int;
    lemma_diag(d, n);
    lemma_backtrack_diag(d, n);
}

/// Every width `1 <= w <= n` divides `n!` exactly.
pub proof fn lemma_fact_divisible(w: int, n: int)
    requires
        1 <= w <= n,
    ensures
        (fact(n) / w) * w == fact(n),
    decreases n,
{
    if n == w {
        assert(fact(n) == n * fact(n - 1));
        vstd::arithmetic::div_mod::lemma_div_multiples_vanish(fact(n - 1), w);
        assert(w * fact(n - 1) == fact(n - 1) * w) by (nonlinear_arith);
    } else {
        lemma_fact_divisible(w, n - 1);
        let q: int = fact(n - 1) / w;
        assert(fact(n) == n * (q * w));
        assert(n * (q * w) == (n * q) * w) by (nonlinear_arith);
        vstd::arithmetic::div_mod::lemma_div_multiples_vanish(n * q, w);
        assert(w * (n * q) == (n * q) * w) by (nonlinear_arith);
    }
}

/// Dropping the front observation of a class never increases its sum of
/// squared deviations: in cross-multiplied form,
/// `w * ssd_num(a+1, b) <= (w - 1) * ssd_num(a, b)` with `w = b - a`.
pub proof fn lemma_ssd_shrink_front(d: Seq<int>, a: int, b: int)
    requires
        0 <= a < b,
    ensures
        (b - a) * ssd_num(d, a + 1, b) <= (b - a - 1) * ssd_num(d, a, b),
{
    let w: int = b - a;
    let w1: int = w - 1;
    let s: int = range_sum(d, a, b);
    if a + 1 == b {
        lemma_singleton_cost(d, a);
        assert(range_sum(d, b, b) == 0);
        assert(range_sumsq(d, b, b) == 0);
        assert(ssd_num(d, a + 1, b) == 0);
    } else {
        lemma_dev_expand(d, a + 1, b, w, s);
        lemma_ssd_matches_deviations(d, a, b);
        let s1: int = range_sum(d, a + 1, b);
        let q1: int = range_sumsq(d, a + 1, b);
        let dev_tail: int = dev_sq_sum(d, a + 1, b, w, s);
        let dev_all: int = dev_sq_sum(d, a, b, w, s);
        let e: int = w * d[a] - s;
        assert(dev_all == e * e + dev_tail);
        assert(e * e >= 0) by (nonlinear_arith);
        let va: int = w1 * s;
        let vb: int = w * s1;
        let sq: int = va - vb;
        assert(sq * sq == va * va - 2 * (va * vb) + vb * vb) by (nonlinear_arith)
            requires
                sq == va - vb,
        ;
        assert(va * va == w1 * (w1 * (s * s))) by (nonlinear_arith)
            requires
                va == w1 * s,
        ;
        assert(va * vb == w1 * (w * (s * s1))) by (nonlinear_arith)
            requires
                va == w1 * s,
                vb == w * s1,
        ;
        assert(vb * vb == w * (w * (s1 * s1))) by (nonlinear_arith)
            requires
                vb == w * s1,
        ;
        let m1: int = w * (w * q1);
        let m2: int = w * (s * s1);
        let m3: int = s * s;
        assert(w * w * q1 == m1) by (nonlinear_arith)
            requires
                m1 == w * (w * q1),
        ;
        assert(2 * s * w * s1 == 2 * m2) by (nonlinear_arith)
            requires
                m2 == w * (s * s1),
        ;
        assert(dev_tail == m1 - 2 * m2 + w1 * m3);
        assert(w1 * dev_tail == w1 * m1 - 2 * (w1 * m2) + w1 * (w1 * m3)) by (nonlinear_arith)
            requires
                dev_tail == m1 - 2 * m2 + w1 * m3,
        ;
        assert(w * w * ssd_num(d, a + 1, b) == w1 * (w * (w * q1)) - w * (w * (s1 * s1)))
            by (nonlinear_arith)
            requires
                ssd_num(d, a + 1, b) == w1 * q1 - s1 * s1,
        ;
        assert(sq * sq >= 0) by (nonlinear_arith);
        assert(w1 * dev_tail >= w * w * ssd_num(d, a + 1, b));
        assert(w * ssd_num(d, a + 1, b) <= w1 * ssd_num(d, a, b)) by (nonlinear_arith)
            requires
                w >= 2,
                w1 == w - 1,
                w1 * dev_tail >= w * w * ssd_num(d, a + 1, b),
                dev_tail <= w * ssd_num(d, a, b),
        ;
    }
}

/// Dropping the front observation of a class never increases its scaled
/// cost either.
pub proof fn lemma_cost_shrink_front(d: Seq<int>, a: int, b: int)
    requires
        0 <= a < b <= d.len(),
    ensures
        class_cost(d, a + 1, b) <= class_cost(d, a, b),
{
    let n: int = d.len() as int;
    let w: int = b - a;
    if a + 1 == b {
        lemma_singleton_cost(d, a);
        assert(range_sum(d, b, b) == 0);
        assert(range_sumsq(d, b, b) == 0);
        assert(ssd_num(d, a + 1, b) == 0);
        assert(scale_unit(d, 0) * 0 == 0) by (nonlinear_arith);
        assert(scale_unit(d, 1) * 0 == 0) by (nonlinear_arith);
    } else {
        lemma_ssd_shrink_front(d, a, b);
        lemma_fact_divisible(w, n);
        lemma_fact_divisible(w - 1, n);
        crate::model::lemma_fact_pos(n);
        let u: int = fact(n) / w;
        let ut: int = fact(n) / (w - 1);
        let s1: int = ssd_num(d, a + 1, b);
        let s2: int = ssd_num(d, a, b);
        assert(ut * s1 <= u * s2) by (nonlinear_arith)
            requires
                w >= 2,
                u * w == fact(n),
                ut * (w - 1) == fact(n),
                fact(n) >= 1,
                w * s1 <= (w - 1) * s2,
        ;
    }
}

/// The scan that fills a table cell returns the least candidate total, and
/// that total is attained by some candidate.
pub proof fn lemma_scan_min(d: Seq<int>, i: int, j: int, c: int)
    requires
        2 <= j,
        j - 1 <= c <= i - 1,
    ensures
        forall|c2: int|
            j - 1 <= c2 <= c ==> scan(d, i, j, c).0 <= best_cost(d, c2, j - 1) + #[trigger]
                class_cost(d, c2, i),
        exists|c2: int|
            j - 1 <= c2 <= c && scan(d, i, j, c).0 == best_cost(d, c2, j - 1) + #[trigger]
                class_cost(d, c2, i),
    decreases c,
{
    if c <= j - 1 {
        assert(scan(d, i, j, c).0 == best_cost(d, j - 1, j - 1) + class_cost(d, j - 1, i));
    } else {
        lemma_scan_min(d, i, j, c - 1);
        let prev: (int, int) = scan(d, i, j, c - 1);
        let cand: int = best_cost(d, c, j - 1) + class_cost(d, c, i);
        if cand < prev.0 {
            assert(scan(d, i, j, c).0 == best_cost(d, c, j - 1) + class_cost(d, c, i));
        } else {
            let cw: int = choose|c2: int|
                j - 1 <= c2 <= c - 1 && prev.0 == best_cost(d, c2, j - 1) + #[trigger] class_cost(
                    d,
                    c2,
                    i,
                );
            assert(scan(d, i, j, c).0 == best_cost(d, cw, j - 1) + class_cost(d, cw, i));
        }
    }
}

/// Raising the class count by one never increases the optimal total cost
/// (and so never increases the optimal total within-class variance, the
/// cost being that variance times the positive constant `n!`).
pub proof fn lemma_more_classes_no_worse(d: Seq<int>, i: int, j: int)
    requires
        1 <= j,
        j + 1 <= i <= d.len(),
    ensures
        best_cost(d, i, j + 1) <= best_cost(d, i, j),
    decreases j,
{
    lemma_scan_min(d, i, j + 1, i - 1);
    if j == 1 {
        lemma_diag(d, 1);
        lemma_cost_shrink_front(d, 0, i);
        assert(best_cost(d, i, 2) <= best_cost(d, 1, 1) + class_cost(d, 1, i));
    } else {
        lemma_scan_min(d, i, j, i - 1);
        let cw: int = choose|c2: int|
            j - 1 <= c2 <= i - 1 && scan(d, i, j, i - 1).0 == best_cost(d, c2, j - 1) + #[trigger]
                class_cost(d, c2, i);
        assert(best_cost(d, i, j) == best_cost(d, cw, j - 1) + class_cost(d, cw, i));
        if cw >= j {
            lemma_more_classes_no_worse(d, cw, j - 1);
            assert(best_cost(d, i, j + 1) <= best_cost(d, cw, j) + class_cost(d, cw, i));
        } else {
            lemma_diag(d, j - 1);
            lemma_diag(d, j);
            lemma_cost_shrink_front(d, j - 1, i);
            assert(best_cost(d, i, j + 1) <= best_cost(d, j, j) + class_cost(d, j, i));
        }
    }
}

} // verus!
