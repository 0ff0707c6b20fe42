//! The evenly spaced, half-open progression of sample points.
use vstd::prelude::*;
use crate::arith::{ceil_div, lemma_below_ceil_div};

verus! {

/// How many points `from, from + step, ...` lie strictly below `to`.
pub open spec fn sample_count(from: int, to: int, step: int) -> nat {
    if from < to && step > 0 {
        ceil_div(to - from, step) as nat
    } else {
        0
    }
}

/// The `i`-th point of the progression that starts at `from`.
pub open spec fn sample_at(from: int, step: int, i: int) -> int {
    from + i * step
}

/// The whole progression over `[from, to)` with the given step.
pub open spec fn samples(from: int, to: int, step: int) -> Seq<int> {
    Seq::new(sample_count(from, to, step), |i: int| sample_at(from, step, i))
}

/// An index is inside the progression exactly when its point lies below `to`.
pub proof fn lemma_index_in_range(from: int, to: int, step: int, i: int)
    requires
        step > 0,
        i >= 0,
    ensures
        i < sample_count(from, to, step) <==> sample_at(from, step, i) < to,
{
    if from < to {
        lemma_below_ceil_div(to - from, step, i);
    } else {
        assert(i * step >= 0) by (nonlinear_arith)
            requires
                i >= 0,
                step > 0,
        ;
    }
}

/// Every point of the progression lies in `[from, to)`, and the points
/// strictly increase.
pub proof fn lemma_samples_bounded_increasing(from: int, to: int, step: int)
    requires
        step > 0,
    ensures
        forall|i: int|
            0 <= i < sample_count(from, to, step) ==> from <= #[trigger] samples(from, to, step)[i]
                < to,
        forall|i: int, j: int|
            0 <= i < j < sample_count(from, to, step) ==> #[trigger] samples(from, to, step)[i]
                < #[trigger] samples(from, to, step)[j],
{
    assert forall|i: int| 0 <= i < sample_count(from, to, step) implies from <= #[trigger] samples(
        from,
        to,
        step,
    )[i] < to by {
        lemma_index_in_range(from, to, step, i);
        assert(i * step >= 0) by (nonlinear_arith)
            requires
                i >= 0,
                step > 0,
        ;
    }
    assert forall|i: int, j: int| 0 <= i < j < sample_count(from, to, step) implies #[trigger] samples(
        from,
        to,
        step,
    )[i] < #[trigger] samples(from, to, step)[j] by {
        assert(i * step < j * step) by (nonlinear_arith)
            requires
                i < j,
                step > 0,
        ;
    }
}

/// Iterating the progression twice with the same bounds and step gives
/// the same points, in the same order, both times.
pub proof fn lemma_resampling_identical(
    from: i64,
    to: i64,
    step: u64,
    first: Seq<i64>,
    second: Seq<i64>,
)
    requires
        step > 0,
        first.map_values(|p: i64| p as int) == samples(from as int, to as int, step as int),
        second.map_values(|p: i64| p as int) == samples(from as int, to as int, step as int),
    ensures
        first == second,
{
    assert(first.len() == second.len()) by {
        assert(first.map_values(|p: i64| p as int).len() == second.map_values(|p: i64| p as int).len());
    }
    assert forall|i: int| 0 <= i < first.len() implies first[i] == second[i] by {
        assert(first.map_values(|p: i64| p as int)[i] == second.map_values(|p: i64| p as int)[i]);
    }
    assert(first =~= second);
}

/// The progression `from, from + step, ...` stopping strictly before `to`.
/// Inverted or empty bounds give no points.
pub fn arithmetic_bounded(from: i64, to: i64, step: u64) -> (r: Vec<i64>)
    requires
        step > 0,
    ensures
        r@.map_values(|p: i64| p as int) == samples(from as int, to as int, step as int),
{
    let mut r: Vec<i64> = Vec::new();
    let mut cur: i128 = from as i128;
    let ghost f = from as int;
    let ghost d = step as int;
    assert(sample_at(f, d, 0) == f);
    while cur < to as i128
        invariant
            step > 0,
            d == step,
            f == from,
            cur == sample_at(f, d, r.len() as int),
            from <= cur,
            cur < to + step || r.len() == 0,
            forall|k: int| 0 <= k < r.len() ==> r@[k] == sample_at(f, d, k),
            r.len() > 0 ==> sample_at(f, d, r.len() - 1) < to,
        decreases (to as int) + (step as int) - (cur as int),
    {
        let ghost n = r.len() as int;
        r.push(cur as i64);
        assert(f + (n + 1) * d == f + n * d + d) by (nonlinear_arith);
        cur = cur + step as i128;
    }
    proof {
        let n = r.len() as int;
        lemma_index_in_range(f, to as int, d, n);
        if n > 0 {
            lemma_index_in_range(f, to as int, d, n - 1);
        }
        assert(n == sample_count(f, to as int, d));
        assert(r@.map_values(|p: i64| p as int) =~= samples(f, to as int, d));
    }
    r
}

} // verus!
