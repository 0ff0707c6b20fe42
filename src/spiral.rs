//! Curve assembly: integrate over the progression past its first point and
//! keep every `every`-th record, without holding the records in between.
use vstd::prelude::*;
use crate::arith::{ceil_div, lemma_below_ceil_div, lemma_ceil_div_step};
use crate::integration::{follows, is_functional, is_total, lemma_follows_push, lemma_trajectory_unique};
use crate::progression::{lemma_index_in_range, sample_at, sample_count};

verus! {

/// How many targets follow the first point of the progression.
pub open spec fn target_count(from: int, to: int, step: int) -> nat {
    let n = sample_count(from, to, step);
    if n > 0 {
        (n - 1) as nat
    } else {
        0
    }
}

/// The progression over `[from, to)` with its first point left out: the
/// points the state is advanced to.
pub open spec fn targets(from: i64, to: i64, step: u64) -> Seq<i64> {
    Seq::new(
        target_count(from as int, to as int, step as int),
        |k: int| sample_at(from as int, step as int, k + 1) as i64,
    )
}

/// How many records remain when every `every`-th of `n` records is kept,
/// starting with the first.
pub open spec fn kept_count(n: int, every: int) -> nat {
    ceil_div(n, every) as nat
}

/// Records `0, every, 2 * every, ...` of a trajectory over `targets(from, to,
/// step)`, each paired with its sample point.
pub open spec fn decimated<S>(traj: Seq<S>, from: i64, step: u64, every: u64) -> Seq<(i64, S)> {
    Seq::new(
        kept_count(traj.len() as int, every as int),
        |j: int|
            (
                sample_at(from as int, step as int, 1 + j * every) as i64,
                traj[j * every],
            ),
    )
}

/// `out` is what the curve assembly gives for these arguments: the
/// decimation of some trajectory that the rule may produce from `initial`
/// at `from` over the targets.
pub open spec fn spiral_output<S, F: Fn(S, i64, i64) -> S>(
    stepper: F,
    initial: S,
    from: i64,
    to: i64,
    step: u64,
    every: u64,
    out: Seq<(i64, S)>,
) -> bool {
    exists|traj: Seq<S>|
        #[trigger] follows(stepper, initial, from, targets(from, to, step), traj) && out
            == decimated(traj, from, step, every)
}

/// With a rule that gives one result per input, two runs of the curve
/// assembly on the same arguments give the same records.
pub proof fn lemma_spiral_deterministic<S, F: Fn(S, i64, i64) -> S>(
    stepper: F,
    initial: S,
    from: i64,
    to: i64,
    step: u64,
    every: u64,
    first: Seq<(i64, S)>,
    second: Seq<(i64, S)>,
)
    requires
        is_functional(stepper),
        spiral_output(stepper, initial, from, to, step, every, first),
        spiral_output(stepper, initial, from, to, step, every, second),
    ensures
        first == second,
{
    let ts = targets(from, to, step);
    let t1 = choose|traj: Seq<S>|
        #[trigger] follows(stepper, initial, from, ts, traj) && first == decimated(
            traj,
            from,
            step,
            every,
        );
    let t2 = choose|traj: Seq<S>|
        #[trigger] follows(stepper, initial, from, ts, traj) && second == decimated(
            traj,
            from,
            step,
            every,
        );
    lemma_trajectory_unique(stepper, initial, from, ts, t1, t2);
}

/// Over a span of `to - from` ticks, the number of records kept differs by
/// at most one from the span divided by `step * every`, rounded down.
pub proof fn lemma_decimation_count(from: int, to: int, step: int, every: int)
    requires
        from < to,
        step > 0,
        every > 0,
    ensures
        (to - from) / (step * every) - 1 <= kept_count(target_count(from, to, step) as int, every)
            <= (to - from) / (step * every) + 1,
{
    let m = to - from;
    let d = step;
    let e = every;
    let n = ceil_div(m, d);
    lemma_below_ceil_div(m, d, n);
    lemma_below_ceil_div(m, d, 0);
    lemma_below_ceil_div(m, d, n - 1);
    assert(n >= 1);
    assert(sample_count(from, to, step) == n);
    let t = n - 1;
    assert(target_count(from, to, step) == t);
    let out = ceil_div(t, e);
    lemma_below_ceil_div(t, e, out);
    if out > 0 {
        lemma_below_ceil_div(t, e, out - 1);
    }
    let de = d * e;
    assert(de >= d && de > 0) by (nonlinear_arith)
        requires
            d > 0,
            e > 0,
            de == d * e,
    ;
    let f = m / de;
    vstd::arithmetic::div_mod::lemma_fundamental_div_mod(m, de);
    assert(f * de <= m < (f + 1) * de) by (nonlinear_arith)
        requires
            m == de * f + m % de,
            0 <= m % de < de,
    ;
    if out >= f + 2 {
        assert(t * d >= ((f + 1) * e + 1) * d) by (nonlinear_arith)
            requires
                (out - 1) * e < t,
                out >= f + 2,
                e > 0,
                d > 0,
        ;
        assert(((f + 1) * e + 1) * d > (f + 1) * de) by (nonlinear_arith)
            requires
                de == d * e,
                d > 0,
        ;
        assert(false);
    }
    if out <= f - 2 {
        assert(n * d <= ((f - 2) * e + 1) * d) by (nonlinear_arith)
            requires
                t <= out * e,
                out <= f - 2,
                n == t + 1,
                e > 0,
                d > 0,
        ;
        assert(((f - 2) * e + 1) * d < f * de) by (nonlinear_arith)
            requires
                de == d * e,
                d > 0,
                e > 0,
        ;
        assert(false);
    }
}

/// Integrates from `initial` at `from` with the rule `stepper` over the
/// points `from + step, from + 2 * step, ...` below `to`, and returns the
/// first record and every `every`-th after it as (sample point, state).
/// Inverted or empty bounds give no records.
pub fn spiral<S: Copy, F: Fn(S, i64, i64) -> S>(
    initial: S,
    from: i64,
    to: i64,
    step: u64,
    every: u64,
    stepper: F,
) -> (r: Vec<(i64, S)>)
    requires
        step > 0,
        every > 0,
        is_total(stepper),
    ensures
        spiral_output(stepper, initial, from, to, step, every, r@),
        r.len() == kept_count(target_count(from as int, to as int, step as int) as int, every as int),
        forall|j: int|
            0 <= j < r.len() ==> (#[trigger] r[j]).0 == sample_at(
                from as int,
                step as int,
                1 + j * every,
            ),
        forall|i: int, j: int| 0 <= i < j < r.len() ==> (#[trigger] r[i]).0 < (#[trigger] r[j]).0,
        from >= to ==> r.len() == 0,
{
    let ghost f = from as int;
    let ghost d = step as int;
    let ghost e = every as int;
    let ghost ts = targets(from, to, step);
    let ghost mut traj: Seq<S> = Seq::empty();
    let mut out: Vec<(i64, S)> = Vec::new();
    let mut state = initial;
    let mut at: i64 = from;
    let mut k: u64 = 0;
    let mut next: i128 = from as i128 + step as i128;
    assert(sample_at(f, d, 1) == f + d);
    assert(ts.take(0) =~= Seq::<i64>::empty());
    proof {
        lemma_below_ceil_div(0, e, 0);
    }
    assert(out@ =~= decimated(traj, from, step, every));
    while next < to as i128
        invariant
            step > 0,
            every > 0,
            is_total(stepper),
            f == from,
            d == step,
            e == every,
            ts == targets(from, to, step),
            traj.len() == k,
            k <= ts.len(),
            k == 0 || sample_at(f, d, k as int) < to,
            next == sample_at(f, d, k + 1),
            follows(stepper, initial, from, ts.take(k as int), traj),
            state == (if k == 0 {
                initial
            } else {
                traj[k - 1]
            }),
            at == (if k == 0 {
                from
            } else {
                ts[k - 1]
            }),
            out@ == decimated(traj, from, step, every),
        decreases (to as int) + (step as int) - (next as int),
    {
        proof {
            lemma_index_in_range(f, to as int, d, k + 1);
            assert((k + 1) * d >= k + 1) by (nonlinear_arith)
                requires
                    d >= 1,
                    k >= 0,
            ;
        }
        let t1 = next as i64;
        assert(ts[k as int] == t1);
        let s1 = stepper(state, at, t1);
        proof {
            lemma_follows_push(stepper, initial, from, ts, k as int, traj, s1);
            lemma_ceil_div_step(k as int, e);
        }
        let ghost old_traj = traj;
        let ghost old_out = out@;
        if k % every == 0 {
            out.push((t1, s1));
        }
        proof {
            traj = traj.push(s1);
            let want = decimated(traj, from, step, every);
            assert forall|j: int| 0 <= j < old_out.len() implies want[j] == old_out[j] by {
                lemma_below_ceil_div(k as int, e, j);
                assert(old_traj[j * e] == traj[j * e]);
            }
            if k % every == 0 {
                assert(want[old_out.len() as int] == out@[old_out.len() as int]);
            }
            assert(out@ =~= want);
            assert(sample_at(f, d, k + 2) == sample_at(f, d, k + 1) + d) by (nonlinear_arith)
                requires
                    sample_at(f, d, k + 2) == f + (k + 2) * d,
                    sample_at(f, d, k + 1) == f + (k + 1) * d,
            ;
        }
        k = k + 1;
        state = s1;
        at = t1;
        next = next + step as i128;
    }
    proof {
        lemma_index_in_range(f, to as int, d, k + 1);
        if k > 0 {
            lemma_index_in_range(f, to as int, d, k as int);
        } else {
            lemma_index_in_range(f, to as int, d, 0);
        }
        assert(ts.take(k as int) =~= ts);
        assert forall|j: int| 0 <= j < out.len() implies (#[trigger] out[j]).0 == sample_at(
            f,
            d,
            1 + j * e,
        ) by {
            lemma_below_ceil_div(k as int, e, j);
            lemma_index_in_range(f, to as int, d, 1 + j * e);
            assert((1 + j * e) * d >= 0) by (nonlinear_arith)
                requires
                    j >= 0,
                    e > 0,
                    d > 0,
            ;
        }
        assert forall|i: int, j: int| 0 <= i < j < out.len() implies (#[trigger] out[i]).0 < (
        #[trigger] out[j]).0 by {
            lemma_below_ceil_div(k as int, e, j);
            assert(i * e < j * e) by (nonlinear_arith)
                requires
                    i < j,
                    e > 0,
            ;
            assert((1 + i * e) * d < (1 + j * e) * d) by (nonlinear_arith)
                requires
                    i * e < j * e,
                    d > 0,
            ;
            assert(sample_at(f, d, 1 + j * e) < to) by {
                lemma_index_in_range(f, to as int, d, 1 + j * e);
            }
            assert(sample_at(f, d, 1 + i * e) >= from) by {
                assert((1 + i * e) * d >= 0) by (nonlinear_arith)
                    requires
                        i >= 0,
                        e > 0,
                        d > 0,
                ;
            }
        }
    }
    out
}

} // verus!
