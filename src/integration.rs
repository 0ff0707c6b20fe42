//! The fixed-step integrator: a left fold of a single-step rule over a
//! sequence of target sample points.
use vstd::prelude::*;

verus! {

/// `states` is a trajectory that the single-step rule `stepper` may produce:
/// starting from `initial` at sample point `t0`, the state at each target is
/// what one step from the previous state and point gives.
pub open spec fn follows<S, F: Fn(S, i64, i64) -> S>(
    stepper: F,
    initial: S,
    t0: i64,
    targets: Seq<i64>,
    states: Seq<S>,
) -> bool {
    &&& states.len() == targets.len()
    &&& forall|i: int|
        0 <= i < states.len() ==> call_ensures(
            stepper,
            (
                if i == 0 {
                    initial
                } else {
                    states[i - 1]
                },
                if i == 0 {
                    t0
                } else {
                    targets[i - 1]
                },
                targets[i],
            ),
            #[trigger] states[i],
        )
}

/// The rule gives one result for each state and pair of sample points.
pub open spec fn is_functional<S, F: Fn(S, i64, i64) -> S>(stepper: F) -> bool {
    forall|s: S, a: i64, b: i64, x: S, y: S|
        call_ensures(stepper, (s, a, b), x) && call_ensures(stepper, (s, a, b), y) ==> x == y
}

/// The rule may be applied to any state and pair of sample points.
pub open spec fn is_total<S, F: Fn(S, i64, i64) -> S>(stepper: F) -> bool {
    forall|s: S, a: i64, b: i64| call_requires(stepper, (s, a, b))
}

/// With a rule that gives one result per input, the trajectory over given
/// targets is unique.
pub proof fn lemma_trajectory_unique<S, F: Fn(S, i64, i64) -> S>(
    stepper: F,
    initial: S,
    t0: i64,
    targets: Seq<i64>,
    first: Seq<S>,
    second: Seq<S>,
)
    requires
        is_functional(stepper),
        follows(stepper, initial, t0, targets, first),
        follows(stepper, initial, t0, targets, second),
    ensures
        first == second,
{
    assert forall|i: int| 0 <= i < first.len() implies first[i] == second[i] by {
        lemma_trajectory_prefix_equal(stepper, initial, t0, targets, first, second, i);
    }
    assert(first =~= second);
}

proof fn lemma_trajectory_prefix_equal<S, F: Fn(S, i64, i64) -> S>(
    stepper: F,
    initial: S,
    t0: i64,
    targets: Seq<i64>,
    first: Seq<S>,
    second: Seq<S>,
    i: int,
)
    requires
        is_functional(stepper),
        follows(stepper, initial, t0, targets, first),
        follows(stepper, initial, t0, targets, second),
        0 <= i < first.len(),
    ensures
        first[i] == second[i],
    decreases i,
{
    if i > 0 {
        lemma_trajectory_prefix_equal(stepper, initial, t0, targets, first, second, i - 1);
    }
    let s = if i == 0 {
        initial
    } else {
        first[i - 1]
    };
    let a = if i == 0 {
        t0
    } else {
        targets[i - 1]
    };
    assert(call_ensures(stepper, (s, a, targets[i]), first[i]));
    assert(call_ensures(stepper, (s, a, targets[i]), second[i]));
}

/// One more step extends a trajectory over the next target.
pub proof fn lemma_follows_push<S, F: Fn(S, i64, i64) -> S>(
    stepper: F,
    initial: S,
    t0: i64,
    targets: Seq<i64>,
    k: int,
    states: Seq<S>,
    next: S,
)
    requires
        0 <= k < targets.len(),
        follows(stepper, initial, t0, targets.take(k), states),
        call_ensures(
            stepper,
            (
                if k == 0 {
                    initial
                } else {
                    states[k - 1]
                },
                if k == 0 {
                    t0
                } else {
                    targets[k - 1]
                },
                targets[k],
            ),
            next,
        ),
    ensures
        follows(stepper, initial, t0, targets.take(k + 1), states.push(next)),
{
    let prev_ts = targets.take(k);
    let ts = targets.take(k + 1);
    let grown = states.push(next);
    assert forall|j: int| 0 <= j < grown.len() implies call_ensures(
        stepper,
        (
            if j == 0 {
                initial
            } else {
                grown[j - 1]
            },
            if j == 0 {
                t0
            } else {
                ts[j - 1]
            },
            ts[j],
        ),
        #[trigger] grown[j],
    ) by {
        if j < k {
            assert(states[j] == grown[j]);
            assert(prev_ts[j] == ts[j]);
            if j > 0 {
                assert(states[j - 1] == grown[j - 1]);
                assert(prev_ts[j - 1] == ts[j - 1]);
            }
        } else {
            if j > 0 {
                assert(states[j - 1] == grown[j - 1]);
                assert(ts[j - 1] == targets[j - 1]);
            }
        }
    }
}

/// Advances `initial`, taken at sample point `t0`, through each target point
/// in turn, and records each new state with its point: one record per
/// target, in order.
pub fn integrate<S: Copy, F: Fn(S, i64, i64) -> S>(
    initial: S,
    t0: i64,
    targets: &Vec<i64>,
    stepper: F,
) -> (r: Vec<(S, i64)>)
    requires
        is_total(stepper),
    ensures
        r.len() == targets.len(),
        forall|i: int| 0 <= i < r.len() ==> (#[trigger] r[i]).1 == targets[i],
        follows(stepper, initial, t0, targets@, r@.map_values(|p: (S, i64)| p.0)),
{
    let mut r: Vec<(S, i64)> = Vec::new();
    let mut state = initial;
    let mut at = t0;
    let mut i: usize = 0;
    while i < targets.len()
        invariant
            is_total(stepper),
            i <= targets.len(),
            r.len() == i,
            forall|k: int| 0 <= k < r.len() ==> (#[trigger] r[k]).1 == targets[k],
            follows(stepper, initial, t0, targets@.take(i as int), r@.map_values(|p: (S, i64)| p.0)),
            state == (if i == 0 {
                initial
            } else {
                r[i - 1].0
            }),
            at == (if i == 0 {
                t0
            } else {
                targets[i - 1]
            }),
        decreases targets.len() - i,
    {
        let next = targets[i];
        let s1 = stepper(state, at, next);
        let ghost prev_states = r@.map_values(|p: (S, i64)| p.0);
        let ghost prev_ts = targets@.take(i as int);
        r.push((s1, next));
        i = i + 1;
        proof {
            lemma_follows_push(stepper, initial, t0, targets@, (i - 1) as int, prev_states, s1);
            assert(r@.map_values(|p: (S, i64)| p.0) =~= prev_states.push(s1));
        }
        state = s1;
        at = next;
    }
    assert(targets@.take(i as int) =~= targets@);
    r
}

} // verus!
