//! The proportional-share guarantee of stride scheduling.
//!
//! [`run_counts`] models a long run of two tasks that are always Ready and
//! always chosen by least stride (ties to the first task), exactly the
//! selection rule [`crate::manager::TaskManager::fetch`] guarantees through
//! `is_first_min`, with each dispatch charging `BIG_STRIDE / priority` as
//! `bump_stride` does before saturation. [`lemma_stride_fairness`] proves
//! the fairness law: at every step the two tasks' accumulated strides stay
//! within one pass of each other, so the dispatch counts satisfy
//! `count_a * pass_a ~= count_b * pass_b` up to a single pass. Since
//! `pass = BIG_STRIDE / priority`, the ratio of dispatch counts approaches
//! `priority_a / priority_b`: a task with twice the priority is dispatched
//! twice as often.

use vstd::prelude::*;

verus! {

/// Dispatch counts `(count_a, count_b)` after `n` dispatches of two
/// always-Ready tasks whose passes are `pass_a` and `pass_b`: each step
/// runs the task with the smaller accumulated stride
/// (`count * pass`), the first task winning ties.
pub open spec fn run_counts(pass_a: int, pass_b: int, n: nat) -> (int, int)
    decreases n,
{
    if n == 0 {
        (0, 0)
    } else {
        let prev = run_counts(pass_a, pass_b, (n - 1) as nat);
        let a = prev.0;
        let b = prev.1;
        if a * pass_a <= b * pass_b {
            (a + 1, b)
        } else {
            (a, b + 1)
        }
    }
}

/// Stride fairness: over any run of two always-Ready tasks, the
/// accumulated strides `count_a * pass_a` and `count_b * pass_b` never
/// drift apart by more than one pass. Consequently
/// `count_a / count_b -> pass_b / pass_a = priority_a / priority_b` as the
/// run grows: dispatch counts are proportional to priorities.
pub proof fn lemma_stride_fairness(pass_a: int, pass_b: int, n: nat)
    requires
        0 < pass_a,
        0 < pass_b,
    ensures
        ({
            let counts = run_counts(pass_a, pass_b, n);
            &&& counts.0 + counts.1 == n
            &&& 0 <= counts.0
            &&& 0 <= counts.1
            &&& counts.0 * pass_a - counts.1 * pass_b <= pass_a
            &&& counts.1 * pass_b - counts.0 * pass_a <= pass_b
        }),
    decreases n,
{
    if n > 0 {
        lemma_stride_fairness(pass_a, pass_b, (n - 1) as nat);
        let prev = run_counts(pass_a, pass_b, (n - 1) as nat);
        let a = prev.0;
        let b = prev.1;
        assert((a + 1) * pass_a == a * pass_a + pass_a) by (nonlinear_arith);
        assert((b + 1) * pass_b == b * pass_b + pass_b) by (nonlinear_arith);
    }
}

/// The fairness law stated over priorities: with passes
/// `BIG_STRIDE / priority`, a task's share of dispatches is proportional
/// to its priority, up to a single pass of drift.
pub proof fn lemma_priority_share(prio_a: int, prio_b: int, n: nat)
    requires
        2 <= prio_a <= crate::BIG_STRIDE,
        2 <= prio_b <= crate::BIG_STRIDE,
    ensures
        ({
            let pass_a = crate::BIG_STRIDE as int / prio_a;
            let pass_b = crate::BIG_STRIDE as int / prio_b;
            let counts = run_counts(pass_a, pass_b, n);
            &&& counts.0 + counts.1 == n
            &&& counts.0 * pass_a - counts.1 * pass_b <= pass_a
            &&& counts.1 * pass_b - counts.0 * pass_a <= pass_b
        }),
{
    let pass_a = crate::BIG_STRIDE as int / prio_a;
    let pass_b = crate::BIG_STRIDE as int / prio_b;
    assert(0 < pass_a && 0 < pass_b) by (nonlinear_arith)
        requires
            2 <= prio_a <= crate::BIG_STRIDE,
            2 <= prio_b <= crate::BIG_STRIDE,
            pass_a == crate::BIG_STRIDE as int / prio_a,
            pass_b == crate::BIG_STRIDE as int / prio_b,
    ;
    lemma_stride_fairness(pass_a, pass_b, n);
}

} // verus!
