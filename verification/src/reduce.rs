//! The local reduction of one worker's share: the sum of a term over the
//! share's samples, taken either in one sequential pass or batch by batch
//! across the parallel lanes, and scaled at the end.
//!
//! The value type and its arithmetic belong to the caller, who passes them as
//! functions. A contract here therefore states which calls of those functions
//! the result came from: `range_sum`, `batched_sum` and `reduced` hold of a
//! value exactly when it can be the outcome of the calls that they describe.

use crate::batch::plan_for;
use crate::batch::BatchPlan;
use crate::lanes::allocation_fits;
use crate::lanes::available_lanes;
use crate::lanes::run_indexed;
use crate::partition::lemma_empty_resolution;
use crate::partition::LocalShare;
use vstd::prelude::*;

verus! {

/// How a worker sums the terms of its share.
#[derive(Clone, Copy, Debug, PartialEq, Eq, Structural)]
pub enum Strategy {
    /// One pass over the offsets in order.
    Sequential,
    /// Batches of `batch_size` offsets summed independently of each other,
    /// then combined, then the tail.
    Batched { batch_size: usize },
}

impl Strategy {
    /// A batched strategy has a positive batch size.
    pub open spec fn wf(&self) -> bool {
        self matches Strategy::Batched { batch_size } ==> batch_size >= 1
    }
}

/// The strategy for a worker with `lanes` parallel lanes: batching pays only
/// where more than one lane can take batches.
pub open spec fn strategy_for(lanes: usize, batch_size: usize) -> Strategy {
    if lanes > 1 {
        Strategy::Batched { batch_size }
    } else {
        Strategy::Sequential
    }
}

/// `out` can result from summing the terms at the offsets `lo..hi` of `share`
/// from left to right, starting from `zero`: each term is a result of `term`
/// on the global index of its offset, each partial sum a result of `combine`
/// on the sum before it and the next term.
pub open spec fn range_sum<T, F: Fn(usize) -> T, C: Fn(T, T) -> T>(
    share: LocalShare,
    zero: T,
    term: F,
    combine: C,
    lo: nat,
    hi: nat,
    out: T,
) -> bool
    decreases hi,
{
    if hi <= lo {
        out == zero
    } else {
        exists|before: T, value: T|
            range_sum(share, zero, term, combine, lo, (hi - 1) as nat, before) && term.ensures(
                (share.index_at((hi - 1) as nat) as usize,),
                value,
            ) && #[trigger] combine.ensures((before, value), out)
    }
}

/// `out` can result from combining, from left to right and starting from
/// `zero`, the sums of the first `batches` full batches of `plan`, each batch
/// summed on its own as `range_sum` describes.
pub open spec fn batch_fold<T, F: Fn(usize) -> T, C: Fn(T, T) -> T>(
    share: LocalShare,
    plan: BatchPlan,
    zero: T,
    term: F,
    combine: C,
    batches: nat,
    out: T,
) -> bool
    decreases batches,
{
    if batches == 0 {
        out == zero
    } else {
        exists|before: T, batch_sum: T|
            batch_fold(share, plan, zero, term, combine, (batches - 1) as nat, before)
                && range_sum(
                share,
                zero,
                term,
                combine,
                plan.batch_start((batches - 1) as nat),
                plan.batch_end((batches - 1) as nat),
                batch_sum,
            ) && #[trigger] combine.ensures((before, batch_sum), out)
    }
}

/// `out` can be the sum of the tail of `plan`: the tail summed on its own
/// where there is one, and `zero` itself where the batches leave nothing over.
pub open spec fn tail_sum<T, F: Fn(usize) -> T, C: Fn(T, T) -> T>(
    share: LocalShare,
    plan: BatchPlan,
    zero: T,
    term: F,
    combine: C,
    out: T,
) -> bool {
    if plan.remainder != 0 {
        range_sum(share, zero, term, combine, plan.tail_start(), plan.count as nat, out)
    } else {
        out == zero
    }
}

/// `out` can result from the batched sum over `plan`: the combined sums of
/// all full batches, combined with the sum of the tail.
pub open spec fn batched_sum<T, F: Fn(usize) -> T, C: Fn(T, T) -> T>(
    share: LocalShare,
    plan: BatchPlan,
    zero: T,
    term: F,
    combine: C,
    out: T,
) -> bool {
    exists|head: T, tail: T|
        batch_fold(share, plan, zero, term, combine, plan.full_batches as nat, head) && tail_sum(
            share,
            plan,
            zero,
            term,
            combine,
            tail,
        ) && #[trigger] combine.ensures((head, tail), out)
}

/// `out` can be the sum of all terms of `share` taken by `strategy`.
pub open spec fn strategy_sum<T, F: Fn(usize) -> T, C: Fn(T, T) -> T>(
    strategy: Strategy,
    share: LocalShare,
    zero: T,
    term: F,
    combine: C,
    out: T,
) -> bool {
    match strategy {
        Strategy::Sequential => range_sum(share, zero, term, combine, 0, share.count as nat, out),
        Strategy::Batched { batch_size } => batched_sum(
            share,
            plan_for(share.count, batch_size),
            zero,
            term,
            combine,
            out,
        ),
    }
}

/// `out` can be the partial sum of `share` under `strategy`: `zero` itself
/// for a share without samples, and otherwise a result of `scale` on the
/// share's sum.
pub open spec fn reduced<T, F: Fn(usize) -> T, C: Fn(T, T) -> T, S: Fn(T) -> T>(
    strategy: Strategy,
    share: LocalShare,
    zero: T,
    term: F,
    combine: C,
    scale: S,
    out: T,
) -> bool {
    if share.count == 0 {
        out == zero
    } else {
        exists|sum: T|
            strategy_sum(strategy, share, zero, term, combine, sum) && #[trigger] scale.ensures(
                (sum,),
                out,
            )
    }
}

/// `term` may be called on every global index that `share` owns.
pub open spec fn accepts_share<T, F: Fn(usize) -> T>(term: F, share: LocalShare) -> bool {
    forall|offset: nat|
        offset < share.count ==> term.requires((#[trigger] share.index_at(offset) as usize,))
}

/// `combine` may be called on any two values.
pub open spec fn accepts_all_pairs<T, C: Fn(T, T) -> T>(combine: C) -> bool {
    forall|a: T, b: T| #[trigger] combine.requires((a, b))
}

/// `scale` may be called on any value.
pub open spec fn accepts_all<T, S: Fn(T) -> T>(scale: S) -> bool {
    forall|sum: T| #[trigger] scale.requires((sum,))
}

/// Picks the strategy for a worker with `lanes` parallel lanes.
pub fn select_strategy(lanes: usize, batch_size: usize) -> (strategy: Strategy)
    requires
        batch_size >= 1,
    ensures
        strategy == strategy_for(lanes, batch_size),
        strategy.wf(),
{
    if lanes > 1 {
        Strategy::Batched { batch_size }
    } else {
        Strategy::Sequential
    }
}

/// Sums the terms at the offsets `lo..hi` of `share` in one sequential pass.
pub fn sum_range<T: Copy, F: Fn(usize) -> T, C: Fn(T, T) -> T>(
    share: &LocalShare,
    zero: T,
    term: &F,
    combine: &C,
    lo: usize,
    hi: usize,
) -> (out: T)
    requires
        share.wf(),
        lo <= hi <= share.count,
        accepts_share(*term, *share),
        lo < hi ==> accepts_all_pairs(*combine),
    ensures
        range_sum(*share, zero, *term, *combine, lo as nat, hi as nat, out),
{
    let mut sum = zero;
    let mut offset = lo;
    while offset < hi
        invariant
            share.wf(),
            lo <= offset <= hi <= share.count,
            accepts_share(*term, *share),
            lo < hi ==> accepts_all_pairs(*combine),
            range_sum(*share, zero, *term, *combine, lo as nat, offset as nat, sum),
        decreases hi - offset,
    {
        let index = share.global_index(offset);
        assert(index == share.index_at(offset as nat) as usize);
        let value = term(index);
        let next = combine(sum, value);
        offset = offset + 1;
        sum = next;
    }
    sum
}

/// Combines the sums of the full batches of `plan` in the order of the
/// batches. The batches are summed on the parallel lanes, each by a sequential
/// pass of its own; where their sums would not fit one allocation, they are
/// summed one after the other instead.
fn fold_full_batches<T: Copy + Send + Sync, F: Fn(usize) -> T + Sync, C: Fn(T, T) -> T + Sync>(
    share: &LocalShare,
    plan: &BatchPlan,
    zero: T,
    term: &F,
    combine: &C,
) -> (head: T)
    requires
        share.wf(),
        plan.wf(),
        plan.count == share.count,
        accepts_share(*term, *share),
        accepts_all_pairs(*combine),
    ensures
        batch_fold(*share, *plan, zero, *term, *combine, plan.full_batches as nat, head),
{
    let mut head = zero;
    let mut batch: usize = 0;
    if allocation_fits::<T>(plan.full_batches) {
        let sum_of_batch = |batch: usize| -> (batch_sum: T)
            requires
                batch < plan.full_batches,
            ensures
                range_sum(
                    *share,
                    zero,
                    *term,
                    *combine,
                    plan.batch_start(batch as nat),
                    plan.batch_end(batch as nat),
                    batch_sum,
                ),
            {
                let bounds = plan.batch_bounds(batch);
                sum_range(share, zero, term, combine, bounds.0, bounds.1)
            };
        let batch_sums = run_indexed(plan.full_batches, sum_of_batch);
        while batch < plan.full_batches
            invariant
                batch <= plan.full_batches == batch_sums.len(),
                accepts_all_pairs(*combine),
                forall|x: int|
                    0 <= x < plan.full_batches ==> range_sum(
                        *share,
                        zero,
                        *term,
                        *combine,
                        plan.batch_start(x as nat),
                        plan.batch_end(x as nat),
                        #[trigger] batch_sums[x],
                    ),
                batch_fold(*share, *plan, zero, *term, *combine, batch as nat, head),
            decreases plan.full_batches - batch,
        {
            let next = combine(head, batch_sums[batch]);
            batch = batch + 1;
            head = next;
        }
    } else {
        while batch < plan.full_batches
            invariant
                share.wf(),
                plan.wf(),
                plan.count == share.count,
                batch <= plan.full_batches,
                accepts_share(*term, *share),
                accepts_all_pairs(*combine),
                batch_fold(*share, *plan, zero, *term, *combine, batch as nat, head),
            decreases plan.full_batches - batch,
        {
            let bounds = plan.batch_bounds(batch);
            let batch_sum = sum_range(share, zero, term, combine, bounds.0, bounds.1);
            let next = combine(head, batch_sum);
            batch = batch + 1;
            head = next;
        }
    }
    head
}

/// Sums the terms of `share` batch by batch: the full batches of `plan` are
/// summed independently of each other, their sums are combined in the order
/// of the batches, and the sum of the tail is added last.
pub fn sum_batched<T: Copy + Send + Sync, F: Fn(usize) -> T + Sync, C: Fn(T, T) -> T + Sync>(
    share: &LocalShare,
    plan: &BatchPlan,
    zero: T,
    term: &F,
    combine: &C,
) -> (out: T)
    requires
        share.wf(),
        plan.wf(),
        plan.count == share.count,
        accepts_share(*term, *share),
        accepts_all_pairs(*combine),
    ensures
        batched_sum(*share, *plan, zero, *term, *combine, out),
{
    let head = fold_full_batches(share, plan, zero, term, combine);
    let tail = if plan.remainder != 0 {
        let bounds = plan.tail_bounds();
        sum_range(share, zero, term, combine, bounds.0, bounds.1)
    } else {
        zero
    };
    combine(head, tail)
}

/// Reduces `share` to its partial sum by `strategy`. A share without samples
/// gives `zero` and calls none of the three functions, which for such a
/// share need not accept any argument.
pub fn reduce<
    T: Copy + Send + Sync,
    F: Fn(usize) -> T + Sync,
    C: Fn(T, T) -> T + Sync,
    S: Fn(T) -> T,
>(share: &LocalShare, strategy: Strategy, zero: T, term: &F, combine: &C, scale: &S) -> (out: T)
    requires
        share.wf(),
        strategy.wf(),
        accepts_share(*term, *share),
        share.count > 0 ==> accepts_all_pairs(*combine) && accepts_all(*scale),
    ensures
        reduced(strategy, *share, zero, *term, *combine, *scale, out),
{
    if share.count == 0 {
        return zero;
    }
    let sum = match strategy {
        Strategy::Sequential => sum_range(share, zero, term, combine, 0, share.count),
        Strategy::Batched { batch_size } => {
            let plan = BatchPlan::new(share.count, batch_size);
            sum_batched(share, &plan, zero, term, combine)
        },
    };
    scale(sum)
}

/// Reduces `share` with the strategy that fits the lanes of this process:
/// batches of `batch_size` where rayon's pool has more than one thread, one
/// sequential pass where it has not. Which of the two it was is not told. For
/// a share without samples the pool is not even asked.
pub fn reduce_local<
    T: Copy + Send + Sync,
    F: Fn(usize) -> T + Sync,
    C: Fn(T, T) -> T + Sync,
    S: Fn(T) -> T,
>(share: &LocalShare, batch_size: usize, zero: T, term: &F, combine: &C, scale: &S) -> (out: T)
    requires
        share.wf(),
        batch_size >= 1,
        accepts_share(*term, *share),
        share.count > 0 ==> accepts_all_pairs(*combine) && accepts_all(*scale),
    ensures
        reduced(Strategy::Sequential, *share, zero, *term, *combine, *scale, out) || reduced(
            (Strategy::Batched { batch_size }),
            *share,
            zero,
            *term,
            *combine,
            *scale,
            out,
        ),
{
    if share.count == 0 {
        return zero;
    }
    let lanes = available_lanes();
    reduce(share, select_strategy(lanes, batch_size), zero, term, combine, scale)
}

/// A run without samples leaves every worker with `zero` as its partial sum,
/// under every strategy.
pub proof fn lemma_no_samples_reduce_to_zero<
    T,
    F: Fn(usize) -> T,
    C: Fn(T, T) -> T,
    S: Fn(T) -> T,
>(strategy: Strategy, share: LocalShare, zero: T, term: F, combine: C, scale: S, out: T)
    requires
        share.wf(),
        share.resolution == 0,
        reduced(strategy, share, zero, term, combine, scale, out),
    ensures
        share.count == 0,
        out == zero,
{
    lemma_empty_resolution(share.rank as nat, share.world_size as nat);
}

} // verus!
