//! What the reductions compute when the caller's sum is associative.
//!
//! The contracts of the reductions say which calls of the caller's functions
//! a result came from. Where those functions compute mathematical functions
//! (`term` the value `value_at(i)`, `combine` an operation `op`, `scale` a
//! function `scaled`), the grouping of the calls no longer matters once `op`
//! is associative with `zero` as its unit, and neither does the assignment of
//! the samples to workers once `op` is commutative too. The lemmas here prove
//! that. Wrapping integer arithmetic meets their conditions; floating-point
//! addition, which is not associative, does not.

use crate::aggregate::folds_to;
use crate::batch::lemma_batches_adjacent;
use crate::batch::lemma_plan_adds_up;
use crate::batch::plan_for;
use crate::batch::BatchPlan;
use crate::partition::lemma_empty_resolution;
use crate::partition::lemma_owned_index_in_range;
use crate::partition::lemma_share_count_fits;
use crate::partition::owner_rank;
use crate::partition::share_count;
use crate::partition::share_of;
use crate::partition::strided_index;
use crate::partition::LocalShare;
use crate::reduce::batch_fold;
use crate::reduce::batched_sum;
use crate::reduce::range_sum;
use crate::reduce::reduced;
use crate::reduce::strategy_sum;
use crate::reduce::tail_sum;
use crate::reduce::Strategy;
use vstd::arithmetic::div_mod::lemma_fundamental_div_mod;
use vstd::arithmetic::div_mod::lemma_fundamental_div_mod_converse;
use vstd::prelude::*;

verus! {

/// Every result of `term` on an index `i` is `value_at(i)`.
pub open spec fn computes_term<T, F: Fn(usize) -> T>(term: F, value_at: spec_fn(nat) -> T) -> bool {
    forall|index: usize, value: T| #[trigger]
        term.ensures((index,), value) ==> value == value_at(index as nat)
}

/// Every result of `combine` on `a` and `b` is `op(a, b)`.
pub open spec fn computes_op<T, C: Fn(T, T) -> T>(combine: C, op: spec_fn(T, T) -> T) -> bool {
    forall|a: T, b: T, c: T| #[trigger] combine.ensures((a, b), c) ==> c == op(a, b)
}

/// Every result of `scale` on `sum` is `scaled(sum)`.
pub open spec fn computes_scale<T, S: Fn(T) -> T>(scale: S, scaled: spec_fn(T) -> T) -> bool {
    forall|sum: T, out: T| #[trigger] scale.ensures((sum,), out) ==> out == scaled(sum)
}

/// `op` is associative and has `zero` as its unit on both sides.
pub open spec fn is_monoid<T>(op: spec_fn(T, T) -> T, zero: T) -> bool {
    &&& forall|a: T, b: T, c: T| #[trigger] op(op(a, b), c) == op(a, op(b, c))
    &&& forall|a: T| #[trigger] op(zero, a) == a
    &&& forall|a: T| #[trigger] op(a, zero) == a
}

/// `op` gives the same for its arguments in either order.
pub open spec fn is_commutative<T>(op: spec_fn(T, T) -> T) -> bool {
    forall|a: T, b: T| #[trigger] op(a, b) == op(b, a)
}

/// `scaled` keeps `zero` and distributes over `op`.
pub open spec fn distributes_over<T>(
    scaled: spec_fn(T) -> T,
    op: spec_fn(T, T) -> T,
    zero: T,
) -> bool {
    &&& scaled(zero) == zero
    &&& forall|a: T, b: T| #[trigger] scaled(op(a, b)) == op(scaled(a), scaled(b))
}

/// The values at the global indices of the offsets `lo..hi` of the worker at
/// `rank`, combined by `op` from left to right, starting from `zero`.
pub open spec fn offsets_fold<T>(
    op: spec_fn(T, T) -> T,
    zero: T,
    value_at: spec_fn(nat) -> T,
    rank: nat,
    world_size: nat,
    lo: nat,
    hi: nat,
) -> T
    decreases hi,
{
    if hi <= lo {
        zero
    } else {
        op(
            offsets_fold(op, zero, value_at, rank, world_size, lo, (hi - 1) as nat),
            value_at(strided_index((hi - 1) as nat, rank, world_size)),
        )
    }
}

/// The values at all global indices that the worker at `rank` owns, combined
/// in the order of its offsets.
pub open spec fn share_fold<T>(
    op: spec_fn(T, T) -> T,
    zero: T,
    value_at: spec_fn(nat) -> T,
    n: nat,
    rank: nat,
    world_size: nat,
) -> T {
    offsets_fold(op, zero, value_at, rank, world_size, 0, share_count(n, rank, world_size))
}

/// The partial sum of the worker at `rank`: `zero` for a worker without
/// samples, and otherwise its combined values, scaled.
pub open spec fn share_partial<T>(
    op: spec_fn(T, T) -> T,
    zero: T,
    value_at: spec_fn(nat) -> T,
    scaled: spec_fn(T) -> T,
    n: nat,
    rank: nat,
    world_size: nat,
) -> T {
    if share_count(n, rank, world_size) == 0 {
        zero
    } else {
        scaled(share_fold(op, zero, value_at, n, rank, world_size))
    }
}

/// The combined values of the workers of rank below `upto`, combined in the
/// order of the ranks.
pub open spec fn workers_fold<T>(
    op: spec_fn(T, T) -> T,
    zero: T,
    value_at: spec_fn(nat) -> T,
    n: nat,
    world_size: nat,
    upto: nat,
) -> T
    decreases upto,
{
    if upto == 0 {
        zero
    } else {
        op(
            workers_fold(op, zero, value_at, n, world_size, (upto - 1) as nat),
            share_fold(op, zero, value_at, n, (upto - 1) as nat, world_size),
        )
    }
}

/// The values at the global indices `1..=n`, combined in the order of the
/// indices.
pub open spec fn index_fold<T>(
    op: spec_fn(T, T) -> T,
    zero: T,
    value_at: spec_fn(nat) -> T,
    n: nat,
) -> T
    decreases n,
{
    if n == 0 {
        zero
    } else {
        op(index_fold(op, zero, value_at, (n - 1) as nat), value_at(n))
    }
}

/// The `values`, combined by `op` from left to right, starting from `zero`.
pub open spec fn seq_fold<T>(op: spec_fn(T, T) -> T, zero: T, values: Seq<T>) -> T
    decreases values.len(),
{
    if values.len() == 0 {
        zero
    } else {
        op(seq_fold(op, zero, values.drop_last()), values.last())
    }
}

/// Where `term` and `combine` compute functions, a sequential sum over the
/// offsets `lo..hi` is the fold of the values over those offsets.
pub proof fn lemma_range_sum_is_fold<T, F: Fn(usize) -> T, C: Fn(T, T) -> T>(
    share: LocalShare,
    zero: T,
    term: F,
    combine: C,
    lo: nat,
    hi: nat,
    out: T,
    value_at: spec_fn(nat) -> T,
    op: spec_fn(T, T) -> T,
)
    requires
        share.wf(),
        hi <= share.count,
        computes_term(term, value_at),
        computes_op(combine, op),
        range_sum(share, zero, term, combine, lo, hi, out),
    ensures
        out == offsets_fold(op, zero, value_at, share.rank as nat, share.world_size as nat, lo, hi),
    decreases hi,
{
    if hi > lo {
        let last = (hi - 1) as nat;
        let (before, value) = choose|before: T, value: T|
            range_sum(share, zero, term, combine, lo, last, before) && term.ensures(
                (share.index_at(last) as usize,),
                value,
            ) && #[trigger] combine.ensures((before, value), out);
        lemma_range_sum_is_fold(share, zero, term, combine, lo, last, before, value_at, op);
        lemma_owned_index_in_range(
            share.resolution as nat,
            share.rank as nat,
            share.world_size as nat,
            last,
        );
    }
}

/// With an associative `op`, the fold over a range of offsets is the fold
/// over its first part combined with the fold over its second part.
pub proof fn lemma_offsets_fold_split<T>(
    op: spec_fn(T, T) -> T,
    zero: T,
    value_at: spec_fn(nat) -> T,
    rank: nat,
    world_size: nat,
    lo: nat,
    mid: nat,
    hi: nat,
)
    requires
        lo <= mid <= hi,
        is_monoid(op, zero),
    ensures
        offsets_fold(op, zero, value_at, rank, world_size, lo, hi) == op(
            offsets_fold(op, zero, value_at, rank, world_size, lo, mid),
            offsets_fold(op, zero, value_at, rank, world_size, mid, hi),
        ),
    decreases hi,
{
    let first = offsets_fold(op, zero, value_at, rank, world_size, lo, mid);
    if mid < hi {
        let last = (hi - 1) as nat;
        let value = value_at(strided_index(last, rank, world_size));
        let second = offsets_fold(op, zero, value_at, rank, world_size, mid, last);
        lemma_offsets_fold_split(op, zero, value_at, rank, world_size, lo, mid, last);
        assert(op(op(first, second), value) == op(first, op(second, value)));
    } else {
        assert(op(first, zero) == first);
    }
}

/// With an associative `op`, the combined sums of the first `batches` full
/// batches are the fold of the values over the offsets that those batches
/// hold.
pub proof fn lemma_batch_fold_is_fold<T, F: Fn(usize) -> T, C: Fn(T, T) -> T>(
    share: LocalShare,
    plan: BatchPlan,
    zero: T,
    term: F,
    combine: C,
    batches: nat,
    out: T,
    value_at: spec_fn(nat) -> T,
    op: spec_fn(T, T) -> T,
)
    requires
        share.wf(),
        plan.wf(),
        plan.count == share.count,
        batches <= plan.full_batches,
        computes_term(term, value_at),
        computes_op(combine, op),
        is_monoid(op, zero),
        batch_fold(share, plan, zero, term, combine, batches, out),
    ensures
        out == offsets_fold(
            op,
            zero,
            value_at,
            share.rank as nat,
            share.world_size as nat,
            0,
            plan.batch_start(batches),
        ),
    decreases batches,
{
    if batches > 0 {
        let last = (batches - 1) as nat;
        let (before, batch_sum) = choose|before: T, batch_sum: T|
            batch_fold(share, plan, zero, term, combine, last, before) && range_sum(
                share,
                zero,
                term,
                combine,
                plan.batch_start(last),
                plan.batch_end(last),
                batch_sum,
            ) && #[trigger] combine.ensures((before, batch_sum), out);
        lemma_batch_fold_is_fold(share, plan, zero, term, combine, last, before, value_at, op);
        lemma_batches_adjacent(plan, last);
        lemma_plan_adds_up(plan);
        assert(plan.batch_start(batches) <= plan.tail_start()) by (nonlinear_arith)
            requires
                batches <= plan.full_batches,
                plan.batch_start(batches) == batches * (plan.batch_size as nat),
                plan.tail_start() == (plan.full_batches as nat) * (plan.batch_size as nat),
        ;
        lemma_range_sum_is_fold(
            share,
            zero,
            term,
            combine,
            plan.batch_start(last),
            plan.batch_end(last),
            batch_sum,
            value_at,
            op,
        );
        lemma_offsets_fold_split(
            op,
            zero,
            value_at,
            share.rank as nat,
            share.world_size as nat,
            0,
            plan.batch_start(last),
            plan.batch_start(batches),
        );
    } else {
        assert(plan.batch_start(0) == 0) by {
            lemma_batches_adjacent(plan, 0);
        }
    }
}

/// With an associative `op`, a batched sum is the fold of the values over all
/// offsets of the share, as the sequential sum is.
pub proof fn lemma_batched_sum_is_fold<T, F: Fn(usize) -> T, C: Fn(T, T) -> T>(
    share: LocalShare,
    plan: BatchPlan,
    zero: T,
    term: F,
    combine: C,
    out: T,
    value_at: spec_fn(nat) -> T,
    op: spec_fn(T, T) -> T,
)
    requires
        share.wf(),
        plan.wf(),
        plan.count == share.count,
        computes_term(term, value_at),
        computes_op(combine, op),
        is_monoid(op, zero),
        batched_sum(share, plan, zero, term, combine, out),
    ensures
        out == share_fold(
            op,
            zero,
            value_at,
            share.resolution as nat,
            share.rank as nat,
            share.world_size as nat,
        ),
{
    let (head, tail) = choose|head: T, tail: T|
        batch_fold(share, plan, zero, term, combine, plan.full_batches as nat, head) && tail_sum(
            share,
            plan,
            zero,
            term,
            combine,
            tail,
        ) && #[trigger] combine.ensures((head, tail), out);
    lemma_batch_fold_is_fold(
        share,
        plan,
        zero,
        term,
        combine,
        plan.full_batches as nat,
        head,
        value_at,
        op,
    );
    lemma_plan_adds_up(plan);
    if plan.remainder != 0 {
        lemma_range_sum_is_fold(
            share,
            zero,
            term,
            combine,
            plan.tail_start(),
            plan.count as nat,
            tail,
            value_at,
            op,
        );
    }
    lemma_offsets_fold_split(
        op,
        zero,
        value_at,
        share.rank as nat,
        share.world_size as nat,
        0,
        plan.tail_start(),
        plan.count as nat,
    );
}

/// With an associative `op`, the sum of a share is the same under every
/// strategy: the fold of the values over all offsets of the share.
pub proof fn lemma_strategy_sum_is_fold<T, F: Fn(usize) -> T, C: Fn(T, T) -> T>(
    strategy: Strategy,
    share: LocalShare,
    zero: T,
    term: F,
    combine: C,
    out: T,
    value_at: spec_fn(nat) -> T,
    op: spec_fn(T, T) -> T,
)
    requires
        share.wf(),
        strategy.wf(),
        computes_term(term, value_at),
        computes_op(combine, op),
        is_monoid(op, zero),
        strategy_sum(strategy, share, zero, term, combine, out),
    ensures
        out == share_fold(
            op,
            zero,
            value_at,
            share.resolution as nat,
            share.rank as nat,
            share.world_size as nat,
        ),
{
    match strategy {
        Strategy::Sequential => {
            lemma_range_sum_is_fold(
                share,
                zero,
                term,
                combine,
                0,
                share.count as nat,
                out,
                value_at,
                op,
            );
        },
        Strategy::Batched { batch_size } => {
            lemma_batched_sum_is_fold(
                share,
                plan_for(share.count, batch_size),
                zero,
                term,
                combine,
                out,
                value_at,
                op,
            );
        },
    }
}

/// With an associative `op`, the partial sum of a share is the same under
/// every strategy: the share's partial sum as `share_partial` defines it.
pub proof fn lemma_reduced_is_share_partial<
    T,
    F: Fn(usize) -> T,
    C: Fn(T, T) -> T,
    S: Fn(T) -> T,
>(
    strategy: Strategy,
    share: LocalShare,
    zero: T,
    term: F,
    combine: C,
    scale: S,
    out: T,
    value_at: spec_fn(nat) -> T,
    op: spec_fn(T, T) -> T,
    scaled: spec_fn(T) -> T,
)
    requires
        share.wf(),
        strategy.wf(),
        computes_term(term, value_at),
        computes_op(combine, op),
        computes_scale(scale, scaled),
        is_monoid(op, zero),
        reduced(strategy, share, zero, term, combine, scale, out),
    ensures
        out == share_partial(
            op,
            zero,
            value_at,
            scaled,
            share.resolution as nat,
            share.rank as nat,
            share.world_size as nat,
        ),
{
    if share.count != 0 {
        let sum = choose|sum: T|
            strategy_sum(strategy, share, zero, term, combine, sum) && #[trigger] scale.ensures(
                (sum,),
                out,
            );
        lemma_strategy_sum_is_fold(strategy, share, zero, term, combine, sum, value_at, op);
    }
}

/// Batch equivalence for an associative sum: the partial sums that two
/// strategies give for one share, batched or not and whatever the batch
/// sizes, are equal.
pub proof fn lemma_strategies_agree<T, F: Fn(usize) -> T, C: Fn(T, T) -> T, S: Fn(T) -> T>(
    first: Strategy,
    second: Strategy,
    share: LocalShare,
    zero: T,
    term: F,
    combine: C,
    scale: S,
    first_out: T,
    second_out: T,
    value_at: spec_fn(nat) -> T,
    op: spec_fn(T, T) -> T,
    scaled: spec_fn(T) -> T,
)
    requires
        share.wf(),
        first.wf(),
        second.wf(),
        computes_term(term, value_at),
        computes_op(combine, op),
        computes_scale(scale, scaled),
        is_monoid(op, zero),
        reduced(first, share, zero, term, combine, scale, first_out),
        reduced(second, share, zero, term, combine, scale, second_out),
    ensures
        first_out == second_out,
{
    lemma_reduced_is_share_partial(
        first,
        share,
        zero,
        term,
        combine,
        scale,
        first_out,
        value_at,
        op,
        scaled,
    );
    lemma_reduced_is_share_partial(
        second,
        share,
        zero,
        term,
        combine,
        scale,
        second_out,
        value_at,
        op,
        scaled,
    );
}

/// Aggregation: where `combine` computes `op`, the total that the coordinator
/// folds from the reports is the fold of the reports by `op`, which is what
/// combining them one by one outside the coordinator gives.
pub proof fn lemma_folds_to_is_fold<T, C: Fn(T, T) -> T>(
    zero: T,
    combine: C,
    values: Seq<T>,
    out: T,
    op: spec_fn(T, T) -> T,
)
    requires
        computes_op(combine, op),
        folds_to(zero, combine, values, out),
    ensures
        out == seq_fold(op, zero, values),
    decreases values.len(),
{
    if values.len() > 0 {
        let before = choose|before: T|
            folds_to(zero, combine, values.drop_last(), before) && #[trigger] combine.ensures(
                (before, values.last()),
                out,
            );
        lemma_folds_to_is_fold(zero, combine, values.drop_last(), before, op);
    }
}

/// Going from `n - 1` samples to `n` appends the global index `n` to the
/// share of its owner and leaves every other share as it was.
pub proof fn lemma_share_fold_step<T>(
    op: spec_fn(T, T) -> T,
    zero: T,
    value_at: spec_fn(nat) -> T,
    n: nat,
    rank: nat,
    world_size: nat,
)
    requires
        n >= 1,
        rank < world_size,
    ensures
        share_fold(op, zero, value_at, n, rank, world_size) == (if rank == owner_rank(
            n,
            world_size,
        ) {
            op(share_fold(op, zero, value_at, (n - 1) as nat, rank, world_size), value_at(n))
        } else {
            share_fold(op, zero, value_at, (n - 1) as nat, rank, world_size)
        }),
{
    let prev = (n - 1) as nat;
    let a = prev / world_size;
    let b = prev % world_size;
    lemma_fundamental_div_mod(prev as int, world_size as int);
    assert(world_size * a == a * world_size) by (nonlinear_arith);
    if b + 1 < world_size {
        lemma_fundamental_div_mod_converse(n as int, world_size as int, a as int, (b + 1) as int);
    } else {
        assert(n == (a + 1) * world_size + 0) by (nonlinear_arith)
            requires
                n - 1 == a * world_size + b,
                b + 1 == world_size,
        ;
        lemma_fundamental_div_mod_converse(n as int, world_size as int, (a + 1) as int, 0);
    }
    if rank == b {
        assert(share_count(n, rank, world_size) == a + 1);
        assert(share_count(prev, rank, world_size) == a);
        assert(strided_index(a, rank, world_size) == n);
    } else {
        assert(share_count(n, rank, world_size) == share_count(prev, rank, world_size));
    }
}

/// With an associative and commutative `op`, going from `n - 1` samples to
/// `n` combines the value at `n` into the fold over the workers of rank below
/// `upto` exactly when the owner of `n` is among them.
pub proof fn lemma_workers_fold_step<T>(
    op: spec_fn(T, T) -> T,
    zero: T,
    value_at: spec_fn(nat) -> T,
    n: nat,
    world_size: nat,
    upto: nat,
)
    requires
        n >= 1,
        world_size >= 1,
        upto <= world_size,
        is_monoid(op, zero),
        is_commutative(op),
    ensures
        workers_fold(op, zero, value_at, n, world_size, upto) == (if owner_rank(n, world_size)
            < upto {
            op(workers_fold(op, zero, value_at, (n - 1) as nat, world_size, upto), value_at(n))
        } else {
            workers_fold(op, zero, value_at, (n - 1) as nat, world_size, upto)
        }),
    decreases upto,
{
    lemma_fundamental_div_mod(n - 1, world_size as int);
    if upto > 0 {
        let prev = (n - 1) as nat;
        let rank = (upto - 1) as nat;
        let owner = owner_rank(n, world_size);
        lemma_workers_fold_step(op, zero, value_at, n, world_size, rank);
        lemma_share_fold_step(op, zero, value_at, n, rank, world_size);
        let below = workers_fold(op, zero, value_at, prev, world_size, rank);
        let own = share_fold(op, zero, value_at, prev, rank, world_size);
        let value = value_at(n);
        if owner == rank {
            assert(op(below, op(own, value)) == op(op(below, own), value));
        } else if owner < rank {
            assert(op(op(below, value), own) == op(below, op(value, own)));
            assert(op(value, own) == op(own, value));
            assert(op(below, op(own, value)) == op(op(below, own), value));
        }
    }
}

/// With no samples the fold over the workers is `zero`.
proof fn lemma_workers_fold_empty<T>(
    op: spec_fn(T, T) -> T,
    zero: T,
    value_at: spec_fn(nat) -> T,
    world_size: nat,
    upto: nat,
)
    requires
        world_size >= 1,
        is_monoid(op, zero),
    ensures
        workers_fold(op, zero, value_at, 0, world_size, upto) == zero,
    decreases upto,
{
    if upto > 0 {
        lemma_workers_fold_empty(op, zero, value_at, world_size, (upto - 1) as nat);
        lemma_empty_resolution((upto - 1) as nat, world_size);
        assert(op(zero, zero) == zero);
    }
}

/// The shares lose and repeat nothing: with an associative and commutative
/// `op`, the shares of all workers, combined, give the fold of the values
/// over `1..=n`, whatever the number of workers.
pub proof fn lemma_workers_cover<T>(
    op: spec_fn(T, T) -> T,
    zero: T,
    value_at: spec_fn(nat) -> T,
    n: nat,
    world_size: nat,
)
    requires
        world_size >= 1,
        is_monoid(op, zero),
        is_commutative(op),
    ensures
        workers_fold(op, zero, value_at, n, world_size, world_size) == index_fold(
            op,
            zero,
            value_at,
            n,
        ),
    decreases n,
{
    if n == 0 {
        lemma_workers_fold_empty(op, zero, value_at, world_size, world_size);
    } else {
        lemma_workers_cover(op, zero, value_at, (n - 1) as nat, world_size);
        lemma_workers_fold_step(op, zero, value_at, n, world_size, world_size);
        lemma_fundamental_div_mod(n - 1, world_size as int);
    }
}

/// Scale invariance for an associative and commutative sum: dealing the same
/// `n` samples out to twice as many workers leaves the combination of all
/// shares unchanged.
pub proof fn lemma_scale_invariance<T>(
    op: spec_fn(T, T) -> T,
    zero: T,
    value_at: spec_fn(nat) -> T,
    n: nat,
    world_size: nat,
)
    requires
        world_size >= 1,
        is_monoid(op, zero),
        is_commutative(op),
    ensures
        workers_fold(op, zero, value_at, n, 2 * world_size, 2 * world_size) == workers_fold(
            op,
            zero,
            value_at,
            n,
            world_size,
            world_size,
        ),
{
    lemma_workers_cover(op, zero, value_at, n, world_size);
    lemma_workers_cover(op, zero, value_at, n, 2 * world_size);
}

/// The reports of the workers of rank below `upto`, combined, are the scaled
/// combination of their shares.
proof fn lemma_reports_fold<T, F: Fn(usize) -> T, C: Fn(T, T) -> T, S: Fn(T) -> T>(
    n: usize,
    world_size: usize,
    strategies: Seq<Strategy>,
    reports: Seq<T>,
    zero: T,
    term: F,
    combine: C,
    scale: S,
    value_at: spec_fn(nat) -> T,
    op: spec_fn(T, T) -> T,
    scaled: spec_fn(T) -> T,
    upto: nat,
)
    requires
        upto <= world_size,
        strategies.len() == world_size,
        reports.len() == world_size,
        computes_term(term, value_at),
        computes_op(combine, op),
        computes_scale(scale, scaled),
        is_monoid(op, zero),
        distributes_over(scaled, op, zero),
        forall|rank: int|
            0 <= rank < world_size ==> (#[trigger] strategies[rank]).wf() && reduced(
                strategies[rank],
                share_of(n, rank as usize, world_size),
                zero,
                term,
                combine,
                scale,
                reports[rank],
            ),
    ensures
        seq_fold(op, zero, reports.take(upto as int)) == scaled(
            workers_fold(op, zero, value_at, n as nat, world_size as nat, upto),
        ),
    decreases upto,
{
    if upto > 0 {
        let rank = (upto - 1) as nat;
        lemma_reports_fold(
            n,
            world_size,
            strategies,
            reports,
            zero,
            term,
            combine,
            scale,
            value_at,
            op,
            scaled,
            rank,
        );
        let share = share_of(n, rank as usize, world_size);
        lemma_share_count_fits(n as nat, rank, world_size as nat);
        assert(strategies[rank as int].wf());
        lemma_reduced_is_share_partial(
            strategies[rank as int],
            share,
            zero,
            term,
            combine,
            scale,
            reports[rank as int],
            value_at,
            op,
            scaled,
        );
        assert(reports.take(upto as int).drop_last() == reports.take(rank as int));
        assert(reports.take(upto as int).last() == reports[rank as int]);
        let below = workers_fold(op, zero, value_at, n as nat, world_size as nat, rank);
        let own = share_fold(op, zero, value_at, n as nat, rank, world_size as nat);
        assert(reports[rank as int] == scaled(own));
        assert(scaled(op(below, own)) == op(scaled(below), scaled(own)));
    }
}

/// A whole run with an associative and commutative sum and a scaling that
/// distributes over it: where every worker reduces its own share by a
/// strategy of its own and the coordinator folds the partial sums in the
/// order of the ranks, the total is the scaled fold of the values over
/// `1..=n`. So neither the number of workers nor any worker's strategy shows
/// in the total.
pub proof fn lemma_run_is_scaled_fold<T, F: Fn(usize) -> T, C: Fn(T, T) -> T, S: Fn(T) -> T>(
    n: usize,
    world_size: usize,
    strategies: Seq<Strategy>,
    reports: Seq<T>,
    total: T,
    zero: T,
    term: F,
    combine: C,
    scale: S,
    value_at: spec_fn(nat) -> T,
    op: spec_fn(T, T) -> T,
    scaled: spec_fn(T) -> T,
)
    requires
        world_size >= 1,
        strategies.len() == world_size,
        reports.len() == world_size,
        computes_term(term, value_at),
        computes_op(combine, op),
        computes_scale(scale, scaled),
        is_monoid(op, zero),
        is_commutative(op),
        distributes_over(scaled, op, zero),
        forall|rank: int|
            0 <= rank < world_size ==> (#[trigger] strategies[rank]).wf() && reduced(
                strategies[rank],
                share_of(n, rank as usize, world_size),
                zero,
                term,
                combine,
                scale,
                reports[rank],
            ),
        folds_to(zero, combine, reports, total),
    ensures
        total == scaled(index_fold(op, zero, value_at, n as nat)),
{
    lemma_folds_to_is_fold(zero, combine, reports, total, op);
    lemma_reports_fold(
        n,
        world_size,
        strategies,
        reports,
        zero,
        term,
        combine,
        scale,
        value_at,
        op,
        scaled,
        world_size as nat,
    );
    assert(reports.take(world_size as int) == reports);
    lemma_workers_cover(op, zero, value_at, n as nat, world_size as nat);
}

} // verus!
