//! The split of a worker's local offsets into fixed-size batches.

use vstd::arithmetic::div_mod::lemma_fundamental_div_mod;
use vstd::arithmetic::div_mod::lemma_fundamental_div_mod_converse;
use vstd::prelude::*;

verus! {

/// The batch size used where the caller has no reason to pick another. It
/// tunes how much work one parallel task gets, never what is computed.
pub const DEFAULT_BATCH_SIZE: usize = 2000;

/// The split of the offsets `0..count` into `full_batches` consecutive
/// batches of `batch_size` offsets each, followed by a tail of `remainder`
/// offsets that is shorter than a batch.
#[derive(Clone, Copy, Debug, PartialEq, Eq, Structural)]
pub struct BatchPlan {
    pub count: usize,
    pub batch_size: usize,
    pub full_batches: usize,
    pub remainder: usize,
}

/// The plan for `count` offsets in batches of `batch_size`.
pub open spec fn plan_for(count: usize, batch_size: usize) -> BatchPlan {
    BatchPlan {
        count,
        batch_size,
        full_batches: (count / batch_size) as usize,
        remainder: (count % batch_size) as usize,
    }
}

impl BatchPlan {
    /// The batch size is positive, and the number of full batches and the
    /// length of the tail are the quotient and the remainder of the count by
    /// it.
    pub open spec fn wf(&self) -> bool {
        &&& self.batch_size >= 1
        &&& self.full_batches == self.count / self.batch_size
        &&& self.remainder == self.count % self.batch_size
    }

    /// The first offset of the batch numbered `batch`.
    pub open spec fn batch_start(&self, batch: nat) -> nat {
        batch * (self.batch_size as nat)
    }

    /// The offset just past the batch numbered `batch`.
    pub open spec fn batch_end(&self, batch: nat) -> nat {
        (batch + 1) * (self.batch_size as nat)
    }

    /// The first offset of the tail, just past the last full batch.
    pub open spec fn tail_start(&self) -> nat {
        (self.full_batches as nat) * (self.batch_size as nat)
    }

    /// Plans the batches for `count` offsets.
    pub fn new(count: usize, batch_size: usize) -> (plan: BatchPlan)
        requires
            batch_size >= 1,
        ensures
            plan == plan_for(count, batch_size),
            plan.wf(),
    {
        BatchPlan {
            count,
            batch_size,
            full_batches: count / batch_size,
            remainder: count % batch_size,
        }
    }

    /// The half-open range of offsets of the full batch numbered `batch`.
    pub fn batch_bounds(&self, batch: usize) -> (bounds: (usize, usize))
        requires
            self.wf(),
            batch < self.full_batches,
        ensures
            bounds.0 == self.batch_start(batch as nat),
            bounds.1 == self.batch_end(batch as nat),
            bounds.0 <= bounds.1 <= self.count,
    {
        proof {
            lemma_plan_adds_up(*self);
            assert((batch + 1) * self.batch_size == batch * self.batch_size + self.batch_size
                && (batch + 1) * self.batch_size <= self.full_batches * self.batch_size)
                by (nonlinear_arith)
                requires
                    batch < self.full_batches,
            ;
        }
        let start = batch * self.batch_size;
        (start, start + self.batch_size)
    }

    /// The half-open range of offsets of the tail; it is empty when the batch
    /// size divides the count.
    pub fn tail_bounds(&self) -> (bounds: (usize, usize))
        requires
            self.wf(),
        ensures
            bounds.0 == self.tail_start(),
            bounds.1 == self.count,
            bounds.1 - bounds.0 == self.remainder,
    {
        proof {
            lemma_plan_adds_up(*self);
        }
        (self.count - self.remainder, self.count)
    }
}

/// The full batches and the tail make up the count, and the tail is shorter
/// than a batch.
pub proof fn lemma_plan_adds_up(plan: BatchPlan)
    requires
        plan.wf(),
    ensures
        plan.tail_start() + plan.remainder == plan.count,
        plan.remainder < plan.batch_size,
{
    lemma_fundamental_div_mod(plan.count as int, plan.batch_size as int);
    assert(plan.full_batches * plan.batch_size == plan.batch_size * plan.full_batches)
        by (nonlinear_arith);
}

/// The batches lie end to end from offset 0: the first begins at 0, each is
/// `batch_size` long, and each ends where the next begins, the last full one
/// where the tail begins.
pub proof fn lemma_batches_adjacent(plan: BatchPlan, batch: nat)
    ensures
        plan.batch_start(0) == 0,
        plan.batch_end(batch) == plan.batch_start(batch) + plan.batch_size,
        plan.batch_end(batch) == plan.batch_start(batch + 1),
        plan.batch_start(plan.full_batches as nat) == plan.tail_start(),
{
    assert((batch + 1) * plan.batch_size == batch * plan.batch_size + plan.batch_size)
        by (nonlinear_arith);
}

/// Every offset below the count lies in exactly one piece of the plan: in the
/// full batch numbered `offset / batch_size` and in no other when it comes
/// before the tail, and in no full batch when it lies in the tail.
pub proof fn lemma_batches_tile(plan: BatchPlan, offset: nat)
    requires
        plan.wf(),
        offset < plan.count,
    ensures
        offset < plan.tail_start() <==> offset / (plan.batch_size as nat) < plan.full_batches,
        plan.batch_start(offset / (plan.batch_size as nat)) <= offset < plan.batch_end(
            offset / (plan.batch_size as nat),
        ),
        forall|batch: nat|
            #[trigger] plan.batch_start(batch) <= offset < plan.batch_end(batch) ==> batch
                == offset / (plan.batch_size as nat),
{
    let size = plan.batch_size as nat;
    let home = offset / size;
    lemma_fundamental_div_mod(offset as int, size as int);
    assert(home * size == size * home && (home + 1) * size == size * home + size)
        by (nonlinear_arith);
    assert(offset < plan.full_batches * size <==> home < plan.full_batches) by (nonlinear_arith)
        requires
            home * size <= offset < home * size + size,
            size >= 1,
    ;
    assert forall|batch: nat|
        #[trigger] plan.batch_start(batch) <= offset < plan.batch_end(batch) implies batch
        == home by {
        assert((batch + 1) * size == batch * size + size) by (nonlinear_arith);
        lemma_fundamental_div_mod_converse(
            offset as int,
            size as int,
            batch as int,
            offset - batch * size,
        );
    }
}

} // verus!
