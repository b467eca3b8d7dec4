//! The combination of the workers' partial sums on the coordinator.

use crate::partition::WorkerIdentity;
use crate::reduce::accepts_all_pairs;
use vstd::prelude::*;

verus! {

/// What a worker does in the aggregation.
#[derive(Clone, Copy, Debug, PartialEq, Eq, Structural)]
pub enum Role {
    /// Receives every worker's partial sum, its own among them, and holds
    /// the total.
    Coordinator,
    /// Hands its partial sum to the coordinator and gets nothing back.
    Participant,
}

/// Why an aggregation gave no total.
#[derive(Clone, Copy, Debug, PartialEq, Eq, Structural)]
pub enum AggregationError {
    /// The coordinator holds `received` partial sums where the run has
    /// `expected` workers, so some worker's report is missing or some report
    /// came twice. No total is made from such a set.
    WrongReportCount { expected: usize, received: usize },
}

/// The role of the worker at `rank`: rank 0 coordinates.
pub open spec fn role_at(rank: usize) -> Role {
    if rank == 0 {
        Role::Coordinator
    } else {
        Role::Participant
    }
}

/// `out` can result from combining `values` from left to right, starting
/// from `zero`.
pub open spec fn folds_to<T, C: Fn(T, T) -> T>(zero: T, combine: C, values: Seq<T>, out: T) -> bool
    decreases values.len(),
{
    if values.len() == 0 {
        out == zero
    } else {
        exists|before: T|
            folds_to(zero, combine, values.drop_last(), before) && #[trigger] combine.ensures(
                (before, values.last()),
                out,
            )
    }
}

/// The role of the worker `who`.
pub fn role_of(who: &WorkerIdentity) -> (role: Role)
    ensures
        role == role_at(who.rank),
{
    if who.rank == 0 {
        Role::Coordinator
    } else {
        Role::Participant
    }
}

/// Combines the partial sums that reached the worker `who`. On the
/// coordinator `reports` holds one partial sum per worker, in the order of
/// the ranks, and the result is their total, combined from left to right
/// starting from `zero`; a set of any other size is refused. On every other
/// worker there is no total, whatever `reports` holds.
pub fn aggregate<T: Copy, C: Fn(T, T) -> T>(
    who: &WorkerIdentity,
    reports: &Vec<T>,
    zero: T,
    combine: &C,
) -> (outcome: Result<Option<T>, AggregationError>)
    requires
        role_at(who.rank) is Coordinator && reports.len() == who.world_size ==> accepts_all_pairs(
            *combine,
        ),
    ensures
        (match outcome {
            Ok(None) => role_at(who.rank) is Participant,
            Ok(Some(total)) => {
                &&& role_at(who.rank) is Coordinator
                &&& reports.len() == who.world_size
                &&& folds_to(zero, *combine, reports@, total)
            },
            Err(AggregationError::WrongReportCount { expected, received }) => {
                &&& role_at(who.rank) is Coordinator
                &&& reports.len() != who.world_size
                &&& expected == who.world_size
                &&& received == reports.len()
            },
        }),
{
    match role_of(who) {
        Role::Participant => Ok(None),
        Role::Coordinator => {
            if reports.len() != who.world_size {
                return Err(
                    AggregationError::WrongReportCount {
                        expected: who.world_size,
                        received: reports.len(),
                    },
                );
            }
            let mut total = zero;
            let mut rank: usize = 0;
            while rank < reports.len()
                invariant
                    rank <= reports.len(),
                    accepts_all_pairs(*combine),
                    folds_to(zero, *combine, reports@.take(rank as int), total),
                decreases reports.len() - rank,
            {
                let next = combine(total, reports[rank]);
                proof {
                    let upto = reports@.take(rank + 1);
                    assert(upto.drop_last() == reports@.take(rank as int));
                    assert(upto.last() == reports@[rank as int]);
                }
                rank = rank + 1;
                total = next;
            }
            proof {
                assert(reports@.take(reports.len() as int) == reports@);
            }
            Ok(Some(total))
        },
    }
}

} // verus!
