//! The strided assignment of global sample indices to workers.

use vstd::arithmetic::div_mod::lemma_fundamental_div_mod;
use vstd::arithmetic::div_mod::lemma_fundamental_div_mod_converse;
use vstd::prelude::*;

verus! {

/// The number of samples of a run that is told none.
pub const DEFAULT_RESOLUTION: usize = 100;

/// How many of the `n` samples the worker at `rank` owns: an even split, with
/// the remainder going one each to the lowest ranks.
pub open spec fn share_count(n: nat, rank: nat, world_size: nat) -> nat {
    n / world_size + if rank < n % world_size { 1nat } else { 0nat }
}

/// The global index (counted from 1) of the sample at `offset` in the share
/// of the worker at `rank`.
pub open spec fn strided_index(offset: nat, rank: nat, world_size: nat) -> nat {
    offset * world_size + rank + 1
}

/// The rank of the worker that the global index `index` (counted from 1)
/// falls to.
pub open spec fn owner_rank(index: nat, world_size: nat) -> nat {
    ((index - 1) % (world_size as int)) as nat
}

/// The local offset at which its owner meets the global index `index`
/// (counted from 1).
pub open spec fn owner_offset(index: nat, world_size: nat) -> nat {
    ((index - 1) / (world_size as int)) as nat
}

/// Whether the worker at `rank` is assigned the global index `index` when `n`
/// samples are dealt out to `world_size` workers.
pub open spec fn owns(n: nat, rank: nat, world_size: nat, index: nat) -> bool {
    exists|offset: nat|
        offset < share_count(n, rank, world_size) && #[trigger] strided_index(
            offset,
            rank,
            world_size,
        ) == index
}

/// Whether some worker among `world_size` is assigned the global index
/// `index` when `n` samples are dealt out.
pub open spec fn owned_by_some(n: nat, world_size: nat, index: nat) -> bool {
    exists|rank: nat| rank < world_size && #[trigger] owns(n, rank, world_size, index)
}

/// The number of samples owned by the workers of rank below `upto`, together.
pub open spec fn counts_below(n: nat, world_size: nat, upto: nat) -> nat
    decreases upto,
{
    if upto == 0 {
        0
    } else {
        counts_below(n, world_size, (upto - 1) as nat) + share_count(
            n,
            (upto - 1) as nat,
            world_size,
        )
    }
}

/// A worker's ordinal position among the workers of one run.
#[derive(Clone, Copy, Debug, PartialEq, Eq, Structural)]
pub struct WorkerIdentity {
    pub rank: usize,
    pub world_size: usize,
}

impl WorkerIdentity {
    /// The rank lies below the number of workers, so there is at least one.
    pub open spec fn wf(&self) -> bool {
        self.rank < self.world_size
    }

    /// The identity of the worker at `rank` among `world_size` workers, if
    /// there is such a worker.
    pub fn new(rank: usize, world_size: usize) -> (who: Option<WorkerIdentity>)
        ensures
            who.is_some() <==> rank < world_size,
            who matches Some(w) ==> w.rank == rank && w.world_size == world_size && w.wf(),
    {
        if rank < world_size {
            Some(WorkerIdentity { rank, world_size })
        } else {
            None
        }
    }

    /// The only worker of a run that is not distributed.
    pub fn solo() -> (who: WorkerIdentity)
        ensures
            who.rank == 0,
            who.world_size == 1,
            who.wf(),
    {
        WorkerIdentity { rank: 0, world_size: 1 }
    }
}

/// One worker's part of the `resolution` samples of a run: `count` samples,
/// the one at local offset `k` being the global sample
/// `k * world_size + rank + 1`.
#[derive(Clone, Copy, Debug, PartialEq, Eq, Structural)]
pub struct LocalShare {
    pub resolution: usize,
    pub rank: usize,
    pub world_size: usize,
    pub count: usize,
}

impl LocalShare {
    /// The share belongs to a worker of the run and holds exactly the count
    /// that the partition gives that worker.
    pub open spec fn wf(&self) -> bool {
        &&& self.rank < self.world_size
        &&& self.count == share_count(
            self.resolution as nat,
            self.rank as nat,
            self.world_size as nat,
        )
    }

    /// The global index of the sample at `offset` in this share.
    pub open spec fn index_at(&self, offset: nat) -> nat {
        strided_index(offset, self.rank as nat, self.world_size as nat)
    }

    /// Maps a local offset of this share to the global index of its sample.
    pub fn global_index(&self, local_offset: usize) -> (index: usize)
        requires
            self.wf(),
            local_offset < self.count,
        ensures
            index == self.index_at(local_offset as nat),
            1 <= index <= self.resolution,
    {
        proof {
            lemma_owned_index_in_range(
                self.resolution as nat,
                self.rank as nat,
                self.world_size as nat,
                local_offset as nat,
            );
        }
        local_offset * self.world_size + self.rank + 1
    }
}

/// The share of the worker at `rank` in a run of `world_size` workers over
/// `n` samples.
pub open spec fn share_of(n: usize, rank: usize, world_size: usize) -> LocalShare {
    LocalShare {
        resolution: n,
        rank,
        world_size,
        count: share_count(n as nat, rank as nat, world_size as nat) as usize,
    }
}

/// Computes the share of the `n` samples that falls to the worker `who`.
pub fn partition(n: usize, who: WorkerIdentity) -> (share: LocalShare)
    requires
        who.wf(),
    ensures
        share == share_of(n, who.rank, who.world_size),
        share.wf(),
{
    let base = n / who.world_size;
    let extra: usize = if who.rank < n % who.world_size { 1 } else { 0 };
    proof {
        lemma_share_count_fits(n as nat, who.rank as nat, who.world_size as nat);
    }
    LocalShare { resolution: n, rank: who.rank, world_size: who.world_size, count: base + extra }
}

/// Every sample that a worker owns has a global index between 1 and `n`.
pub proof fn lemma_owned_index_in_range(n: nat, rank: nat, world_size: nat, offset: nat)
    requires
        rank < world_size,
        offset < share_count(n, rank, world_size),
    ensures
        1 <= strided_index(offset, rank, world_size) <= n,
{
    let q = n / world_size;
    let m = n % world_size;
    lemma_fundamental_div_mod(n as int, world_size as int);
    assert(offset * world_size + rank + 1 <= n) by (nonlinear_arith)
        requires
            n == world_size * q + m,
            rank < world_size,
            0 <= m < world_size,
            rank < m ==> offset <= q,
            rank >= m ==> offset < q,
    ;
}

/// No worker's count exceeds the number of samples.
pub proof fn lemma_share_count_fits(n: nat, rank: nat, world_size: nat)
    requires
        rank < world_size,
    ensures
        share_count(n, rank, world_size) <= n,
{
    let count = share_count(n, rank, world_size);
    if count > 0 {
        lemma_owned_index_in_range(n, rank, world_size, (count - 1) as nat);
        assert(strided_index((count - 1) as nat, rank, world_size) >= count) by (nonlinear_arith)
            requires
                world_size >= 1,
                count >= 1,
                strided_index((count - 1) as nat, rank, world_size) == (count - 1) * world_size
                    + rank + 1,
        ;
    }
}

/// The global index `index` between 1 and `n` is owned by the worker of rank
/// `(index - 1) % world_size`, at local offset `(index - 1) / world_size`.
pub proof fn lemma_index_has_owner(n: nat, world_size: nat, index: nat)
    requires
        world_size >= 1,
        1 <= index <= n,
    ensures
        owner_rank(index, world_size) < world_size,
        owner_offset(index, world_size) < share_count(
            n,
            owner_rank(index, world_size),
            world_size,
        ),
        strided_index(
            owner_offset(index, world_size),
            owner_rank(index, world_size),
            world_size,
        ) == index,
        owns(n, owner_rank(index, world_size), world_size, index),
{
    let q = n / world_size;
    let m = n % world_size;
    let o = (index - 1) / world_size as int;
    let r = (index - 1) % world_size as int;
    lemma_fundamental_div_mod(n as int, world_size as int);
    lemma_fundamental_div_mod(index - 1, world_size as int);
    assert(0 <= o && (o < q || (o == q && r < m))) by (nonlinear_arith)
        requires
            n == world_size * q + m,
            index - 1 == world_size * o + r,
            0 <= r < world_size,
            0 <= m < world_size,
            1 <= index <= n,
            world_size >= 1,
    ;
    assert(o * world_size == world_size * o) by (nonlinear_arith);
    assert(strided_index(o as nat, r as nat, world_size) == index);
}

/// A global index determines the rank and the local offset that it came from.
pub proof fn lemma_owner_unique(
    world_size: nat,
    rank_a: nat,
    offset_a: nat,
    rank_b: nat,
    offset_b: nat,
)
    requires
        rank_a < world_size,
        rank_b < world_size,
        strided_index(offset_a, rank_a, world_size) == strided_index(offset_b, rank_b, world_size),
    ensures
        rank_a == rank_b,
        offset_a == offset_b,
{
    let x = offset_a * world_size + rank_a;
    lemma_fundamental_div_mod_converse(
        x as int,
        world_size as int,
        offset_a as int,
        rank_a as int,
    );
    lemma_fundamental_div_mod_converse(
        x as int,
        world_size as int,
        offset_b as int,
        rank_b as int,
    );
}

/// The workers' index sets partition `1..=n`: an index is owned by some
/// worker exactly when it lies between 1 and `n`, no index is owned by two
/// workers, and no worker meets an index at two of its offsets.
pub proof fn lemma_partition_complete(n: nat, world_size: nat)
    requires
        world_size >= 1,
    ensures
        forall|index: nat| #[trigger] owned_by_some(n, world_size, index) <==> 1 <= index <= n,
        forall|index: nat, rank_a: nat, rank_b: nat|
            rank_a < world_size && rank_b < world_size && #[trigger] owns(
                n,
                rank_a,
                world_size,
                index,
            ) && #[trigger] owns(n, rank_b, world_size, index) ==> rank_a == rank_b,
        forall|rank: nat, offset_a: nat, offset_b: nat|
            rank < world_size && #[trigger] strided_index(offset_a, rank, world_size)
                == #[trigger] strided_index(offset_b, rank, world_size) ==> offset_a == offset_b,
{
    assert forall|index: nat| 1 <= index <= n implies #[trigger] owned_by_some(
        n,
        world_size,
        index,
    ) by {
        lemma_index_has_owner(n, world_size, index);
        let rank = owner_rank(index, world_size);
        assert(rank < world_size && owns(n, rank, world_size, index));
    }
    assert forall|index: nat| #[trigger] owned_by_some(n, world_size, index) implies 1 <= index
        <= n by {
        let rank = choose|rank: nat| rank < world_size && #[trigger] owns(n, rank, world_size, index);
        let offset = choose|offset: nat|
            offset < share_count(n, rank, world_size) && #[trigger] strided_index(
                offset,
                rank,
                world_size,
            ) == index;
        lemma_owned_index_in_range(n, rank, world_size, offset);
    }
    assert forall|index: nat, rank_a: nat, rank_b: nat|
        rank_a < world_size && rank_b < world_size && #[trigger] owns(
            n,
            rank_a,
            world_size,
            index,
        ) && #[trigger] owns(n, rank_b, world_size, index) implies rank_a == rank_b by {
        let offset_a = choose|offset: nat|
            offset < share_count(n, rank_a, world_size) && #[trigger] strided_index(
                offset,
                rank_a,
                world_size,
            ) == index;
        let offset_b = choose|offset: nat|
            offset < share_count(n, rank_b, world_size) && #[trigger] strided_index(
                offset,
                rank_b,
                world_size,
            ) == index;
        lemma_owner_unique(world_size, rank_a, offset_a, rank_b, offset_b);
    }
    assert forall|rank: nat, offset_a: nat, offset_b: nat|
        rank < world_size && #[trigger] strided_index(offset_a, rank, world_size)
            == #[trigger] strided_index(offset_b, rank, world_size) implies offset_a
        == offset_b by {
        lemma_owner_unique(world_size, rank, offset_a, rank, offset_b);
    }
}

/// No two workers' counts differ by more than one, and a lower rank never
/// owns fewer samples than a higher one.
pub proof fn lemma_load_balance(n: nat, world_size: nat, rank_a: nat, rank_b: nat)
    requires
        world_size >= 1,
    ensures
        share_count(n, rank_a, world_size) <= share_count(n, rank_b, world_size) + 1,
        share_count(n, rank_b, world_size) <= share_count(n, rank_a, world_size) + 1,
        rank_a <= rank_b ==> share_count(n, rank_a, world_size) >= share_count(
            n,
            rank_b,
            world_size,
        ),
{
}

/// The workers of rank below `upto` own `upto` even parts of `n` and the
/// first `upto` units of the remainder, as far as it reaches.
proof fn lemma_counts_below(n: nat, world_size: nat, upto: nat)
    requires
        world_size >= 1,
    ensures
        counts_below(n, world_size, upto) == upto * (n / world_size) + (if upto <= n
            % world_size {
            upto
        } else {
            n % world_size
        }),
    decreases upto,
{
    let q = n / world_size;
    if upto > 0 {
        lemma_counts_below(n, world_size, (upto - 1) as nat);
        assert(upto * q == (upto - 1) * q + q) by (nonlinear_arith);
    } else {
        assert(upto * q == 0) by (nonlinear_arith)
            requires
                upto == 0,
        ;
    }
}

/// The counts of all workers add up to `n`.
pub proof fn lemma_counts_total(n: nat, world_size: nat)
    requires
        world_size >= 1,
    ensures
        counts_below(n, world_size, world_size) == n,
{
    lemma_counts_below(n, world_size, world_size);
    lemma_fundamental_div_mod(n as int, world_size as int);
}

/// With `n == 0` no worker owns a sample.
pub proof fn lemma_empty_resolution(rank: nat, world_size: nat)
    requires
        world_size >= 1,
    ensures
        share_count(0, rank, world_size) == 0,
{
    assert(0nat / world_size == 0 && 0nat % world_size == 0) by (nonlinear_arith)
        requires
            world_size >= 1,
    ;
}

/// A worker that runs alone owns every sample, in order: its count is `n`
/// and the sample at offset `k` is the global sample `k + 1`.
pub proof fn lemma_solo_share(n: nat, offset: nat)
    ensures
        share_count(n, 0, 1) == n,
        strided_index(offset, 0, 1) == offset + 1,
{
}

} // verus!
