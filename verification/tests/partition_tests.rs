use par_quadrature::batch::BatchPlan;
use par_quadrature::batch::DEFAULT_BATCH_SIZE;
use par_quadrature::partition::partition;
use par_quadrature::partition::LocalShare;
use par_quadrature::partition::WorkerIdentity;
use par_quadrature::partition::DEFAULT_RESOLUTION;

fn share(n: usize, rank: usize, world_size: usize) -> LocalShare {
    partition(n, WorkerIdentity::new(rank, world_size).unwrap())
}

fn indices(share: &LocalShare) -> Vec<usize> {
    (0..share.count).map(|offset| share.global_index(offset)).collect()
}

#[test]
fn identity_needs_a_rank_below_the_world_size() {
    assert_eq!(WorkerIdentity::new(0, 1), Some(WorkerIdentity { rank: 0, world_size: 1 }));
    assert_eq!(WorkerIdentity::new(2, 3), Some(WorkerIdentity { rank: 2, world_size: 3 }));
    assert_eq!(WorkerIdentity::new(3, 3), None);
    assert_eq!(WorkerIdentity::new(0, 0), None);
    assert_eq!(WorkerIdentity::new(7, 2), None);
}

#[test]
fn solo_worker_is_rank_zero_of_one() {
    assert_eq!(WorkerIdentity::solo(), WorkerIdentity { rank: 0, world_size: 1 });
}

#[test]
fn default_resolution_is_one_hundred() {
    assert_eq!(DEFAULT_RESOLUTION, 100);
}

#[test]
fn remainder_goes_to_the_lowest_ranks() {
    assert_eq!(share(10, 0, 3).count, 4);
    assert_eq!(share(10, 1, 3).count, 3);
    assert_eq!(share(10, 2, 3).count, 3);
    assert_eq!(share(11, 0, 3).count, 4);
    assert_eq!(share(11, 1, 3).count, 4);
    assert_eq!(share(11, 2, 3).count, 3);
    assert_eq!(share(12, 2, 3).count, 4);
}

#[test]
fn share_records_the_run_it_belongs_to() {
    assert_eq!(
        share(10, 1, 3),
        LocalShare { resolution: 10, rank: 1, world_size: 3, count: 3 }
    );
}

#[test]
fn indices_are_strided_by_the_world_size() {
    assert_eq!(indices(&share(10, 0, 3)), vec![1, 4, 7, 10]);
    assert_eq!(indices(&share(10, 1, 3)), vec![2, 5, 8]);
    assert_eq!(indices(&share(10, 2, 3)), vec![3, 6, 9]);
    assert_eq!(share(1_000_000, 3, 8).global_index(124_999), 999_996);
}

#[test]
fn solo_share_is_every_index_in_order() {
    let all = share(6, 0, 1);
    assert_eq!(all.count, 6);
    assert_eq!(indices(&all), vec![1, 2, 3, 4, 5, 6]);
}

#[test]
fn no_samples_leave_every_worker_empty() {
    for world_size in 1..6 {
        for rank in 0..world_size {
            assert_eq!(share(0, rank, world_size).count, 0);
        }
    }
}

#[test]
fn more_workers_than_samples_leave_the_high_ranks_empty() {
    assert_eq!(indices(&share(2, 0, 4)), vec![1]);
    assert_eq!(indices(&share(2, 1, 4)), vec![2]);
    assert_eq!(share(2, 2, 4).count, 0);
    assert_eq!(share(2, 3, 4).count, 0);
}

#[test]
fn shares_cover_every_index_exactly_once() {
    for n in [0usize, 1, 2, 7, 10, 64, 99, 100, 101] {
        for world_size in [1usize, 2, 3, 4, 7, 10, 13, 128] {
            let mut seen = vec![0u32; n + 1];
            for rank in 0..world_size {
                for index in indices(&share(n, rank, world_size)) {
                    assert!(1 <= index && index <= n);
                    assert_eq!((index - 1) % world_size, rank);
                    seen[index] += 1;
                }
            }
            assert_eq!(seen[0], 0);
            assert!(seen[1..].iter().all(|&times| times == 1));
        }
    }
}

#[test]
fn counts_differ_by_at_most_one_and_add_up() {
    for n in [0usize, 1, 5, 10, 11, 1000, 1001] {
        for world_size in [1usize, 2, 3, 8, 17] {
            let counts: Vec<usize> =
                (0..world_size).map(|rank| share(n, rank, world_size).count).collect();
            let most = *counts.iter().max().unwrap();
            let least = *counts.iter().min().unwrap();
            assert!(most - least <= 1);
            assert!(counts.windows(2).all(|pair| pair[0] >= pair[1]));
            assert_eq!(counts.iter().sum::<usize>(), n);
        }
    }
}

#[test]
fn largest_resolution_does_not_overflow() {
    let last = share(usize::MAX, 0, 1);
    assert_eq!(last.count, usize::MAX);
    assert_eq!(last.global_index(usize::MAX - 1), usize::MAX);
    let high = share(usize::MAX, 1, 2);
    assert_eq!(high.count, usize::MAX / 2);
    assert_eq!(high.global_index(high.count - 1), usize::MAX - 1);
}

#[test]
fn default_batch_size_is_two_thousand() {
    assert_eq!(DEFAULT_BATCH_SIZE, 2000);
}

#[test]
fn plan_splits_into_full_batches_and_a_tail() {
    let plan = BatchPlan::new(4500, DEFAULT_BATCH_SIZE);
    assert_eq!(
        plan,
        BatchPlan { count: 4500, batch_size: 2000, full_batches: 2, remainder: 500 }
    );
    assert_eq!(plan.batch_bounds(0), (0, 2000));
    assert_eq!(plan.batch_bounds(1), (2000, 4000));
    assert_eq!(plan.tail_bounds(), (4000, 4500));
}

#[test]
fn plan_without_a_tail() {
    let plan = BatchPlan::new(6000, 2000);
    assert_eq!(plan.full_batches, 3);
    assert_eq!(plan.remainder, 0);
    assert_eq!(plan.batch_bounds(2), (4000, 6000));
    assert_eq!(plan.tail_bounds(), (6000, 6000));
}

#[test]
fn plan_shorter_than_one_batch_is_all_tail() {
    let plan = BatchPlan::new(1999, 2000);
    assert_eq!(plan.full_batches, 0);
    assert_eq!(plan.remainder, 1999);
    assert_eq!(plan.tail_bounds(), (0, 1999));
    let empty = BatchPlan::new(0, 2000);
    assert_eq!(empty.full_batches, 0);
    assert_eq!(empty.tail_bounds(), (0, 0));
}

#[test]
fn plan_pieces_tile_the_offsets() {
    for count in [0usize, 1, 9, 10, 11, 57] {
        for batch_size in [1usize, 2, 5, 10, 100] {
            let plan = BatchPlan::new(count, batch_size);
            let mut next = 0;
            for batch in 0..plan.full_batches {
                let (start, end) = plan.batch_bounds(batch);
                assert_eq!(start, next);
                assert_eq!(end - start, batch_size);
                next = end;
            }
            let (start, end) = plan.tail_bounds();
            assert_eq!(start, next);
            assert_eq!(end, count);
            assert!(end - start < batch_size);
        }
    }
}
