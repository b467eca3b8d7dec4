use par_quadrature::aggregate::aggregate;
use par_quadrature::aggregate::role_of;
use par_quadrature::aggregate::AggregationError;
use par_quadrature::aggregate::Role;
use par_quadrature::batch::DEFAULT_BATCH_SIZE;
use par_quadrature::partition::partition;
use par_quadrature::partition::WorkerIdentity;
use par_quadrature::reduce::reduce;
use par_quadrature::reduce::Strategy;

fn integrand(x: f64) -> f64 {
    4.0 / (1.0 + x * x)
}

fn plus(a: f64, b: f64) -> f64 {
    a + b
}

fn partials(n: usize, world_size: usize, strategy: Strategy) -> Vec<f64> {
    let h = if n == 0 { 0.0 } else { 1.0 / n as f64 };
    (0..world_size)
        .map(|rank| {
            let share = partition(n, WorkerIdentity::new(rank, world_size).unwrap());
            reduce(
                &share,
                strategy,
                0.0,
                &|index: usize| integrand(h * (index as f64 - 0.5)),
                &plus,
                &|sum: f64| sum * h,
            )
        })
        .collect()
}

fn run(n: usize, world_size: usize, strategy: Strategy) -> f64 {
    let coordinator = WorkerIdentity::new(0, world_size).unwrap();
    let reports = partials(n, world_size, strategy);
    aggregate(&coordinator, &reports, 0.0, &plus).unwrap().unwrap()
}

fn close(a: f64, b: f64, relative: f64) -> bool {
    (a - b).abs() <= relative * a.abs().max(b.abs())
}

#[test]
fn rank_zero_coordinates() {
    assert_eq!(role_of(&WorkerIdentity { rank: 0, world_size: 1 }), Role::Coordinator);
    assert_eq!(role_of(&WorkerIdentity { rank: 0, world_size: 5 }), Role::Coordinator);
    assert_eq!(role_of(&WorkerIdentity { rank: 1, world_size: 5 }), Role::Participant);
    assert_eq!(role_of(&WorkerIdentity { rank: 4, world_size: 5 }), Role::Participant);
}

#[test]
fn participant_gets_no_total() {
    let who = WorkerIdentity::new(2, 3).unwrap();
    assert_eq!(aggregate(&who, &vec![1.5, 2.5, 3.0], 0.0, &plus), Ok(None));
    assert_eq!(aggregate(&who, &Vec::new(), 0.0, &plus), Ok(None));
}

#[test]
fn coordinator_folds_the_reports_in_rank_order() {
    let who = WorkerIdentity::new(0, 3).unwrap();
    let out = aggregate(&who, &vec![1u64, 2, 3], 0, &|a: u64, b: u64| 2 * a + b);
    assert_eq!(out, Ok(Some(11)));
    let out = aggregate(&who, &vec![1u64, 2, 3], 5, &|a: u64, b: u64| 2 * a + b);
    assert_eq!(out, Ok(Some(51)));
}

#[test]
fn single_worker_total_is_its_own_partial() {
    let who = WorkerIdentity::solo();
    assert_eq!(aggregate(&who, &vec![3.25], 0.0, &plus), Ok(Some(3.25)));
}

#[test]
fn missing_report_is_an_error() {
    let who = WorkerIdentity::new(0, 3).unwrap();
    assert_eq!(
        aggregate(&who, &vec![1.0, 2.0], 0.0, &plus),
        Err(AggregationError::WrongReportCount { expected: 3, received: 2 })
    );
    assert_eq!(
        aggregate(&who, &Vec::new(), 0.0, &plus),
        Err(AggregationError::WrongReportCount { expected: 3, received: 0 })
    );
}

#[test]
fn surplus_report_is_an_error() {
    let who = WorkerIdentity::new(0, 2).unwrap();
    assert_eq!(
        aggregate(&who, &vec![1.0, 2.0, 3.0], 0.0, &plus),
        Err(AggregationError::WrongReportCount { expected: 2, received: 3 })
    );
}

#[test]
fn total_equals_the_sum_of_the_partials() {
    for world_size in [1usize, 2, 3, 8] {
        let reports = partials(10_000, world_size, Strategy::Sequential);
        let outside: f64 = reports.iter().sum();
        let total = run(10_000, world_size, Strategy::Sequential);
        assert!(close(outside, total, 1e-12));
        assert!((total - 3.141_592_653_589_793).abs() < 1e-6);
    }
}

#[test]
fn total_in_exact_arithmetic_is_the_sum_over_all_indices() {
    for n in [0usize, 1, 10, 99, 4001] {
        for world_size in [1usize, 2, 5, 16] {
            let reports: Vec<u64> = (0..world_size)
                .map(|rank| {
                    let share = partition(n, WorkerIdentity::new(rank, world_size).unwrap());
                    reduce(
                        &share,
                        Strategy::Batched { batch_size: 7 },
                        0u64,
                        &|index: usize| (index * index) as u64,
                        &|a: u64, b: u64| a + b,
                        &|sum: u64| 3 * sum,
                    )
                })
                .collect();
            let coordinator = WorkerIdentity::new(0, world_size).unwrap();
            let total = aggregate(&coordinator, &reports, 0, &|a: u64, b: u64| a + b);
            let expected: u64 = 3 * (1..=n as u64).map(|index| index * index).sum::<u64>();
            assert_eq!(total, Ok(Some(expected)));
        }
    }
}

#[test]
fn no_samples_give_a_zero_total() {
    for world_size in 1..6 {
        for strategy in [Strategy::Sequential, Strategy::Batched { batch_size: DEFAULT_BATCH_SIZE }]
        {
            let reports = partials(0, world_size, strategy);
            assert!(reports.iter().all(|partial| partial.to_bits() == 0.0f64.to_bits()));
            assert_eq!(run(0, world_size, strategy).to_bits(), 0.0f64.to_bits());
        }
    }
}

#[test]
fn doubling_the_world_size_keeps_the_total() {
    for n in [100usize, 10_000, 12_345] {
        for world_size in [1usize, 2, 3, 8] {
            let fewer = run(n, world_size, Strategy::Sequential);
            let more = run(n, 2 * world_size, Strategy::Sequential);
            assert!(close(fewer, more, 1e-9));
            let batched = run(n, 2 * world_size, Strategy::Batched { batch_size: 100 });
            assert!(close(fewer, batched, 1e-9));
        }
    }
}

#[test]
fn hundred_samples_on_four_workers_give_pi_to_five_digits() {
    let total = run(100, 4, Strategy::Sequential);
    assert!((total - 3.141_592_653_589_793).abs() < 1e-5);
    assert!((total - 3.141_600_986_923_125).abs() < 1e-12);
}

#[test]
fn world_size_and_strategy_do_not_show_in_wrapping_arithmetic() {
    let term = |index: usize| (index as u64).wrapping_mul(0x9e37_79b9_7f4a_7c15);
    let combine = |a: u64, b: u64| a.wrapping_add(b);
    let scale = |sum: u64| sum.wrapping_mul(0xffff_ffff_0000_0003);
    let n = 10_007usize;
    let mut expected = 0u64;
    for index in 1..=n {
        expected = expected.wrapping_add(term(index));
    }
    expected = scale(expected);
    for world_size in [1usize, 2, 4, 8, 9, 16] {
        let reports: Vec<u64> = (0..world_size)
            .map(|rank| {
                let share = partition(n, WorkerIdentity::new(rank, world_size).unwrap());
                let strategy = if rank % 2 == 0 {
                    Strategy::Sequential
                } else {
                    Strategy::Batched { batch_size: 100 + rank }
                };
                reduce(&share, strategy, 0, &term, &combine, &scale)
            })
            .collect();
        let coordinator = WorkerIdentity::new(0, world_size).unwrap();
        assert_eq!(aggregate(&coordinator, &reports, 0, &combine), Ok(Some(expected)));
    }
}
