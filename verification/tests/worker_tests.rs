use elm_test::interface::TestIdentity;
use elm_test::module_name::ModuleName;
use elm_test::worker::{
    aggregate_report, partition, pool_size, worker_pool_size, TestOutcome, WorkerStatus,
};
use elm_test::errors::Abort;
use elm_test::plan::exit_code;

fn identity(module: &str, symbol: &str) -> TestIdentity {
    TestIdentity {
        module: ModuleName {
            segments: vec![String::from(module)],
        },
        symbol: symbol.as_bytes().to_vec(),
    }
}

fn identities(n: usize) -> Vec<TestIdentity> {
    (0..n).map(|i| identity("M", &format!("t{}", i))).collect()
}

#[test]
fn pool_size_is_floored_at_one() {
    assert_eq!(pool_size(0), 1);
    assert_eq!(pool_size(1), 1);
    assert_eq!(pool_size(8), 8);
}

#[test]
fn detected_pool_size_is_positive() {
    assert!(worker_pool_size() >= 1);
}

#[test]
fn ten_tests_over_four_slots_split_near_equal() {
    // 4 logical processors, 10 discovered tests: 4 slots, sized 3/3/2/2.
    let parts = partition(identities(10), 4);
    let sizes: Vec<usize> = parts.iter().map(|p| p.len()).collect();
    assert_eq!(sizes, vec![3, 3, 2, 2]);
    let flat: Vec<String> = parts
        .iter()
        .flat_map(|p| p.iter().map(|t| String::from_utf8(t.symbol.clone()).unwrap()))
        .collect();
    let expected: Vec<String> = (0..10).map(|i| format!("t{}", i)).collect();
    assert_eq!(flat, expected);
}

#[test]
fn scarce_tests_fill_fewer_slots() {
    let parts = partition(identities(2), 4);
    assert_eq!(parts.len(), 2);
    assert!(parts.iter().all(|p| p.len() == 1));
}

#[test]
fn no_tests_fill_no_slot() {
    let parts = partition(identities(0), 4);
    assert!(parts.is_empty());
}

#[test]
fn even_split_without_remainder() {
    let parts = partition(identities(8), 4);
    let sizes: Vec<usize> = parts.iter().map(|p| p.len()).collect();
    assert_eq!(sizes, vec![2, 2, 2, 2]);
}

#[test]
fn all_passing_run_succeeds() {
    let parts = partition(identities(4), 2);
    let statuses = vec![
        WorkerStatus::Exited {
            success: true,
            outcomes: vec![TestOutcome::Passed, TestOutcome::Passed],
        },
        WorkerStatus::Exited {
            success: true,
            outcomes: vec![TestOutcome::Passed, TestOutcome::Passed],
        },
    ];
    let report = aggregate_report(&parts, &statuses).unwrap();
    assert!(report.success);
    assert_eq!(report.results.len(), 4);
    assert_eq!(exit_code(&report), 0);
}

#[test]
fn one_failing_test_fails_the_run() {
    let parts = partition(identities(2), 2);
    let statuses = vec![
        WorkerStatus::Exited {
            success: true,
            outcomes: vec![TestOutcome::Passed],
        },
        WorkerStatus::Exited {
            success: true,
            outcomes: vec![TestOutcome::Failed],
        },
    ];
    let report = aggregate_report(&parts, &statuses).unwrap();
    assert!(!report.success);
    assert_eq!(exit_code(&report), 1);
}

#[test]
fn abnormal_worker_exit_fails_its_partition_but_keeps_the_rest() {
    let parts = partition(identities(4), 2);
    let statuses = vec![
        WorkerStatus::Exited {
            success: false,
            outcomes: vec![TestOutcome::Passed, TestOutcome::Passed],
        },
        WorkerStatus::Exited {
            success: true,
            outcomes: vec![TestOutcome::Passed, TestOutcome::Passed],
        },
    ];
    let report = aggregate_report(&parts, &statuses).unwrap();
    assert!(!report.success);
    assert_eq!(report.results.len(), 4);
    assert!(matches!(report.results[0].outcome, TestOutcome::Failed));
    assert!(matches!(report.results[1].outcome, TestOutcome::Failed));
    assert!(matches!(report.results[2].outcome, TestOutcome::Passed));
    assert!(matches!(report.results[3].outcome, TestOutcome::Passed));
}

#[test]
fn unspawned_worker_is_fatal() {
    let parts = partition(identities(2), 2);
    let statuses = vec![
        WorkerStatus::NotSpawned,
        WorkerStatus::Exited {
            success: true,
            outcomes: vec![TestOutcome::Passed],
        },
    ];
    assert!(matches!(
        aggregate_report(&parts, &statuses),
        Err(Abort::SpawnFailed)
    ));
}

#[test]
fn errored_outcome_fails_the_run() {
    let parts = partition(identities(1), 1);
    let statuses = vec![WorkerStatus::Exited {
        success: true,
        outcomes: vec![TestOutcome::Errored],
    }];
    let report = aggregate_report(&parts, &statuses).unwrap();
    assert!(!report.success);
}
