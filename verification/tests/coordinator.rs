use prime_partition::coordinator::{grand_total, run_all};
use prime_partition::error::RunError;
use prime_partition::worker::{count_primes, WorkerResult};

#[test]
fn end_to_end_two_workers() {
    let dataset: Vec<usize> = vec![2, 3, 4, 5, 6, 7];
    let report = run_all(&dataset, 2).unwrap();
    assert_eq!(report.results.len(), 2);
    assert_eq!(report.results[0].worker_id, 0);
    assert_eq!(report.results[0].primes_found, vec![2, 3]);
    assert_eq!(report.results[0].prime_count, 2);
    assert_eq!(report.results[1].worker_id, 1);
    assert_eq!(report.results[1].primes_found, vec![5, 7]);
    assert_eq!(report.results[1].prime_count, 2);
    assert_eq!(report.total, 4);
}

#[test]
fn empty_dataset_totals_zero() {
    let dataset: Vec<usize> = Vec::new();
    for w in 1usize..6 {
        let report = run_all(&dataset, w).unwrap();
        assert_eq!(report.results.len(), w);
        for (i, r) in report.results.iter().enumerate() {
            assert_eq!(r.worker_id, i);
            assert_eq!(r.prime_count, 0);
            assert!(r.primes_found.is_empty());
        }
        assert_eq!(report.total, 0);
    }
}

#[test]
fn zero_workers_stops_the_run() {
    let dataset: Vec<usize> = vec![2, 3, 4];
    assert_eq!(run_all(&dataset, 0).map(|r| r.total), Err(RunError::Configuration));
    assert_eq!(run_all(&[], 0).map(|r| r.total), Err(RunError::Configuration));
}

#[test]
fn total_matches_the_reference_scan_for_every_worker_count() {
    let dataset: Vec<usize> = (0usize..60).map(|i| (i * 37 + 11) % 101).collect();
    let reference = count_primes(&dataset);
    let all: Vec<usize> = run_all(&dataset, 1).unwrap().results[0].primes_found.clone();
    assert_eq!(all.len(), reference);
    for w in 1..=dataset.len() + 3 {
        let report = run_all(&dataset, w).unwrap();
        assert_eq!(report.total, reference, "w = {}", w);
        let counts: usize = report.results.iter().map(|r| r.prime_count).sum();
        assert_eq!(counts, reference);
        let joined: Vec<usize> =
            report.results.iter().flat_map(|r| r.primes_found.iter().copied()).collect();
        assert_eq!(joined, all, "w = {}", w);
    }
}

#[test]
fn repeated_runs_agree() {
    let dataset: Vec<usize> = vec![13, 4, 6, 7, 7, 2, 100, 97, 1, 0, 3];
    let first = run_all(&dataset, 3).unwrap();
    let second = run_all(&dataset, 3).unwrap();
    assert_eq!(first.total, second.total);
    assert_eq!(first.total, 6);
    for (a, b) in first.results.iter().zip(second.results.iter()) {
        assert_eq!(a.worker_id, b.worker_id);
        assert_eq!(a.prime_count, b.prime_count);
        assert_eq!(a.primes_found, b.primes_found);
    }
    assert_eq!(first.sink_lines(), second.sink_lines());
}

fn result(worker_id: usize, prime_count: usize) -> WorkerResult {
    WorkerResult { worker_id, prime_count, primes_found: Vec::new() }
}

#[test]
fn grand_total_sums_the_counts() {
    assert_eq!(grand_total(&[]), Some(0));
    assert_eq!(grand_total(&[result(0, 2), result(1, 2)]), Some(4));
    assert_eq!(grand_total(&[result(0, 5), result(1, 0), result(2, 12)]), Some(17));
    assert_eq!(grand_total(&[result(0, usize::MAX), result(1, 0)]), Some(usize::MAX));
}

#[test]
fn grand_total_that_does_not_fit_is_none() {
    assert_eq!(grand_total(&[result(0, usize::MAX), result(1, 1)]), None);
    assert_eq!(grand_total(&[result(0, usize::MAX), result(1, 1), result(2, 0)]), None);
    assert_eq!(grand_total(&[result(0, 1), result(1, usize::MAX - 1), result(2, 1)]), None);
}
