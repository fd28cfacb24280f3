use prime_partition::coordinator::run_all;
use prime_partition::error::RunError;
use prime_partition::sink::{decimal_string, total_line};
use prime_partition::worker::WorkerResult;

#[test]
fn decimal_of_small_numbers() {
    assert_eq!(decimal_string(0), "0");
    assert_eq!(decimal_string(7), "7");
    assert_eq!(decimal_string(9), "9");
    assert_eq!(decimal_string(10), "10");
    assert_eq!(decimal_string(101), "101");
    assert_eq!(decimal_string(1234567890), "1234567890");
}

#[test]
fn decimal_agrees_with_the_standard_formatter() {
    for n in (0usize..3000).chain([usize::MAX, usize::MAX - 1, usize::MAX / 10, 1 << 31]) {
        assert_eq!(decimal_string(n), format!("{}", n));
    }
}

#[test]
fn total_line_has_its_prefix() {
    assert_eq!(total_line(4), "Total prime numbers found: 4");
    assert_eq!(total_line(0), "Total prime numbers found: 0");
    assert_eq!(total_line(1200), "Total prime numbers found: 1200");
}

#[test]
fn worker_writes_one_line_per_prime_in_order() {
    let found = WorkerResult { worker_id: 3, prime_count: 4, primes_found: vec![13, 2, 101, 2] };
    assert_eq!(found.prime_lines(), vec!["13", "2", "101", "2"]);
    let none = WorkerResult { worker_id: 0, prime_count: 0, primes_found: Vec::new() };
    assert!(none.prime_lines().is_empty());
}

#[test]
fn worker_block_ends_every_line() {
    let found = WorkerResult { worker_id: 3, prime_count: 4, primes_found: vec![13, 2, 101, 2] };
    assert_eq!(found.prime_block(), "13\n2\n101\n2\n");
    let one = WorkerResult { worker_id: 1, prime_count: 1, primes_found: vec![7] };
    assert_eq!(one.prime_block(), "7\n");
    let none = WorkerResult { worker_id: 0, prime_count: 0, primes_found: Vec::new() };
    assert_eq!(none.prime_block(), "");
}

#[test]
fn sink_of_an_empty_run_holds_only_the_total() {
    for w in 1usize..5 {
        let report = run_all(&[], w).unwrap();
        assert_eq!(report.sink_lines(), vec!["Total prime numbers found: 0"]);
    }
}

#[test]
fn sink_holds_the_same_primes_for_every_worker_count() {
    let dataset: Vec<usize> = vec![4, 5, 29, 8, 2, 2, 31, 9, 15, 3];
    let mut expected: Vec<String> =
        vec!["5", "29", "2", "2", "31", "3"].into_iter().map(String::from).collect();
    expected.push(String::from("Total prime numbers found: 6"));
    for w in 1usize..14 {
        assert_eq!(run_all(&dataset, w).unwrap().sink_lines(), expected, "w = {}", w);
    }
}

#[test]
fn every_error_has_its_description() {
    assert_eq!(
        RunError::Configuration.describe(),
        "configuration error: the worker count must be at least 1"
    );
    assert_eq!(
        RunError::Load.describe(),
        "load error: every input line must hold two integers separated by a comma"
    );
    assert_eq!(
        RunError::WorkerFault.describe(),
        "worker fault: the assigned slice reaches beyond the dataset"
    );
}

#[test]
fn any_order_of_blocks_holds_the_same_primes() {
    let dataset: Vec<usize> = vec![4, 5, 29, 8, 2, 2, 31, 9, 15, 3, 7];
    let report = run_all(&dataset, 3).unwrap();
    let mut expected: Vec<usize> = vec![5, 29, 2, 2, 31, 3, 7];
    expected.sort();
    let orders: [[usize; 3]; 6] =
        [[0, 1, 2], [0, 2, 1], [1, 0, 2], [1, 2, 0], [2, 0, 1], [2, 1, 0]];
    for order in orders.iter() {
        let mut sink = String::new();
        for worker in order.iter() {
            sink.push_str(&report.results[*worker].prime_block());
        }
        let mut lines: Vec<usize> = sink.lines().map(|l| l.parse().unwrap()).collect();
        assert_eq!(lines.len(), report.total);
        lines.sort();
        assert_eq!(lines, expected);
    }
}
