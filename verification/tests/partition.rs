use prime_partition::error::RunError;
use prime_partition::partition::{partition, Partition};

fn pairs(parts: &[Partition]) -> Vec<(usize, usize)> {
    parts.iter().map(|p| (p.start, p.length)).collect()
}

#[test]
fn even_split() {
    let parts = partition(6, 2).unwrap();
    assert_eq!(pairs(&parts), vec![(0, 3), (3, 3)]);
}

#[test]
fn last_slice_absorbs_the_remainder() {
    let parts = partition(5, 3).unwrap();
    assert_eq!(pairs(&parts), vec![(0, 1), (1, 1), (2, 3)]);
    let parts = partition(10, 4).unwrap();
    assert_eq!(pairs(&parts), vec![(0, 2), (2, 2), (4, 2), (6, 4)]);
}

#[test]
fn single_worker_spans_everything() {
    assert_eq!(pairs(&partition(7, 1).unwrap()), vec![(0, 7)]);
    assert_eq!(pairs(&partition(0, 1).unwrap()), vec![(0, 0)]);
}

#[test]
fn empty_range_gives_empty_slices() {
    let parts = partition(0, 4).unwrap();
    assert_eq!(pairs(&parts), vec![(0, 0), (0, 0), (0, 0), (0, 0)]);
}

#[test]
fn more_workers_than_elements() {
    let parts = partition(2, 5).unwrap();
    assert_eq!(pairs(&parts), vec![(0, 0), (0, 0), (0, 0), (0, 0), (0, 2)]);
}

#[test]
fn zero_workers_is_a_configuration_error() {
    assert_eq!(partition(6, 0), Err(RunError::Configuration));
    assert_eq!(partition(0, 0), Err(RunError::Configuration));
}

#[test]
fn slices_cover_every_index_once() {
    for n in 0usize..40 {
        for w in 1usize..45 {
            let parts = partition(n, w).unwrap();
            assert_eq!(parts.len(), w);
            let mut hits = vec![0usize; n];
            for p in parts.iter() {
                for k in p.start..p.start + p.length {
                    hits[k] += 1;
                }
            }
            assert!(hits.iter().all(|h| *h == 1), "n = {}, w = {}", n, w);
        }
    }
}

#[test]
fn slices_are_balanced() {
    for n in 0usize..40 {
        for w in 1usize..45 {
            let parts = partition(n, w).unwrap();
            let base = n / w;
            for (i, p) in parts.iter().enumerate() {
                assert_eq!(p.start, i * base);
                if i + 1 < w {
                    assert_eq!(p.length, base);
                } else {
                    assert_eq!(p.length, n - (w - 1) * base);
                }
            }
        }
    }
}

#[test]
fn largest_range_does_not_overflow() {
    let parts = partition(usize::MAX, 2).unwrap();
    let half = usize::MAX / 2;
    assert_eq!(pairs(&parts), vec![(0, half), (half, usize::MAX - half)]);
}
