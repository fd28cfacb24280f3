//! The coordinator: hands each worker its slice, and sums the per-worker
//! counts into the grand total once every worker is done.

use vstd::prelude::*;
use crate::error::RunError;
use crate::partition::{
    is_partitioning,
    lemma_empty_range,
    lemma_slice_start_bound,
    lemma_slices_tile,
    partition,
    slice_length,
    slice_start,
    Partition,
};
use crate::worker::{
    lemma_primes_of_len,
    lemma_primes_of_split,
    primes_of,
    run_worker,
    WorkerResult,
};

verus! {

/// The elements of `dataset` that fall to worker `i` of `w`.
pub open spec fn worker_slice(dataset: Seq<usize>, w: nat, i: int) -> Seq<usize>
    recommends
        w >= 1,
        0 <= i < w,
{
    dataset.subrange(
        slice_start(dataset.len(), w, i),
        slice_start(dataset.len(), w, i) + slice_length(dataset.len(), w, i),
    )
}

/// The primes that worker `i` of `w` finds in `dataset`.
pub open spec fn worker_primes(dataset: Seq<usize>, w: nat, i: int) -> Seq<usize>
    recommends
        w >= 1,
        0 <= i < w,
{
    primes_of(worker_slice(dataset, w, i))
}

/// The primes found by workers `0 .. k`, one worker's block after the other.
pub open spec fn primes_of_first(dataset: Seq<usize>, w: nat, k: nat) -> Seq<usize>
    recommends
        w >= 1,
        k <= w,
    decreases k,
{
    if k == 0 {
        Seq::empty()
    } else {
        primes_of_first(dataset, w, (k - 1) as nat) + worker_primes(dataset, w, k - 1)
    }
}

/// The sum of the counts that the results report.
pub open spec fn sum_counts(results: Seq<WorkerResult>) -> nat
    decreases results.len(),
{
    if results.len() == 0 {
        0
    } else {
        sum_counts(results.drop_last()) + results.last().prime_count as nat
    }
}

/// The primes that the results hold, one worker's block after the other.
pub open spec fn all_primes(results: Seq<WorkerResult>) -> Seq<usize>
    decreases results.len(),
{
    if results.len() == 0 {
        Seq::empty()
    } else {
        all_primes(results.drop_last()) + results.last().primes_found@
    }
}

/// `results` holds, in worker order, what the first `results.len()` of `w`
/// workers owe for `dataset`.
pub open spec fn is_run_prefix(results: Seq<WorkerResult>, dataset: Seq<usize>, w: nat) -> bool {
    &&& results.len() <= w
    &&& forall|i: int|
        0 <= i < results.len() ==> {
            &&& (#[trigger] results[i]).worker_id == i
            &&& results[i].primes_found@ == worker_primes(dataset, w, i)
            &&& results[i].wf()
        }
}

/// `results` holds, in worker order, what each of `w` workers owes for
/// `dataset`.
pub open spec fn is_run_of(results: Seq<WorkerResult>, dataset: Seq<usize>, w: nat) -> bool {
    results.len() == w && is_run_prefix(results, dataset, w)
}

/// Whatever the first `k` workers find, taken together and in worker order,
/// is what a single scan finds up to the start of slice `k`.
pub proof fn lemma_primes_of_first(dataset: Seq<usize>, w: nat, k: nat)
    requires
        w >= 1,
        k < w,
    ensures
        primes_of_first(dataset, w, k) == primes_of(
            dataset.subrange(0, slice_start(dataset.len(), w, k as int)),
        ),
    decreases k,
{
    let n = dataset.len();
    lemma_slices_tile(n, w);
    lemma_slice_start_bound(n, w, k as int);
    if k == 0 {
        assert(dataset.subrange(0, 0) =~= Seq::<usize>::empty());
        assert(primes_of(Seq::<usize>::empty()) =~= Seq::<usize>::empty());
    } else {
        lemma_primes_of_first(dataset, w, (k - 1) as nat);
        lemma_slice_start_bound(n, w, k - 1);
        let a = slice_start(n, w, k - 1);
        assert(a + slice_length(n, w, k - 1) == slice_start(n, w, k as int));
        lemma_primes_of_split(dataset, 0, a, slice_start(n, w, k as int));
    }
}

/// Aggregation: the blocks of all `w` workers, in worker order, make up
/// exactly the primes that a single scan of the whole dataset finds, in the
/// same order. In particular there are as many of them.
pub proof fn lemma_workers_find_all(dataset: Seq<usize>, w: nat)
    requires
        w >= 1,
    ensures
        primes_of_first(dataset, w, w) == primes_of(dataset),
{
    let n = dataset.len();
    let last = (w - 1) as nat;
    lemma_slices_tile(n, w);
    lemma_slice_start_bound(n, w, w - 1);
    lemma_primes_of_first(dataset, w, last);
    lemma_primes_of_split(dataset, 0, slice_start(n, w, w - 1), n as int);
    assert(dataset.subrange(0, n as int) =~= dataset);
}

/// The blocks of the first workers are what the results hold, and the counts
/// that the results report add up to the number of primes in them.
pub proof fn lemma_blocks_of_run(results: Seq<WorkerResult>, dataset: Seq<usize>, w: nat)
    requires
        is_run_prefix(results, dataset, w),
    ensures
        all_primes(results) == primes_of_first(dataset, w, results.len()),
        sum_counts(results) == all_primes(results).len(),
    decreases results.len(),
{
    if results.len() > 0 {
        let k = results.len() - 1;
        assert(results.drop_last().len() == k);
        assert forall|i: int| 0 <= i < k implies {
            &&& (#[trigger] results.drop_last()[i]).worker_id == i
            &&& results.drop_last()[i].primes_found@ == worker_primes(dataset, w, i)
            &&& results.drop_last()[i].wf()
        } by {
            assert(results.drop_last()[i] == results[i]);
        }
        lemma_blocks_of_run(results.drop_last(), dataset, w);
        assert(results.last() == results[k]);
    }
}

/// The aggregation law: after a run of `w` workers over `dataset`, the sum of
/// the counts they report is the number of primes in the whole dataset, as a
/// single scan counts them, and their blocks in worker order are those
/// primes. It holds for every `w >= 1`, also where `w` is 1, the dataset's
/// length, or more.
pub proof fn lemma_grand_total(results: Seq<WorkerResult>, dataset: Seq<usize>, w: nat)
    requires
        w >= 1,
        is_run_of(results, dataset, w),
    ensures
        all_primes(results) == primes_of(dataset),
        sum_counts(results) == primes_of(dataset).len(),
        sum_counts(results) <= dataset.len(),
{
    lemma_blocks_of_run(results, dataset, w);
    lemma_workers_find_all(dataset, w);
    lemma_primes_of_len(dataset);
}

/// Two runs over the same dataset with the same worker count agree: each
/// worker finds the same primes in the same order, and the totals are equal.
pub proof fn lemma_runs_agree(
    first: Seq<WorkerResult>,
    second: Seq<WorkerResult>,
    dataset: Seq<usize>,
    w: nat,
)
    requires
        w >= 1,
        is_run_of(first, dataset, w),
        is_run_of(second, dataset, w),
    ensures
        forall|i: int|
            0 <= i < w ==> {
                &&& (#[trigger] first[i]).worker_id == second[i].worker_id
                &&& first[i].primes_found@ == second[i].primes_found@
                &&& first[i].prime_count == second[i].prime_count
            },
        sum_counts(first) == sum_counts(second),
{
    lemma_grand_total(first, dataset, w);
    lemma_grand_total(second, dataset, w);
}

/// With nothing to scan every slice is empty, no worker finds a prime, and
/// the total is zero, whatever the worker count.
pub proof fn lemma_empty_dataset(results: Seq<WorkerResult>, w: nat)
    requires
        w >= 1,
        is_run_of(results, Seq::<usize>::empty(), w),
    ensures
        forall|i: int|
            0 <= i < w ==> #[trigger] slice_start(0, w, i) == 0 && slice_length(0, w, i) == 0,
        forall|i: int|
            0 <= i < w ==> (#[trigger] results[i]).prime_count == 0
                && results[i].primes_found@.len() == 0,
        sum_counts(results) == 0,
{
    let nothing = Seq::<usize>::empty();
    lemma_empty_range(w);
    lemma_grand_total(results, nothing, w);
    assert forall|i: int| 0 <= i < w implies (#[trigger] results[i]).prime_count == 0
        && results[i].primes_found@.len() == 0 by {
        assert(results[i].wf());
        assert(slice_start(0, w, i) == 0 && slice_length(0, w, i) == 0);
        assert(worker_slice(nothing, w, i).len() == 0);
        lemma_primes_of_len(worker_slice(nothing, w, i));
    }
}

/// Sums the workers' counts, in the order given. The sum of any run's counts
/// fits; for other inputs `None` says that it does not.
pub fn grand_total(results: &[WorkerResult]) -> (total: Option<usize>)
    ensures
        sum_counts(results@) <= usize::MAX ==> total == Some(sum_counts(results@) as usize),
        sum_counts(results@) > usize::MAX ==> total is None,
{
    let mut total: usize = 0;
    let mut i: usize = 0;
    assert(results@.subrange(0, 0) =~= Seq::<WorkerResult>::empty());
    while i < results.len()
        invariant
            i <= results@.len(),
            total == sum_counts(results@.subrange(0, i as int)),
        decreases results@.len() - i,
    {
        proof {
            assert(results@.subrange(0, i + 1).drop_last() =~= results@.subrange(0, i as int));
            assert(results@.subrange(0, i + 1).last() == results@[i as int]);
        }
        match total.checked_add(results[i].prime_count) {
            Some(next) => {
                total = next;
            },
            None => {
                proof {
                    lemma_sum_counts_grows(results@, i + 1);
                }
                return None;
            },
        }
        i += 1;
    }
    assert(results@.subrange(0, i as int) =~= results@);
    Some(total)
}

/// The counts of a part of the results sum to no more than those of all.
proof fn lemma_sum_counts_grows(results: Seq<WorkerResult>, k: int)
    requires
        0 <= k <= results.len(),
    ensures
        sum_counts(results.subrange(0, k)) <= sum_counts(results),
    decreases results.len() - k,
{
    if k == results.len() {
        assert(results.subrange(0, k) =~= results);
    } else {
        lemma_sum_counts_grows(results, k + 1);
        assert(results.subrange(0, k + 1).drop_last() =~= results.subrange(0, k));
    }
}

/// What a finished run reports: every worker's result, in worker order, and
/// the grand total.
#[derive(Clone, Debug)]
pub struct RunReport {
    pub results: Vec<WorkerResult>,
    pub total: usize,
}

/// One whole run on a single thread: partitions the dataset among `w`
/// workers, lets each scan its slice in worker order, and sums their counts.
///
/// A worker count of zero is a configuration error and nothing is scanned;
/// every other run succeeds, and its total is the number of primes in the
/// dataset.
pub fn run_all(dataset: &[usize], w: usize) -> (outcome: Result<RunReport, RunError>)
    ensures
        w == 0 ==> outcome is Err && outcome->Err_0 == RunError::Configuration,
        w >= 1 ==> outcome is Ok && is_run_of(outcome->Ok_0.results@, dataset@, w as nat)
            && outcome->Ok_0.total == sum_counts(outcome->Ok_0.results@)
            && outcome->Ok_0.total == primes_of(dataset@).len(),
{
    let parts: Vec<Partition> = match partition(dataset.len(), w) {
        Ok(parts) => parts,
        Err(e) => {
            return Err(e);
        },
    };
    let mut results: Vec<WorkerResult> = Vec::new();
    let mut i: usize = 0;
    while i < w
        invariant
            w >= 1,
            i <= w,
            is_partitioning(parts@, dataset@.len(), w as nat),
            results@.len() == i,
            is_run_prefix(results@, dataset@, w as nat),
        decreases w - i,
    {
        let part: Partition = parts[i];
        proof {
            lemma_slice_start_bound(dataset@.len(), w as nat, i as int);
            lemma_slices_tile(dataset@.len(), w as nat);
            assert(part.elements(dataset@) =~= worker_slice(dataset@, w as nat, i as int));
        }
        let result: WorkerResult = run_worker(i, dataset, part).unwrap();
        results.push(result);
        i += 1;
    }
    proof {
        lemma_grand_total(results@, dataset@, w as nat);
    }
    let total: usize = grand_total(results.as_slice()).unwrap();
    Ok(RunReport { results, total })
}

} // verus!
