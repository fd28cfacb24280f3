//! The worker task: scans one slice of the dataset and collects its primes.

use vstd::prelude::*;
use crate::error::RunError;
use crate::oracle::{is_prime, is_prime_spec};
use crate::partition::Partition;

verus! {

/// The primes among `s`, in the order in which they stand in `s`.
pub open spec fn primes_of(s: Seq<usize>) -> Seq<usize> {
    s.filter(|x: usize| is_prime_spec(x as nat))
}

/// Appending one element appends it to the primes if it is prime, and
/// changes nothing otherwise.
pub proof fn lemma_primes_of_push(s: Seq<usize>, x: usize)
    ensures
        primes_of(s.push(x)) == if is_prime_spec(x as nat) {
            primes_of(s).push(x)
        } else {
            primes_of(s)
        },
{
    reveal(Seq::filter);
    assert(s.push(x).drop_last() =~= s);
}

/// The primes of a sequence cut in two are those of the first part followed
/// by those of the second.
pub proof fn lemma_primes_of_split(s: Seq<usize>, a: int, b: int, c: int)
    requires
        0 <= a <= b <= c <= s.len(),
    ensures
        primes_of(s.subrange(a, c)) == primes_of(s.subrange(a, b)) + primes_of(s.subrange(b, c)),
{
    assert(s.subrange(a, c) =~= s.subrange(a, b) + s.subrange(b, c));
    Seq::filter_distributes_over_add(
        s.subrange(a, b),
        s.subrange(b, c),
        |x: usize| is_prime_spec(x as nat),
    );
}

/// Filtering adds nothing: there are no more primes than elements.
pub proof fn lemma_primes_of_len(s: Seq<usize>)
    ensures
        primes_of(s).len() <= s.len(),
{
    s.lemma_filter_len(|x: usize| is_prime_spec(x as nat));
}

/// What one worker hands back: its number, the primes of its slice in
/// dataset order, and how many they are.
#[derive(Clone, Debug)]
pub struct WorkerResult {
    pub worker_id: usize,
    pub prime_count: usize,
    pub primes_found: Vec<usize>,
}

impl WorkerResult {
    /// The count is the length of the collected sequence.
    pub open spec fn wf(&self) -> bool {
        self.prime_count == self.primes_found@.len()
    }

    /// This is the result that worker `worker_id` owes for slice `part` of
    /// `dataset`.
    pub open spec fn is_scan_of(&self, worker_id: usize, dataset: Seq<usize>, part: Partition) -> bool {
        &&& self.worker_id == worker_id
        &&& self.primes_found@ == primes_of(part.elements(dataset))
        &&& self.wf()
    }
}

/// Scans slice `part` of `dataset` once, from its first index to its last,
/// and collects the elements that are prime.
///
/// A slice with an index beyond the dataset is a worker fault, and nothing
/// is scanned; every other slice is scanned whole.
pub fn run_worker(worker_id: usize, dataset: &[usize], part: Partition) -> (outcome: Result<
    WorkerResult,
    RunError,
>)
    ensures
        !part.fits(dataset@.len()) ==> outcome is Err && outcome->Err_0 == RunError::WorkerFault,
        part.fits(dataset@.len()) ==> outcome is Ok && outcome->Ok_0.is_scan_of(
            worker_id,
            dataset@,
            part,
        ),
{
    let n: usize = dataset.len();
    let mut primes: Vec<usize> = Vec::new();
    if part.length == 0 {
        assert(primes@ =~= primes_of(Seq::<usize>::empty()));
        return Ok(WorkerResult { worker_id, prime_count: 0, primes_found: primes });
    }
    if part.start > n || part.length > n - part.start {
        return Err(RunError::WorkerFault);
    }
    let end: usize = part.start + part.length;
    let mut i: usize = part.start;
    assert(dataset@.subrange(part.start as int, i as int) =~= Seq::<usize>::empty());
    while i < end
        invariant
            part.start <= i <= end <= dataset@.len(),
            primes@ == primes_of(dataset@.subrange(part.start as int, i as int)),
        decreases end - i,
    {
        let x: usize = dataset[i];
        proof {
            lemma_primes_of_push(dataset@.subrange(part.start as int, i as int), x);
            assert(dataset@.subrange(part.start as int, i as int).push(x) =~= dataset@.subrange(
                part.start as int,
                i + 1,
            ));
        }
        if is_prime(x) {
            primes.push(x);
        }
        i += 1;
    }
    let prime_count: usize = primes.len();
    Ok(WorkerResult { worker_id, prime_count, primes_found: primes })
}

/// The single-threaded scan of the whole dataset: how many of its elements
/// are prime.
pub fn count_primes(dataset: &[usize]) -> (count: usize)
    ensures
        count == primes_of(dataset@).len(),
{
    let mut count: usize = 0;
    let mut i: usize = 0;
    assert(dataset@.subrange(0, 0) =~= Seq::<usize>::empty());
    while i < dataset.len()
        invariant
            i <= dataset@.len(),
            count <= i,
            count == primes_of(dataset@.subrange(0, i as int)).len(),
        decreases dataset@.len() - i,
    {
        let x: usize = dataset[i];
        proof {
            lemma_primes_of_push(dataset@.subrange(0, i as int), x);
            assert(dataset@.subrange(0, i as int).push(x) =~= dataset@.subrange(0, i + 1));
        }
        if is_prime(x) {
            count += 1;
        }
        i += 1;
    }
    assert(dataset@.subrange(0, i as int) =~= dataset@);
    count
}

} // verus!
