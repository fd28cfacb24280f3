//! The sink under concurrency: every worker appends its block in one piece,
//! but the workers reach the sink in no fixed order. Whatever that order is,
//! the sink ends up holding the same primes.

use vstd::prelude::*;
use vstd::multiset::Multiset;
use vstd::seq_lib::{
    lemma_fold_left_permutation,
    lemma_multiset_commutative,
    seq_to_set_is_finite,
    to_multiset_contains,
    to_multiset_len,
};
use vstd::set_lib::{lemma_int_range, lemma_subset_equality, set_int_range};
use crate::coordinator::{all_primes, is_run_of, lemma_grand_total, sum_counts};
use crate::worker::{primes_of, WorkerResult};

verus! {

/// `order` names each of the `w` workers once: the order in which they
/// reached the sink.
pub open spec fn is_worker_order(order: Seq<int>, w: nat) -> bool {
    &&& order.len() == w
    &&& order.no_duplicates()
    &&& forall|j: int| 0 <= j < order.len() ==> 0 <= #[trigger] order[j] < w
}

/// The workers in ascending order.
pub open spec fn worker_ids(w: nat) -> Seq<int> {
    Seq::new(w, |i: int| i)
}

/// The primes in the sink when the workers wrote their blocks in `order`.
pub open spec fn blocks_in_order(results: Seq<WorkerResult>, order: Seq<int>) -> Seq<usize>
    decreases order.len(),
{
    if order.len() == 0 {
        Seq::empty()
    } else {
        blocks_in_order(results, order.drop_last()) + results[order.last()].primes_found@
    }
}

/// Adds one worker's block to a collection of primes.
spec fn add_block(results: Seq<WorkerResult>) -> spec_fn(Multiset<usize>, int) -> Multiset<
    usize,
> {
    |m: Multiset<usize>, i: int| m.add(results[i].primes_found@.to_multiset())
}

/// The primes in the sink are the blocks added up, one worker after the
/// other.
proof fn lemma_blocks_fold(results: Seq<WorkerResult>, order: Seq<int>)
    ensures
        blocks_in_order(results, order).to_multiset() == order.fold_left(
            Multiset::empty(),
            add_block(results),
        ),
    decreases order.len(),
{
    if order.len() == 0 {
        to_multiset_len(Seq::<usize>::empty());
        assert(Seq::<usize>::empty().to_multiset() =~= Multiset::empty());
    } else {
        lemma_blocks_fold(results, order.drop_last());
        lemma_multiset_commutative(
            blocks_in_order(results, order.drop_last()),
            results[order.last()].primes_found@,
        );
    }
}

/// A worker order is a rearrangement of the ascending one.
proof fn lemma_order_is_rearrangement(order: Seq<int>, w: nat)
    requires
        is_worker_order(order, w),
    ensures
        order.to_multiset() == worker_ids(w).to_multiset(),
{
    let ids = worker_ids(w);
    let range = set_int_range(0, w as int);
    order.unique_seq_to_set();
    lemma_int_range(0, w as int);
    seq_to_set_is_finite(order);
    assert(order.to_set().subset_of(range)) by {
        assert forall|x: int| order.to_set().contains(x) implies range.contains(x) by {
            assert(order.contains(x));
            let j = choose|j: int| 0 <= j < order.len() && order[j] == x;
            assert(0 <= order[j] < w);
        }
    }
    lemma_subset_equality(order.to_set(), range);
    order.lemma_multiset_has_no_duplicates();
    ids.lemma_multiset_has_no_duplicates();
    assert forall|x: int| order.to_multiset().count(x) == ids.to_multiset().count(x) by {
        to_multiset_contains(order, x);
        to_multiset_contains(ids, x);
        if 0 <= x < w {
            assert(ids[x] == x);
            assert(ids.contains(x));
            assert(range.contains(x));
            assert(order.to_set().contains(x));
            assert(order.contains(x));
        } else {
            if order.contains(x) {
                let j = choose|j: int| 0 <= j < order.len() && order[j] == x;
                assert(0 <= order[j] < w);
            }
            if ids.contains(x) {
                let j = choose|j: int| 0 <= j < ids.len() && ids[j] == x;
                assert(ids[j] == j);
            }
        }
    }
    assert(order.to_multiset() =~= ids.to_multiset());
}

/// Written in ascending order, the blocks stand as the results hold them.
proof fn lemma_blocks_in_worker_order(results: Seq<WorkerResult>, k: nat)
    requires
        k <= results.len(),
    ensures
        blocks_in_order(results, worker_ids(k)) == all_primes(results.take(k as int)),
    decreases k,
{
    if k > 0 {
        let before = (k - 1) as nat;
        lemma_blocks_in_worker_order(results, before);
        assert(worker_ids(k).drop_last() =~= worker_ids(before));
        assert(worker_ids(k).last() == k - 1);
        assert(results.take(k as int).drop_last() =~= results.take(before as int));
        assert(results.take(k as int).last() == results[k - 1]);
    } else {
        assert(results.take(0).len() == 0);
    }
}

/// Order independence: in whatever order the workers of a run reach the
/// sink, the sink holds the same primes, each as often: those of the whole
/// dataset. Only their order in the sink depends on the workers' order; so
/// the lines of two runs over one dataset differ in order at most, and that
/// for any two worker counts.
pub proof fn lemma_any_order_same_primes(
    results: Seq<WorkerResult>,
    dataset: Seq<usize>,
    w: nat,
    order: Seq<int>,
)
    requires
        w >= 1,
        is_run_of(results, dataset, w),
        is_worker_order(order, w),
    ensures
        blocks_in_order(results, order).to_multiset() == primes_of(dataset).to_multiset(),
        blocks_in_order(results, order).len() == sum_counts(results),
{
    let f = add_block(results);
    assert forall|x: int, y: int, v: Multiset<usize>| #[trigger] f(f(v, x), y) == f(f(v, y), x) by {
        let bx = results[x].primes_found@.to_multiset();
        let by = results[y].primes_found@.to_multiset();
        assert(v.add(bx).add(by) =~= v.add(by).add(bx));
    }
    lemma_order_is_rearrangement(order, w);
    lemma_fold_left_permutation(order, worker_ids(w), f, Multiset::empty());
    lemma_blocks_fold(results, order);
    lemma_blocks_fold(results, worker_ids(w));
    lemma_blocks_in_worker_order(results, w);
    assert(results.take(w as int) =~= results);
    lemma_grand_total(results, dataset, w);
    to_multiset_len(blocks_in_order(results, order));
    to_multiset_len(primes_of(dataset));
}

} // verus!
