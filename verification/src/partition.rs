//! The partitioner: cuts the index range `[0, n)` into `w` contiguous slices
//! of equal size, the last of which also takes the remainder.

use vstd::prelude::*;
use crate::error::RunError;

verus! {

/// A contiguous range of dataset indices, `[start, start + length)`.
#[derive(Clone, Copy, Debug, PartialEq, Eq, Structural)]
pub struct Partition {
    pub start: usize,
    pub length: usize,
}

impl Partition {
    /// The index just past the slice.
    pub open spec fn end(self) -> int {
        self.start + self.length
    }

    /// Every index of the slice is an index of a dataset of `n` elements. An
    /// empty slice has no index, and fits wherever it starts.
    pub open spec fn fits(self, n: nat) -> bool {
        self.length == 0 || self.end() <= n
    }

    /// The elements of `dataset` at the indices of the slice.
    pub open spec fn elements(self, dataset: Seq<usize>) -> Seq<usize>
        recommends
            self.fits(dataset.len()),
    {
        if self.length == 0 {
            Seq::empty()
        } else {
            dataset.subrange(self.start as int, self.end())
        }
    }
}

/// The size of every slice but the last: `floor(n / w)`.
pub open spec fn base_size(n: nat, w: nat) -> int
    recommends
        w >= 1,
{
    (n / w) as int
}

/// Where slice `i` begins.
pub open spec fn slice_start(n: nat, w: nat, i: int) -> int
    recommends
        w >= 1,
        0 <= i < w,
{
    i * base_size(n, w)
}

/// How many indices slice `i` holds: the base size, and for the last slice
/// whatever the earlier ones leave.
pub open spec fn slice_length(n: nat, w: nat, i: int) -> int
    recommends
        w >= 1,
        0 <= i < w,
{
    if i == w - 1 {
        n - (w - 1) * base_size(n, w)
    } else {
        base_size(n, w)
    }
}

/// `parts` is the partitioning of `[0, n)` among `w` workers.
pub open spec fn is_partitioning(parts: Seq<Partition>, n: nat, w: nat) -> bool {
    &&& parts.len() == w
    &&& forall|i: int|
        0 <= i < w ==> (#[trigger] parts[i]).start == slice_start(n, w, i) && parts[i].length
            == slice_length(n, w, i)
}

/// All the slices together hold at most `n` indices: `i * floor(n / w) <= n`
/// for every slice number `i`.
pub proof fn lemma_slice_start_bound(n: nat, w: nat, i: int)
    requires
        w >= 1,
        0 <= i < w,
    ensures
        0 <= slice_start(n, w, i) <= n,
        0 <= base_size(n, w) <= n,
        slice_start(n, w, i) + base_size(n, w) <= n,
{
    let b = base_size(n, w);
    vstd::arithmetic::div_mod::lemma_fundamental_div_mod(n as int, w as int);
    assert(0 <= n as int % w as int);
    assert(n >= w * b);
    assert(0 <= i * b && i * b + b <= w * b) by (nonlinear_arith)
        requires
            0 <= i < w,
            b >= 0,
    ;
}

/// The slices tile the index range: the first begins at 0, each begins where
/// the one before it ends, none has a negative length, and the last ends at
/// `n`.
pub proof fn lemma_slices_tile(n: nat, w: nat)
    requires
        w >= 1,
    ensures
        slice_start(n, w, 0) == 0,
        forall|i: int| 0 <= i < w ==> #[trigger] slice_length(n, w, i) >= 0,
        forall|i: int|
            0 <= i < w - 1 ==> #[trigger] slice_start(n, w, i) + slice_length(n, w, i)
                == slice_start(n, w, i + 1),
        slice_start(n, w, w - 1) + slice_length(n, w, w - 1) == n,
{
    let b = base_size(n, w);
    assert(0 * b == 0);
    assert forall|i: int| 0 <= i < w implies #[trigger] slice_length(n, w, i) >= 0 by {
        lemma_slice_start_bound(n, w, i);
    }
    assert forall|i: int| 0 <= i < w - 1 implies #[trigger] slice_start(n, w, i) + slice_length(
        n,
        w,
        i,
    ) == slice_start(n, w, i + 1) by {
        assert(i * b + b == (i + 1) * b) by (nonlinear_arith);
    }
}

/// Over an empty range every slice is empty, whatever the worker count.
pub proof fn lemma_empty_range(w: nat)
    requires
        w >= 1,
    ensures
        forall|i: int|
            0 <= i < w ==> #[trigger] slice_start(0, w, i) == 0 && slice_length(0, w, i) == 0,
{
    assert(base_size(0, w) == 0) by {
        lemma_slice_start_bound(0, w, 0);
    }
    assert forall|i: int| 0 <= i < w implies #[trigger] slice_start(0, w, i) == 0 && slice_length(
        0,
        w,
        i,
    ) == 0 by {
        assert(i * 0 == 0);
        assert((w - 1) * 0 == 0);
    }
}

/// The slice that holds index `k`.
pub open spec fn owner(n: nat, w: nat, k: int) -> int
    recommends
        w >= 1,
        0 <= k < n,
{
    if base_size(n, w) == 0 || k / base_size(n, w) >= w - 1 {
        w - 1
    } else {
        k / base_size(n, w)
    }
}

/// Slice `i` holds index `k`.
pub open spec fn slice_holds(n: nat, w: nat, i: int, k: int) -> bool {
    slice_start(n, w, i) <= k < slice_start(n, w, i) + slice_length(n, w, i)
}

/// Coverage: the slices hold indices of `[0, n)` only, every such index lies
/// in a slice, and no index lies in two of them. So the slices are pairwise
/// disjoint and their union is the whole range.
pub proof fn lemma_slices_cover(n: nat, w: nat)
    requires
        w >= 1,
    ensures
        forall|i: int, k: int|
            0 <= i < w && #[trigger] slice_holds(n, w, i, k) ==> 0 <= k < n && i == owner(n, w, k),
        forall|i: int, j: int, k: int|
            0 <= i < w && 0 <= j < w && #[trigger] slice_holds(n, w, i, k) && #[trigger] slice_holds(
                n,
                w,
                j,
                k,
            ) ==> i == j,
        forall|k: int|
            0 <= k < n ==> 0 <= owner(n, w, k) < w && #[trigger] slice_holds(
                n,
                w,
                owner(n, w, k),
                k,
            ),
{
    let b = base_size(n, w);
    lemma_slice_start_bound(n, w, 0);
    assert forall|i: int, k: int| 0 <= i < w && #[trigger] slice_holds(n, w, i, k) implies 0 <= k
        < n && i == owner(n, w, k) by {
        lemma_slice_start_bound(n, w, i);
        if i < w - 1 {
            assert(b > 0);
            assert(k / b == i) by {
                vstd::arithmetic::div_mod::lemma_fundamental_div_mod_converse(k, b, i, k - i * b);
            }
        } else {
            if b > 0 {
                assert(k / b >= w - 1) by {
                    vstd::arithmetic::div_mod::lemma_div_is_ordered((w - 1) * b, k, b);
                    vstd::arithmetic::div_mod::lemma_div_multiples_vanish(w - 1, b);
                    vstd::arithmetic::mul::lemma_mul_is_commutative(w - 1, b);
                }
            }
        }
    }
    assert forall|k: int| 0 <= k < n implies 0 <= owner(n, w, k) < w && #[trigger] slice_holds(
        n,
        w,
        owner(n, w, k),
        k,
    ) by {
        let i = owner(n, w, k);
        if b > 0 {
            vstd::arithmetic::div_mod::lemma_fundamental_div_mod(k, b);
            vstd::arithmetic::div_mod::lemma_div_pos_is_pos(k, b);
            vstd::arithmetic::div_mod::lemma_mod_bound(k, b);
            let q = k / b;
            assert(k == b * q + k % b);
            if q >= w - 1 {
                assert((w - 1) * b <= b * q) by (nonlinear_arith)
                    requires
                        q >= w - 1,
                        b > 0,
                ;
            } else {
                assert(q * b == b * q) by (nonlinear_arith);
            }
        } else {
            assert((w - 1) * b == 0) by (nonlinear_arith)
                requires
                    b == 0,
            ;
        }
    }
}

/// Cuts `[0, n)` into `w` slices. A worker count of zero is a configuration
/// error; every other input succeeds, also `n == 0` (all slices empty) and
/// `w > n` (all but the last empty).
pub fn partition(n: usize, w: usize) -> (outcome: Result<Vec<Partition>, RunError>)
    ensures
        w == 0 ==> outcome == Err::<Vec<Partition>, RunError>(RunError::Configuration),
        w >= 1 ==> outcome is Ok && is_partitioning(outcome->Ok_0@, n as nat, w as nat),
{
    if w == 0 {
        return Err(RunError::Configuration);
    }
    let base: usize = n / w;
    let mut parts: Vec<Partition> = Vec::new();
    let mut i: usize = 0;
    while i < w
        invariant
            w >= 1,
            i <= w,
            base == base_size(n as nat, w as nat),
            parts@.len() == i,
            forall|j: int|
                0 <= j < i ==> (#[trigger] parts@[j]).start == slice_start(n as nat, w as nat, j)
                    && parts@[j].length == slice_length(n as nat, w as nat, j),
        decreases w - i,
    {
        proof {
            lemma_slice_start_bound(n as nat, w as nat, i as int);
        }
        let start: usize = i * base;
        let length: usize = if i == w - 1 {
            n - start
        } else {
            base
        };
        parts.push(Partition { start, length });
        i += 1;
    }
    Ok(parts)
}

} // verus!
