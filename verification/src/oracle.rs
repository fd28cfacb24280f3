//! The primality oracle: trial division, proved against the textbook
//! definition of a prime number.

use vstd::prelude::*;

verus! {

/// `d` divides `n` exactly.
pub open spec fn divides(d: nat, n: nat) -> bool {
    d != 0 && n % d == 0
}

/// The textbook definition: `n` is at least 2 and no integer strictly between
/// 1 and `n` divides it.
pub open spec fn is_prime_spec(n: nat) -> bool {
    n >= 2 && forall|d: nat| 2 <= d < n ==> !#[trigger] divides(d, n)
}

/// A divisor `d` of `n` with `i <= d < n` and `n < i * i` has a cofactor
/// `n / d` that is itself a divisor of `n`, lying in `[2, i)`.
proof fn lemma_cofactor(n: nat, d: nat, i: nat)
    requires
        2 <= i <= d < n,
        n < i * i,
        divides(d, n),
    ensures
        2 <= n / d < i,
        divides(n / d, n),
{
    let q = n / d;
    assert(n == d * q) by {
        vstd::arithmetic::div_mod::lemma_fundamental_div_mod(n as int, d as int);
    }
    assert(q >= 2) by (nonlinear_arith)
        requires
            n == d * q,
            d < n,
            d >= 2,
    ;
    assert(q < i) by (nonlinear_arith)
        requires
            n == d * q,
            n < i * i,
            i <= d,
            i >= 2,
    ;
    assert(n % q == 0) by {
        vstd::arithmetic::mul::lemma_mul_is_commutative(d as int, q as int);
        vstd::arithmetic::div_mod::lemma_mod_multiples_basic(d as int, q as int);
    }
}

/// Decides primality by trial division: every candidate `i` from 2 upwards is
/// tried for as long as `i * i <= n`.
///
/// The bound is tested as `i <= n / i`, which is the same condition and cannot
/// overflow.
pub fn is_prime(n: usize) -> (prime: bool)
    ensures
        prime == is_prime_spec(n as nat),
{
    if n <= 1 {
        return false;
    }
    let mut i: usize = 2;
    while i <= n / i
        invariant
            2 <= i <= n,
            forall|d: nat| 2 <= d < i ==> !#[trigger] divides(d, n as nat),
        decreases n - i,
    {
        assert(i < n) by (nonlinear_arith)
            requires
                2 <= i <= n / i,
                n >= 2,
        ;
        if n % i == 0 {
            assert(divides(i as nat, n as nat));
            return false;
        }
        i += 1;
    }
    proof {
        assert(n < i * i) by (nonlinear_arith)
            requires
                i >= 2,
                i > n / i,
                n >= 0,
        ;
        assert forall|d: nat| 2 <= d < n implies !#[trigger] divides(d, n as nat) by {
            if d >= i && divides(d, n as nat) {
                lemma_cofactor(n as nat, d, i as nat);
                assert(!divides((n as nat) / d, n as nat));
            }
        }
    }
    true
}

} // verus!
