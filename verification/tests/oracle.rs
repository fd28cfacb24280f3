use prime_partition::oracle::is_prime;

#[test]
fn small_numbers_match_the_textbook() {
    let inputs: [usize; 9] = [0, 1, 2, 3, 4, 17, 18, 97, 100];
    let expected = [false, false, true, true, false, true, false, true, false];
    for (n, want) in inputs.iter().zip(expected.iter()) {
        assert_eq!(is_prime(*n), *want, "is_prime({})", n);
    }
}

#[test]
fn zero_and_one_are_not_prime() {
    assert!(!is_prime(0));
    assert!(!is_prime(1));
}

#[test]
fn squares_of_primes_are_not_prime() {
    for p in [2usize, 3, 5, 7, 11, 13, 101, 65521] {
        assert!(is_prime(p));
        assert!(!is_prime(p * p), "{} squared", p);
    }
}

#[test]
fn oracle_agrees_with_a_divisor_count() {
    for n in 0usize..2000 {
        let divisors = (1..=n).filter(|d| n % d == 0).count();
        assert_eq!(is_prime(n), divisors == 2, "n = {}", n);
    }
}

#[test]
fn largest_word_is_handled_without_overflow() {
    // usize::MAX is 2^k - 1 with k even, so 3 divides it.
    assert!(!is_prime(usize::MAX));
    assert!(is_prime(2_147_483_647));
    assert!(!is_prime(2_147_483_649));
}
