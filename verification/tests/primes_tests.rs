use nt_utils::primes::{is_prime, isqrt};

#[test]
fn test_is_prime() {
    assert_eq!(is_prime(2), true);
    assert_eq!(is_prime(3), true);
    assert_eq!(is_prime(4), false);
    assert_eq!(is_prime(5), true);
    assert_eq!(is_prime(29), true);
    assert_eq!(is_prime(30), false);
}

#[test]
fn test_is_prime_small_literals() {
    assert_eq!(is_prime(0), false);
    assert_eq!(is_prime(1), false);
    assert_eq!(is_prime(2), true);
    assert_eq!(is_prime(3), true);
    assert_eq!(is_prime(4), false);
    assert_eq!(is_prime(29), true);
    assert_eq!(is_prime(30), false);
    assert_eq!(is_prime(997), true);
}

#[test]
fn test_is_prime_perfect_squares() {
    assert_eq!(is_prime(25), false);
    assert_eq!(is_prime(49), false);
    assert_eq!(is_prime(121), false);
    assert_eq!(is_prime(9409), false);
    assert_eq!(is_prime(994009), false);
}

#[test]
fn test_is_prime_larger_values() {
    assert_eq!(is_prime(7919), true);
    assert_eq!(is_prime(7921), false);
    assert_eq!(is_prime(104729), true);
    assert_eq!(is_prime(104730), false);
    assert_eq!(is_prime(2147483647), true);
}

#[test]
fn test_is_prime_matches_sieve() {
    let limit: usize = 10000;
    let mut composite = vec![false; limit + 1];
    composite[0] = true;
    if limit >= 1 {
        composite[1] = true;
    }
    let mut p: usize = 2;
    while p * p <= limit {
        if !composite[p] {
            let mut m = p * p;
            while m <= limit {
                composite[m] = true;
                m += p;
            }
        }
        p += 1;
    }
    for n in 0..=limit {
        assert_eq!(is_prime(n), !composite[n], "disagreement at {}", n);
    }
}

#[test]
fn test_isqrt_literals() {
    assert_eq!(isqrt(0), 0);
    assert_eq!(isqrt(1), 1);
    assert_eq!(isqrt(2), 1);
    assert_eq!(isqrt(3), 1);
    assert_eq!(isqrt(4), 2);
    assert_eq!(isqrt(15), 3);
    assert_eq!(isqrt(16), 4);
    assert_eq!(isqrt(17), 4);
    assert_eq!(isqrt(10000), 100);
}

#[test]
fn test_isqrt_brackets_its_input() {
    for n in 0..2000usize {
        let r = isqrt(n);
        assert!(r * r <= n);
        assert!(n < (r + 1) * (r + 1));
    }
}
