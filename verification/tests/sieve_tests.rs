use goldbach::prime_set::PrimeSet;
use goldbach::primes::{sieve_atkin, sieve_eratosthenes, sieve_primes, SieveAlgorithm};

fn check_small_primes(primes: &PrimeSet, label: &str) {
    assert!(primes.contains(2), "{}: Failed to find prime 2", label);
    assert!(primes.contains(3), "{}: Failed to find prime 3", label);
    assert!(primes.contains(5), "{}: Failed to find prime 5", label);
    assert!(primes.contains(7), "{}: Failed to find prime 7", label);
}

#[test]
fn test_sieve_primes() {
    for algo in [SieveAlgorithm::Eratosthenes, SieveAlgorithm::Atkin] {
        let primes = sieve_primes(10, algo);
        check_small_primes(&primes, algo.name());
    }
}

#[test]
fn test_algorithm_names() {
    assert_eq!(SieveAlgorithm::Eratosthenes.name(), "Eratosthenes");
    assert_eq!(SieveAlgorithm::Atkin.name(), "Atkin");
}

#[test]
fn test_sieve_primes_large() {
    let primes = sieve_primes(5_000, SieveAlgorithm::Eratosthenes);
    assert!(primes.contains(769), "Eratosthenes: Failed to find prime 769");
    assert!(primes.contains(4231), "Eratosthenes: Failed to find prime 4231");
    let primes = sieve_primes(5_000, SieveAlgorithm::Atkin);
    assert!(primes.contains(769), "Atkin: Failed to find prime 769");
    assert!(primes.contains(4231), "Atkin: Failed to find prime 4231");
}

#[test]
fn test_sieve_eratosthenes_exact_up_to_ten() {
    let primes = sieve_eratosthenes(10);
    assert_eq!(primes.to_vec(), vec![2, 3, 5, 7]);
}

#[test]
fn test_sieve_atkin_exact_up_to_ten() {
    let primes = sieve_atkin(10);
    assert_eq!(primes.to_vec(), vec![2, 3, 5, 7]);
}

#[test]
fn test_cross_algorithm_agreement() {
    for n in [0u64, 1, 2, 3, 4, 5, 10, 30, 100, 997, 1000, 5000] {
        let a = sieve_eratosthenes(n).to_vec();
        let b = sieve_atkin(n).to_vec();
        assert_eq!(a, b, "the two sieves disagree at bound {}", n);
    }
}

#[test]
fn test_sieve_idempotent() {
    for n in [10u64, 100, 2000] {
        let first = sieve_primes(n, SieveAlgorithm::Eratosthenes).to_vec();
        let second = sieve_primes(n, SieveAlgorithm::Eratosthenes).to_vec();
        assert_eq!(first, second);
        let first = sieve_primes(n, SieveAlgorithm::Atkin).to_vec();
        let second = sieve_primes(n, SieveAlgorithm::Atkin).to_vec();
        assert_eq!(first, second);
    }
}

#[test]
fn test_sieve_tiny_bounds() {
    for algo in [SieveAlgorithm::Eratosthenes, SieveAlgorithm::Atkin] {
        assert_eq!(sieve_primes(0, algo).len(), 0);
        assert_eq!(sieve_primes(1, algo).len(), 0);
        assert_eq!(sieve_primes(2, algo).to_vec(), vec![2]);
        assert_eq!(sieve_primes(3, algo).to_vec(), vec![2, 3]);
        assert_eq!(sieve_primes(4, algo).to_vec(), vec![2, 3]);
    }
}

#[test]
fn test_sieve_members_have_no_small_divisor() {
    let primes = sieve_eratosthenes(1000).to_vec();
    for &p in primes.iter() {
        let mut d = 2u64;
        while d * d <= p {
            assert!(p % d != 0, "{} has divisor {}", p, d);
            d += 1;
        }
    }
}

#[test]
fn test_composites_not_in_sieve() {
    let primes = sieve_eratosthenes(100);
    for c in [4u64, 6, 9, 15, 25, 49, 51, 91, 100] {
        assert!(!primes.contains(c), "composite {} reported prime", c);
    }
}
