use goldbach::prime_set::PrimeSet;
use goldbach::primes::{sieve_primes, SieveAlgorithm};
use goldbach::solver::{run_range, solve};

fn set_of(values: &[u64]) -> PrimeSet {
    let mut s = PrimeSet::new();
    for &v in values {
        s.insert(v);
    }
    s
}

#[test]
fn test_solve() {
    let primes = set_of(&[2, 3, 5, 7]);
    let result = solve(6, &primes);
    assert_eq!(result, Some((3, 3)), "Failed to find solution");
}

#[test]
fn test_solve_no_solution() {
    let primes = set_of(&[2, 3, 5, 7]);
    assert_eq!(solve(11, &primes), None);
    let empty = PrimeSet::new();
    assert_eq!(solve(8, &empty), None);
}

#[test]
fn test_solve_returns_smallest_first_component() {
    let primes = set_of(&[3, 5, 7, 11, 13]);
    // 16 = 3 + 13 = 5 + 11; the ascending walk must report 3 first.
    assert_eq!(solve(16, &primes), Some((3, 13)));
}

#[test]
fn test_solve_round_trip_over_sieve() {
    let primes = sieve_primes(100, SieveAlgorithm::Atkin);
    for t in (4..=100u64).step_by(2) {
        let (p, q) = solve(t, &primes).expect("an even value below 100 has a pair");
        assert!(primes.contains(p));
        assert!(primes.contains(q));
        assert_eq!(p + q, t);
    }
}

#[test]
fn test_run_range_to_ten_has_all_solutions() {
    let primes = sieve_primes(10, SieveAlgorithm::Atkin);
    let results = run_range(10, &primes, false);
    let targets: Vec<u64> = results.iter().map(|e| e.0).collect();
    assert_eq!(targets, vec![4, 6, 8, 10]);
    for (t, outcome) in results {
        let (p, q) = outcome.expect("every even value from 4 to 10 has a pair");
        assert_eq!(p + q, t);
    }
}

#[test]
fn test_run_range_stop_on_first_failure() {
    let empty = PrimeSet::new();
    let results = run_range(10, &empty, true);
    assert_eq!(results.len(), 1);
    assert_eq!(results[0], (4, None));
}

#[test]
fn test_run_range_continues_past_failures() {
    let empty = PrimeSet::new();
    let results = run_range(10, &empty, false);
    assert_eq!(results.len(), 4);
    for (i, (t, outcome)) in results.into_iter().enumerate() {
        assert_eq!(t, 4 + 2 * i as u64);
        assert_eq!(outcome, None);
    }
}
