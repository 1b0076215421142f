use goldbach::parse::DataError;
use goldbach::primes::{sieve_primes, SieveAlgorithm};
use goldbach::resolver::resolve_primes;

fn lines_of(texts: &[&str]) -> Vec<Vec<u8>> {
    texts.iter().map(|t| t.as_bytes().to_vec()).collect()
}

#[test]
fn test_resolver_uses_external_list_verbatim() {
    let r = resolve_primes(10, Some(lines_of(&["2", "3", "5", "7"])), None);
    let primes = r.expect("a valid list must load");
    assert_eq!(primes.to_vec(), vec![2, 3, 5, 7]);
}

#[test]
fn test_resolver_external_list_failure_is_fatal() {
    let r = resolve_primes(10, Some(lines_of(&["2", "oops"])), None);
    match r {
        Err(e) => assert_eq!(e, DataError::InvalidLine(1)),
        Ok(_) => panic!("an invalid list must not produce a prime set"),
    }
}

#[test]
fn test_resolver_defaults_to_atkin() {
    let resolved = resolve_primes(100, None, None).expect("sieving cannot fail");
    let sieved = sieve_primes(100, SieveAlgorithm::Atkin);
    assert_eq!(resolved.to_vec(), sieved.to_vec());
}

#[test]
fn test_resolver_honours_requested_algorithm() {
    for algo in [SieveAlgorithm::Eratosthenes, SieveAlgorithm::Atkin] {
        let resolved = resolve_primes(50, None, Some(algo)).expect("sieving cannot fail");
        let sieved = sieve_primes(50, algo);
        assert_eq!(resolved.to_vec(), sieved.to_vec());
    }
}
