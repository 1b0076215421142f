//! The prime source resolver: produce the single candidate-prime set for a
//! run, either by taking an externally supplied list verbatim or by running
//! the sieve with the requested algorithm.

use vstd::prelude::*;
use crate::parse::{load_failure, load_ok, primes_from_lines, DataError};
use crate::prime_set::PrimeSet;
use crate::primes::{sieve_post, sieve_primes, SieveAlgorithm};

verus! {

/// The algorithm a run uses when the selector is optional: the requested
/// one, or Atkin by default.
pub open spec fn chosen_algorithm(algo: Option<SieveAlgorithm>) -> SieveAlgorithm {
    match algo {
        Some(a) => a,
        None => SieveAlgorithm::Atkin,
    }
}

/// Produce the prime set for a run. An external list, when given, is used
/// verbatim and a bad line is a fatal data error; otherwise the sieve runs
/// with the requested algorithm, Atkin when none is named.
pub fn resolve_primes(
    n: u64,
    external: Option<Vec<Vec<u8>>>,
    algo: Option<SieveAlgorithm>,
) -> (r: Result<PrimeSet, DataError>)
    requires
        n + 1 <= usize::MAX,
    ensures
        match external {
            Some(lines) => match r {
                Ok(s) => load_ok(lines@, s),
                Err(e) => load_failure(lines@, e),
            },
            None => r matches Ok(s) && sieve_post(n, chosen_algorithm(algo), s),
        },
{
    match external {
        Some(lines) => primes_from_lines(&lines),
        None => {
            let a = match algo {
                Some(a) => a,
                None => SieveAlgorithm::Atkin,
            };
            Ok(sieve_primes(n, a))
        },
    }
}

} // verus!
