//! Goldbach conjecture checker: verified prime sieves (Eratosthenes and
//! Atkin), a prime-pair solver, and a range driver that scans every even
//! number in a bounded range for a decomposition into two primes.

pub mod arith;
pub mod parse;
pub mod prime_set;
pub mod primes;
pub mod resolver;
pub mod solver;
