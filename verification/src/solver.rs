//! The Goldbach solver and range driver: find a pair of candidate primes
//! summing to an even target, and scan every even value of a bounded range.

use vstd::prelude::*;
use crate::prime_set::PrimeSet;

verus! {

/// Some pair of members of `s` sums to `t`.
pub open spec fn has_pair(s: Set<u64>, t: u64) -> bool {
    exists|p: u64, q: u64|
        #[trigger] s.contains(p) && #[trigger] s.contains(q) && p as int + q as int == t as int
}

/// What the solver promises: a reported pair really lies in the set and
/// sums to the target, and failure is only reported when no pair exists.
pub open spec fn solve_result_ok(t: u64, s: Set<u64>, r: Option<(u64, u64)>) -> bool {
    match r {
        Some(pair) => s.contains(pair.0) && s.contains(pair.1) && pair.0 as int
            + pair.1 as int == t as int,
        None => !has_pair(s, t),
    }
}

/// A reported pair has the smallest first component among all pairs of
/// members of `s` that sum to `t`: together with `solve_result_ok` this
/// pins the solver's answer completely.
pub open spec fn solve_result_min(t: u64, s: Set<u64>, r: Option<(u64, u64)>) -> bool {
    r matches Some(pair) ==> forall|p: u64, q: u64|
        #[trigger] s.contains(p) && #[trigger] s.contains(q) && p as int + q as int == t as int
            ==> pair.0 <= p
}

/// Solve the Goldbach decomposition for `n` over the given prime set:
/// walk the candidates in ascending order and return the first whose
/// complement is also a member, so the reported pair has the smallest
/// possible first component.
pub fn solve(n: u64, primes: &PrimeSet) -> (r: Option<(u64, u64)>)
    requires
        primes.wf(),
    ensures
        solve_result_ok(n, primes@, r),
        solve_result_min(n, primes@, r),
{
    let m = primes.len();
    let mut idx: usize = 0;
    while idx < m
        invariant
            primes.wf(),
            m == primes.to_seq().len(),
            idx <= m,
            forall|i: int, q: u64|
                0 <= i < idx && #[trigger] primes@.contains(q) ==> (#[trigger] primes.to_seq()[i])
                    as int + q as int != n as int,
        decreases m - idx,
    {
        proof {
            primes.lemma_wf_props();
        }
        let p = primes.nth(idx);
        if p <= n {
            let complement = n - p;
            if primes.contains(complement) {
                proof {
                    assert(primes@.contains(p)) by {
                        assert(primes.to_seq().contains(primes.to_seq()[idx as int]));
                    }
                    // Minimality: a smaller first component would sit at an
                    // earlier index of the sorted sequence, where the loop
                    // invariant already ruled out every partner.
                    assert forall|p2: u64, q2: u64|
                        #[trigger] primes@.contains(p2) && #[trigger] primes@.contains(q2)
                            && p2 as int + q2 as int == n as int implies p <= p2 by {
                        if p2 < p {
                            assert(primes.to_seq().contains(p2));
                            let i2 = choose|i: int|
                                0 <= i < primes.to_seq().len() && primes.to_seq()[i] == p2;
                            if i2 >= idx {
                                assert(primes.to_seq()[idx as int] <= primes.to_seq()[i2]);
                            }
                            assert(i2 < idx);
                        }
                    }
                }
                return Some((p, complement));
            }
        }
        proof {
            // The candidate at idx has no partner: either it already exceeds
            // n, or its unique complement is not a member.
            let pv = primes.to_seq()[idx as int];
            assert forall|q: u64| #[trigger] primes@.contains(q) implies pv as int + q as int
                != n as int by {
                if pv as int + q as int == n as int {
                    assert(pv <= n);
                    assert(q == n - pv);
                }
            }
        }
        idx = idx + 1;
    }
    proof {
        primes.lemma_wf_props();
        if has_pair(primes@, n) {
            let (p, q) = choose|p: u64, q: u64|
                #[trigger] primes@.contains(p) && #[trigger] primes@.contains(q) && p as int
                    + q as int == n as int;
            assert(primes.to_seq().contains(p));
            let i = choose|i: int| 0 <= i < primes.to_seq().len() && primes.to_seq()[i] == p;
            assert(primes.to_seq()[i] as int + q as int != n as int);
        }
    }
    None
}

/// If some pair of members sums to the target, a result that meets the
/// solver's contract cannot be the failure outcome: it is a pair of
/// members that sums to the target.
pub proof fn lemma_solve_round_trip(t: u64, s: Set<u64>, r: Option<(u64, u64)>, p: u64, q: u64)
    requires
        solve_result_ok(t, s, r),
        s.contains(p),
        s.contains(q),
        p as int + q as int == t as int,
    ensures
        r is Some,
        s.contains(r->Some_0.0),
        s.contains(r->Some_0.1),
        r->Some_0.0 as int + r->Some_0.1 as int == t as int,
{
    if r is None {
        assert(has_pair(s, t));
    }
}

/// Scan every even target from 4 to `n` inclusive, solving each one.
/// Each entry of the result pairs a target with its outcome. When
/// `stop_on_failure` is set the scan halts right after the first target
/// with no solution; otherwise all targets are reported.
pub fn run_range(n: u64, primes: &PrimeSet, stop_on_failure: bool) -> (r: Vec<
    (u64, Option<(u64, u64)>),
>)
    requires
        primes.wf(),
        4 <= n,
        n % 2 == 0,
    ensures
        1 <= r@.len() <= (n as int - 2) / 2,
        forall|i: int| 0 <= i < r@.len() ==> (#[trigger] r@[i]).0 == 4 + 2 * i,
        forall|i: int| 0 <= i < r@.len() ==> solve_result_ok((#[trigger] r@[i]).0, primes@, r@[i].1),
        forall|i: int| 0 <= i < r@.len() ==> solve_result_min((#[trigger] r@[i]).0, primes@, r@[i].1),
        !stop_on_failure ==> r@.len() == (n as int - 2) / 2,
        stop_on_failure ==> forall|i: int| 0 <= i < r@.len() - 1 ==> (#[trigger] r@[i]).1 is Some,
        stop_on_failure ==> (r@.len() == (n as int - 2) / 2 || r@[r@.len() - 1].1 is None),
{
    let mut results: Vec<(u64, Option<(u64, u64)>)> = Vec::new();
    let mut t: u64 = 4;
    loop
        invariant_except_break
            primes.wf(),
            4 <= n,
            n % 2 == 0,
            4 <= t <= n,
            t % 2 == 0,
            results@.len() == (t as int - 4) / 2,
            forall|i: int| 0 <= i < results@.len() ==> (#[trigger] results@[i]).0 == 4 + 2 * i,
            forall|i: int|
                0 <= i < results@.len() ==> solve_result_ok(
                    (#[trigger] results@[i]).0,
                    primes@,
                    results@[i].1,
                ),
            forall|i: int|
                0 <= i < results@.len() ==> solve_result_min(
                    (#[trigger] results@[i]).0,
                    primes@,
                    results@[i].1,
                ),
            stop_on_failure ==> forall|i: int|
                0 <= i < results@.len() ==> (#[trigger] results@[i]).1 is Some,
        ensures
            1 <= results@.len() <= (n as int - 2) / 2,
            forall|i: int| 0 <= i < results@.len() ==> (#[trigger] results@[i]).0 == 4 + 2 * i,
            forall|i: int|
                0 <= i < results@.len() ==> solve_result_ok(
                    (#[trigger] results@[i]).0,
                    primes@,
                    results@[i].1,
                ),
            forall|i: int|
                0 <= i < results@.len() ==> solve_result_min(
                    (#[trigger] results@[i]).0,
                    primes@,
                    results@[i].1,
                ),
            !stop_on_failure ==> results@.len() == (n as int - 2) / 2,
            stop_on_failure ==> forall|i: int|
                0 <= i < results@.len() - 1 ==> (#[trigger] results@[i]).1 is Some,
            stop_on_failure ==> (results@.len() == (n as int - 2) / 2 || results@[results@.len()
                - 1].1 is None),
        decreases n - t,
    {
        let outcome = solve(t, primes);
        let failed = outcome.is_none();
        results.push((t, outcome));
        if stop_on_failure && failed {
            break ;
        }
        if t == n {
            break ;
        }
        t = t + 2;
    }
    results
}

} // verus!
