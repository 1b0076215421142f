//! The sieve engine: two interchangeable algorithms (Eratosthenes and
//! Atkin), each mapping a bound `n` to a set of candidate primes not
//! exceeding `n`.

use vstd::prelude::*;
use vstd::pervasive::VecAdditionalExecFns;
use vstd::arithmetic::div_mod::{lemma_fundamental_div_mod, lemma_mod_bound, lemma_small_mod};
use crate::arith::{
    divides, is_prime, lemma_composite_has_prime_factor, lemma_divides_transitive,
    lemma_multiple_le, lemma_no_small_divisor_implies_prime, lemma_prime_no_small_divisor,
};
use crate::prime_set::PrimeSet;

verus! {

/// Which sieve variant to run.
#[derive(Clone, Copy, PartialEq, Eq, Structural)]
pub enum SieveAlgorithm {
    Eratosthenes,
    Atkin,
}

impl SieveAlgorithm {
    /// The algorithm's display name.
    pub fn name(&self) -> (r: &'static str)
        ensures
            *self == SieveAlgorithm::Eratosthenes ==> r@ == "Eratosthenes"@,
            *self == SieveAlgorithm::Atkin ==> r@ == "Atkin"@,
    {
        match self {
            SieveAlgorithm::Eratosthenes => "Eratosthenes",
            SieveAlgorithm::Atkin => "Atkin",
        }
    }
}

/// The exact set a sieve must produce: every prime up to `n` and nothing else.
pub open spec fn primes_upto(n: u64) -> Set<u64> {
    Set::new(|k: u64| 2 <= k && k <= n && is_prime(k as int))
}

/// `d` is a witness that `j` is composite: a divisor no larger than √j.
pub open spec fn small_divisor(d: int, j: int) -> bool {
    d * d <= j && divides(d, j)
}

/// `j` has a composite witness strictly below `bound`.
pub open spec fn has_divisor_below(j: int, bound: int) -> bool {
    exists|d: int| 2 <= d < bound && #[trigger] small_divisor(d, j)
}

/// The Eratosthenes marker-array invariant: after all indices below `i`
/// have been processed, an entry is still set exactly when no processed
/// index witnessed it composite.
pub open spec fn erat_marks(flags: Seq<bool>, n: int, i: int) -> bool {
    forall|j: int| 2 <= j <= n ==> ((#[trigger] flags[j]) <==> !has_divisor_below(j, i))
}

/// If `i <= n / i` then `i * i` does not exceed `n`.
proof fn lemma_sq_within(i: u64, n: u64)
    requires
        1 <= i,
        i as int <= n as int / i as int,
    ensures
        i as int * i as int <= n as int,
{
    let ii = i as int;
    let nn = n as int;
    lemma_fundamental_div_mod(nn, ii);
    lemma_mod_bound(nn, ii);
    assert(ii * ii <= nn) by (nonlinear_arith)
        requires
            nn == ii * (nn / ii) + nn % ii,
            0 <= nn % ii,
            ii <= nn / ii,
            1 <= ii,
    ;
}

/// If `i > n / i` then `i * i` exceeds `n`.
proof fn lemma_sq_beyond(i: u64, n: u64)
    requires
        1 <= i,
        i as int > n as int / i as int,
    ensures
        i as int * i as int > n as int,
{
    let ii = i as int;
    let nn = n as int;
    lemma_fundamental_div_mod(nn, ii);
    lemma_mod_bound(nn, ii);
    assert(ii * ii > nn) by (nonlinear_arith)
        requires
            nn == ii * (nn / ii) + nn % ii,
            nn % ii < ii,
            ii > nn / ii,
            1 <= ii,
    ;
}

/// Generate the set of all primes up to `n` using the Sieve of Eratosthenes.
pub fn sieve_eratosthenes(n: u64) -> (r: PrimeSet)
    requires
        n + 1 <= usize::MAX,
    ensures
        r.wf(),
        r@ == primes_upto(n),
{
    let len: usize = (n + 1) as usize;
    let mut flags: Vec<bool> = Vec::new();
    while flags.len() < len
        invariant
            flags@.len() <= len,
            forall|j: int| 0 <= j < flags@.len() ==> flags@[j],
        decreases len - flags@.len(),
    {
        flags.push(true);
    }
    let mut primes = PrimeSet::new();
    let mut i: u64 = 2;
    while i <= n
        invariant
            n + 1 <= usize::MAX,
            2 <= i,
            n >= 2 ==> i <= n + 1,
            n < 2 ==> i == 2,
            flags@.len() == n + 1,
            erat_marks(flags@, n as int, i as int),
            primes.wf(),
            forall|k: u64|
                (#[trigger] primes@.contains(k)) <==> (2 <= k < i && is_prime(k as int)),
        decreases n + 1 - i,
    {
        if flags[i as usize] {
            proof {
                // A set marker at i means i has no small divisor, so i is prime.
                assert forall|d: int| 2 <= d && #[trigger] (d * d) <= i as int implies !divides(
                    d,
                    i as int,
                ) by {
                    if divides(d, i as int) {
                        assert(d < i) by (nonlinear_arith)
                            requires
                                2 <= d,
                                d * d <= i as int,
                        ;
                        assert(small_divisor(d, i as int));
                        assert(has_divisor_below(i as int, i as int));
                    }
                }
                lemma_no_small_divisor_implies_prime(i as int);
            }
            primes.push_max(i);
            if i <= n / i {
                proof {
                    lemma_sq_within(i, n);
                }
                let mut j: u64 = i * i;
                let ghost entry_flags = flags@;
                loop
                    invariant_except_break
                        2 <= i,
                        i as int * i as int <= j as int <= n as int,
                        n + 1 <= usize::MAX,
                        divides(i as int, j as int),
                        flags@.len() == n + 1,
                        forall|k: int|
                            0 <= k <= n ==> ((#[trigger] flags@[k]) <==> (entry_flags[k] && !(
                            i as int * i as int <= k < j as int && divides(i as int, k)))),
                    ensures
                        flags@.len() == n + 1,
                        forall|k: int|
                            0 <= k <= n ==> ((#[trigger] flags@[k]) <==> (entry_flags[k] && !(
                            i as int * i as int <= k <= n as int && divides(i as int, k)))),
                    decreases n - j,
                {
                    flags.set(j as usize, false);
                    proof {
                        assert forall|k: int| 0 <= k <= n implies ((#[trigger] flags@[k]) <==> (
                        entry_flags[k] && !(i as int * i as int <= k < j as int + 1 && divides(
                            i as int,
                            k,
                        )))) by {}
                    }
                    if n - j < i {
                        proof {
                            // Any further multiple of i would land beyond n.
                            assert forall|k: int| 0 <= k <= n implies ((#[trigger] flags@[k])
                                <==> (entry_flags[k] && !(i as int * i as int <= k <= n as int
                                && divides(i as int, k)))) by {
                                if i as int * i as int <= k <= n as int && divides(i as int, k) {
                                    lemma_multiple_le(i as int, k, j as int);
                                }
                            }
                        }
                        break;
                    }
                    proof {
                        let k1 = choose|k: int| j as int == #[trigger] (i as int * k);
                        assert(j as int + i as int == i as int * (k1 + 1)) by (nonlinear_arith)
                            requires
                                j as int == i as int * k1,
                        ;
                        assert(divides(i as int, j as int + i as int));
                        assert forall|k: int|
                            i as int * i as int <= k < j as int + i as int && divides(
                                i as int,
                                k,
                            ) implies k <= j as int by {
                            lemma_multiple_le(i as int, k, j as int);
                        }
                    }
                    j = j + i;
                }
                proof {
                    lemma_next_marks_strike(entry_flags, flags@, n as int, i as int);
                }
            } else {
                proof {
                    lemma_sq_beyond(i, n);
                    lemma_next_marks_beyond(flags@, n as int, i as int);
                }
            }
        } else {
            proof {
                // A cleared marker means i is composite; any witness divisor
                // of a multiple of i can be replaced by a prime factor of i.
                assert(!flags@[i as int]);
                assert(has_divisor_below(i as int, i as int));
                let d = choose|d: int| 2 <= d < i as int && #[trigger] small_divisor(d, i as int);
                assert(divides(d, i as int));
                assert(!is_prime(i as int));
                lemma_next_marks_skip(flags@, n as int, i as int);
            }
        }
        i = i + 1;
    }
    proof {
        assert(primes@ =~= primes_upto(n));
    }
    primes
}

/// After a prime `i` has struck all of its multiples from `i * i` on, the
/// marker invariant advances from `i` to `i + 1`.
proof fn lemma_next_marks_strike(entry: Seq<bool>, flags: Seq<bool>, n: int, i: int)
    requires
        2 <= i <= n,
        entry.len() == n + 1,
        flags.len() == n + 1,
        erat_marks(entry, n, i),
        forall|k: int|
            0 <= k <= n ==> ((#[trigger] flags[k]) <==> (entry[k] && !(i * i <= k <= n
            && divides(i, k)))),
    ensures
        erat_marks(flags, n, i + 1),
{
    assert forall|j: int| 2 <= j <= n implies (flags[j] <==> !has_divisor_below(j, i + 1)) by {
        if flags[j] {
            if has_divisor_below(j, i + 1) {
                let d = choose|d: int| 2 <= d < i + 1 && #[trigger] small_divisor(d, j);
                if d < i {
                    assert(has_divisor_below(j, i));
                } else {
                    assert(d == i);
                    assert(i * i <= j <= n && divides(i, j));
                }
            }
        } else {
            if entry[j] {
                assert(i * i <= j <= n && divides(i, j));
                assert(small_divisor(i, j));
                assert(has_divisor_below(j, i + 1));
            } else {
                let d = choose|d: int| 2 <= d < i && #[trigger] small_divisor(d, j);
                assert(has_divisor_below(j, i + 1));
            }
        }
    }
}

/// When `i * i` already exceeds `n`, no multiple needed striking and the
/// marker invariant advances for free.
proof fn lemma_next_marks_beyond(flags: Seq<bool>, n: int, i: int)
    requires
        2 <= i <= n,
        flags.len() == n + 1,
        erat_marks(flags, n, i),
        i * i > n,
    ensures
        erat_marks(flags, n, i + 1),
{
    assert forall|j: int| 2 <= j <= n implies (flags[j] <==> !has_divisor_below(j, i + 1)) by {
        if has_divisor_below(j, i + 1) {
            let d = choose|d: int| 2 <= d < i + 1 && #[trigger] small_divisor(d, j);
            if d < i {
                assert(has_divisor_below(j, i));
            } else {
                assert(d * d <= j <= n);
            }
        }
        if has_divisor_below(j, i) {
            let d = choose|d: int| 2 <= d < i && #[trigger] small_divisor(d, j);
            assert(small_divisor(d, j));
            assert(has_divisor_below(j, i + 1));
        }
    }
}

/// When `i` itself is composite, every witness involving `i` can be traded
/// for one involving a prime factor of `i`, so skipping `i` is sound.
proof fn lemma_next_marks_skip(flags: Seq<bool>, n: int, i: int)
    requires
        2 <= i <= n,
        flags.len() == n + 1,
        erat_marks(flags, n, i),
        !is_prime(i),
    ensures
        erat_marks(flags, n, i + 1),
{
    lemma_composite_has_prime_factor(i);
    let p = choose|p: int|
        is_prime(p) && divides(p, i) && 2 <= p < i && #[trigger] (p * p) <= i;
    assert forall|j: int| 2 <= j <= n implies (flags[j] <==> !has_divisor_below(j, i + 1)) by {
        if has_divisor_below(j, i + 1) {
            let d = choose|d: int| 2 <= d < i + 1 && #[trigger] small_divisor(d, j);
            if d < i {
                assert(has_divisor_below(j, i));
            } else {
                assert(d == i);
                lemma_divides_transitive(p, i, j);
                assert(i <= i * i) by (nonlinear_arith)
                    requires
                        i >= 2,
                ;
                assert(p * p <= j);
                assert(small_divisor(p, j));
                assert(has_divisor_below(j, i));
            }
        }
        if has_divisor_below(j, i) {
            let d = choose|d: int| 2 <= d < i && #[trigger] small_divisor(d, j);
            assert(small_divisor(d, j));
            assert(has_divisor_below(j, i + 1));
        }
    }
}

/// The Atkin marker invariant: a set marker can only stand at an index that
/// is at least 5 and coprime to 12 (the only residues the quadratic forms
/// ever toggle).
pub open spec fn atkin_marks(flags: Seq<bool>) -> bool {
    forall|k: int|
        0 <= k < flags.len() ==> ((#[trigger] flags[k]) ==> (k >= 5 && (k % 12 == 1 || k % 12 == 5
            || k % 12 == 7 || k % 12 == 11)))
}

/// Integer square root: the largest value whose square does not exceed `n`.
fn int_sqrt(n: u64) -> (r: u64)
    ensures
        r as int * r as int <= n as int,
        (r as int + 1) * (r as int + 1) > n as int,
        r < 0x1_0000_0000u64,
{
    let mut r: u64 = 0;
    loop
        invariant_except_break
            r as int * r as int <= n as int,
            r as int <= n as int,
            r < 0x1_0000_0000u64,
        ensures
            r as int * r as int <= n as int,
            (r as int + 1) * (r as int + 1) > n as int,
            r < 0x1_0000_0000u64,
        decreases n as int - r as int,
    {
        let s = r + 1;
        proof {
            let si = s as int;
            assert(si * si < 0x1_0000_0000_0000_0000_0000_0000_0000_0000) by (nonlinear_arith)
                requires
                    1 <= si <= 0x1_0000_0000,
            ;
        }
        let sq: u128 = (s as u128) * (s as u128);
        if sq <= n as u128 {
            proof {
                let si = s as int;
                let nn = n as int;
                assert(si <= nn && si < 0x1_0000_0000) by (nonlinear_arith)
                    requires
                        si * si <= nn,
                        nn < 0x1_0000_0000_0000_0000,
                        si >= 1,
                ;
            }
            r = s;
        } else {
            break ;
        }
    }
    r
}

/// Generate candidate primes up to `n` using the Sieve of Atkin: the
/// quadratic-form residue pass, the square-multiple elimination pass, and
/// the forced inclusion of 2 and 3. The result is pinned exactly: it is
/// `atkin_set` for the scan radius determined by `n`.
pub fn sieve_atkin(n: u64) -> (r: PrimeSet)
    requires
        n + 1 <= usize::MAX,
    ensures
        r.wf(),
        r@.contains(2) <==> n >= 2,
        r@.contains(3) <==> n >= 3,
        forall|k: u64| #[trigger] r@.contains(k) ==> 2 <= k <= n,
        forall|k: u64|
            #[trigger] r@.contains(k) && k >= 5 ==> (k % 12 == 1 || k % 12 == 5 || k % 12 == 7
                || k % 12 == 11),
        exists|s: int| #[trigger] is_isqrt(s, n as int) && r@ == atkin_set(n, s),
{
    let len: usize = (n + 1) as usize;
    let mut flags: Vec<bool> = Vec::new();
    while flags.len() < len
        invariant
            flags@.len() <= len,
            forall|j: int| 0 <= j < flags@.len() ==> !flags@[j],
        decreases len - flags@.len(),
    {
        flags.push(false);
    }
    let sqrt_n = int_sqrt(n);
    let ghost gs = sqrt_n as int;
    let ghost gn = n as int;
    let mut x: u64 = 1;
    while x <= sqrt_n
        invariant
            n + 1 <= usize::MAX,
            flags@.len() == n + 1,
            gs == sqrt_n as int,
            gn == n as int,
            sqrt_n as int * sqrt_n as int <= n as int,
            sqrt_n < 0x1_0000_0000u64,
            atkin_marks(flags@),
            1 <= x,
            x as int <= gs + 1,
            forall|v: int|
                0 <= v <= gn ==> ((#[trigger] flags@[v]) == atkin_parity(
                    v,
                    gn,
                    gs,
                    (x as int - 1) * gs,
                )),
        decreases sqrt_n as int + 1 - x as int,
    {
        proof {
            assert(x as int * x as int <= n as int) by (nonlinear_arith)
                requires
                    1 <= x as int <= sqrt_n as int,
                    sqrt_n as int * sqrt_n as int <= n as int,
            ;
        }
        let x_sq = x * x;
        let mut y: u64 = 1;
        while y <= sqrt_n
            invariant
                n + 1 <= usize::MAX,
                flags@.len() == n + 1,
                gs == sqrt_n as int,
                gn == n as int,
                sqrt_n as int * sqrt_n as int <= n as int,
                sqrt_n < 0x1_0000_0000u64,
                atkin_marks(flags@),
                1 <= x <= sqrt_n,
                1 <= y,
                y as int <= gs + 1,
                x_sq as int == x as int * x as int,
                x_sq <= n,
                forall|v: int|
                    0 <= v <= gn ==> ((#[trigger] flags@[v]) == atkin_parity(
                        v,
                        gn,
                        gs,
                        (x as int - 1) * gs + (y as int - 1),
                    )),
            decreases sqrt_n as int + 1 - y as int,
        {
            proof {
                assert(y as int * y as int <= n as int) by (nonlinear_arith)
                    requires
                        1 <= y as int <= sqrt_n as int,
                        sqrt_n as int * sqrt_n as int <= n as int,
                ;
            }
            let y_sq = y * y;
            let ghost xi = x as int;
            let ghost yi = y as int;
            let ghost pos = (xi - 1) * gs + (yi - 1);
            let ghost g0 = flags@;
            let c1: u128 = 4 * (x_sq as u128) + (y_sq as u128);
            if c1 <= n as u128 {
                let m = c1 as u64;
                let rem = m % 12;
                if rem == 1 || rem == 5 {
                    proof {
                        assert(4 * (xi * xi) + yi * yi >= 5) by (nonlinear_arith)
                            requires
                                xi >= 1,
                                yi >= 1,
                        ;
                    }
                    let cur = flags[m as usize];
                    flags.set(m as usize, !cur);
                }
            }
            proof {
                assert forall|v: int| 0 <= v <= gn implies (#[trigger] flags@[v]) == (g0[v] != (v
                    == 4 * (xi * xi) + yi * yi && (v % 12 == 1 || v % 12 == 5))) by {}
            }
            let ghost g1 = flags@;
            let c2: u128 = 3 * (x_sq as u128) + (y_sq as u128);
            if c2 <= n as u128 {
                let m = c2 as u64;
                let rem = m % 12;
                if rem == 7 {
                    proof {
                        if m < 12 {
                            lemma_small_mod(m as nat, 12);
                        }
                    }
                    let cur = flags[m as usize];
                    flags.set(m as usize, !cur);
                }
            }
            proof {
                assert forall|v: int| 0 <= v <= gn implies (#[trigger] flags@[v]) == (g1[v] != (v
                    == 3 * (xi * xi) + yi * yi && v % 12 == 7)) by {}
            }
            let ghost g2 = flags@;
            if x > y {
                proof {
                    assert(yi * yi < 3 * (xi * xi)) by (nonlinear_arith)
                        requires
                            1 <= yi < xi,
                    ;
                }
                let c3: u128 = 3 * (x_sq as u128) - (y_sq as u128);
                if c3 <= n as u128 {
                    let m = c3 as u64;
                    let rem = m % 12;
                    if rem == 11 {
                        proof {
                            if m < 12 {
                                lemma_small_mod(m as nat, 12);
                            }
                        }
                        let cur = flags[m as usize];
                        flags.set(m as usize, !cur);
                    }
                }
            }
            proof {
                assert forall|v: int| 0 <= v <= gn implies (#[trigger] flags@[v]) == (g2[v] != (xi
                    > yi && v == 3 * (xi * xi) - yi * yi && v % 12 == 11)) by {}
                // The three forms pin v to three different values, so the
                // chain of toggles is a single toggle on their disjunction.
                assert(4 * (xi * xi) + yi * yi != 3 * (xi * xi) + yi * yi) by (nonlinear_arith)
                    requires
                        xi >= 1,
                ;
                assert(4 * (xi * xi) + yi * yi != 3 * (xi * xi) - yi * yi) by (nonlinear_arith)
                    requires
                        yi >= 1,
                ;
                assert(3 * (xi * xi) + yi * yi != 3 * (xi * xi) - yi * yi) by (nonlinear_arith)
                    requires
                        yi >= 1,
                ;
                assert forall|v: int| 0 <= v <= gn implies (#[trigger] flags@[v]) == (g0[v]
                    != atkin_flip(xi, yi, v, gn)) by {
                    assert(g1[v] == (g0[v] != (v == 4 * (xi * xi) + yi * yi && (v % 12 == 1 || v
                        % 12 == 5))));
                    assert(g2[v] == (g1[v] != (v == 3 * (xi * xi) + yi * yi && v % 12 == 7)));
                    assert(flags@[v] == (g2[v] != (xi > yi && v == 3 * (xi * xi) - yi * yi && v
                        % 12 == 11)));
                    if v == 4 * (xi * xi) + yi * yi {
                    } else if v == 3 * (xi * xi) + yi * yi {
                    } else if xi > yi && v == 3 * (xi * xi) - yi * yi {
                    }
                }
                vstd::arithmetic::div_mod::lemma_fundamental_div_mod_converse(
                    pos,
                    gs,
                    xi - 1,
                    yi - 1,
                );
                assert forall|v: int| 0 <= v <= gn implies (#[trigger] flags@[v]) == atkin_parity(
                    v,
                    gn,
                    gs,
                    pos + 1,
                ) by {
                    assert(atkin_parity(v, gn, gs, pos + 1) == (atkin_parity(v, gn, gs, pos)
                        != atkin_flip(pos / gs + 1, pos % gs + 1, v, gn)));
                }
            }
            y = y + 1;
        }
        proof {
            assert((x as int - 1) * gs + gs == (x as int + 1 - 1) * gs) by (nonlinear_arith);
        }
        x = x + 1;
    }
    proof {
        assert((gs + 1 - 1) * gs == gs * gs) by (nonlinear_arith);
        if sqrt_n == 0 {
            assert(gs * gs == 0) by (nonlinear_arith)
                requires
                    gs == 0,
            ;
        }
    }
    // Eliminate the square-multiple survivors of the residue pass.
    let mut i: u64 = 5;
    while i <= n
        invariant
            n + 1 <= usize::MAX,
            flags@.len() == n + 1,
            gs == sqrt_n as int,
            gn == n as int,
            atkin_marks(flags@),
            5 <= i,
            n >= 5 ==> i as int <= gn + 1,
            n < 5 ==> i == 5,
            forall|v: int|
                0 <= v <= gn ==> ((#[trigger] flags@[v]) == atkin_surv(v, gn, gs, i as int)),
        decreases n as int + 1 - i as int,
    {
        let ghost entry = flags@;
        if flags[i as usize] {
            if i <= n / i {
                proof {
                    lemma_sq_within(i, n);
                    let ii = i as int;
                    assert(ii * ii >= 5) by (nonlinear_arith)
                        requires
                            ii >= 5,
                    ;
                }
                let step = i * i;
                let mut j: u64 = step;
                proof {
                    assert(step as int == step as int * 1);
                    assert(divides(step as int, j as int));
                }
                loop
                    invariant_except_break
                        n + 1 <= usize::MAX,
                        flags@.len() == n + 1,
                        atkin_marks(flags@),
                        gn == n as int,
                        step as int == i as int * i as int,
                        5 <= step,
                        divides(step as int, j as int),
                        step as int <= j as int <= n as int,
                        forall|k: int|
                            0 <= k <= gn ==> ((#[trigger] flags@[k]) == (entry[k] && !(
                            step as int <= k < j as int && divides(step as int, k)))),
                    ensures
                        flags@.len() == n + 1,
                        atkin_marks(flags@),
                        forall|k: int|
                            0 <= k <= gn ==> ((#[trigger] flags@[k]) == (entry[k] && !(
                            step as int <= k <= gn && divides(step as int, k)))),
                    decreases n as int - j as int,
                {
                    flags.set(j as usize, false);
                    proof {
                        assert forall|k: int| 0 <= k <= gn implies ((#[trigger] flags@[k]) == (
                        entry[k] && !(step as int <= k < j as int + 1 && divides(
                            step as int,
                            k,
                        )))) by {}
                    }
                    if n - j < step {
                        proof {
                            assert forall|k: int| 0 <= k <= gn implies ((#[trigger] flags@[k])
                                == (entry[k] && !(step as int <= k <= gn && divides(
                                step as int,
                                k,
                            )))) by {
                                if step as int <= k <= gn && divides(step as int, k) {
                                    lemma_multiple_le(step as int, k, j as int);
                                }
                            }
                        }
                        break ;
                    }
                    proof {
                        let k1 = choose|k: int| j as int == #[trigger] (step as int * k);
                        assert(j as int + step as int == step as int * (k1 + 1))
                            by (nonlinear_arith)
                            requires
                                j as int == step as int * k1,
                        ;
                        assert(divides(step as int, j as int + step as int));
                        assert forall|k: int|
                            step as int <= k < j as int + step as int && divides(
                                step as int,
                                k,
                            ) implies k <= j as int by {
                            lemma_multiple_le(step as int, k, j as int);
                        }
                    }
                    j = j + step;
                }
                proof {
                    assert forall|v: int| 0 <= v <= gn implies ((#[trigger] flags@[v])
                        == atkin_surv(v, gn, gs, i as int + 1)) by {
                        assert(atkin_surv(i as int, gn, gs, i as int) == entry[i as int]);
                    }
                }
            } else {
                proof {
                    lemma_sq_beyond(i, n);
                    assert forall|v: int| 0 <= v <= gn implies ((#[trigger] flags@[v])
                        == atkin_surv(v, gn, gs, i as int + 1)) by {
                        assert(atkin_surv(i as int, gn, gs, i as int) == entry[i as int]);
                    }
                }
            }
        } else {
            proof {
                assert forall|v: int| 0 <= v <= gn implies ((#[trigger] flags@[v]) == atkin_surv(
                    v,
                    gn,
                    gs,
                    i as int + 1,
                )) by {
                    assert(atkin_surv(i as int, gn, gs, i as int) == entry[i as int]);
                }
            }
        }
        i = i + 1;
    }
    // 2 and 3 are never produced by the quadratic forms; force them in.
    let mut primes = PrimeSet::new();
    if n >= 2 {
        primes.push_max(2);
    }
    if n >= 3 {
        primes.push_max(3);
    }
    let mut c: u64 = 5;
    while c <= n
        invariant
            n + 1 <= usize::MAX,
            flags@.len() == n + 1,
            gs == sqrt_n as int,
            gn == n as int,
            atkin_marks(flags@),
            5 <= c,
            n >= 5 ==> c <= n + 1,
            n < 5 ==> c == 5,
            primes.wf(),
            forall|v: int|
                0 <= v <= gn ==> ((#[trigger] flags@[v]) == atkin_surv(v, gn, gs, gn + 1)),
            forall|k: u64|
                (#[trigger] primes@.contains(k)) <==> ((k == 2 && n >= 2) || (k == 3 && n >= 3)
                    || (5 <= k < c && flags@[k as int])),
        decreases n as int + 1 - c as int,
    {
        if flags[c as usize] {
            primes.push_max(c);
        }
        c = c + 1;
    }
    proof {
        assert(is_isqrt(gs, gn));
        assert(primes@ =~= atkin_set(n, gs));
    }
    primes
}

/// What a sieve run guarantees. Both variants include 2 and 3 exactly when
/// the bound allows them and stay within `[2, n]`; each variant's set is
/// additionally pinned exactly: the primes up to `n` for Eratosthenes, and
/// `atkin_set` at the bound's square root for Atkin.
pub open spec fn sieve_post(n: u64, algo: SieveAlgorithm, s: PrimeSet) -> bool {
    &&& s.wf()
    &&& (s@.contains(2) <==> n >= 2)
    &&& (s@.contains(3) <==> n >= 3)
    &&& forall|k: u64| #[trigger] s@.contains(k) ==> 2 <= k <= n
    &&& (algo == SieveAlgorithm::Eratosthenes ==> s@ == primes_upto(n))
    &&& (algo == SieveAlgorithm::Atkin ==> exists|sq: int|
        #[trigger] is_isqrt(sq, n as int) && s@ == atkin_set(n, sq))
}

/// Generate candidate primes up to `n` using the requested algorithm.
pub fn sieve_primes(n: u64, algo: SieveAlgorithm) -> (r: PrimeSet)
    requires
        n + 1 <= usize::MAX,
    ensures
        sieve_post(n, algo, r),
{
    match algo {
        SieveAlgorithm::Eratosthenes => {
            let r = sieve_eratosthenes(n);
            proof {
                lemma_is_prime_2_3();
            }
            r
        },
        SieveAlgorithm::Atkin => sieve_atkin(n),
    }
}

/// 2 and 3 are prime.
pub proof fn lemma_is_prime_2_3()
    ensures
        is_prime(2),
        is_prime(3),
{
    assert forall|d: int| 2 <= d < 3 implies !divides(d, 3) by {
        if divides(d, 3) {
            let k = choose|k: int| 3 == #[trigger] (d * k);
            // 3 == 2 * k has no integer solution.
            assert(d == 2);
            assert(false);
        }
    }
}

/// No member of the sieve's set has a divisor between 2 and its square
/// root: members really are prime.
pub proof fn lemma_sieve_member_no_small_divisor(n: u64, p: u64)
    requires
        primes_upto(n).contains(p),
    ensures
        forall|d: int| 2 <= d && #[trigger] (d * d) <= p as int ==> !divides(d, p as int),
{
    lemma_prime_no_small_divisor(p as int);
}

/// No composite number up to the bound is in the sieve's set.
pub proof fn lemma_composite_not_in_sieve(n: u64, c: u64)
    requires
        2 <= c,
        !is_prime(c as int),
    ensures
        !primes_upto(n).contains(c),
{
}

/// The sieve's set is a function of the bound alone: any two values that
/// satisfy the Eratosthenes contract for the same bound are identical, so
/// re-running the sieve yields the same set every time.
pub proof fn lemma_sieve_deterministic(a: Set<u64>, b: Set<u64>, n: u64)
    requires
        a == primes_upto(n),
        b == primes_upto(n),
    ensures
        a == b,
{
}

/// One scan position of the quadratic-form pass toggles value `v`: `v` is
/// produced by one of the three forms at `(x, y)`, lies within the bound,
/// and lands on the form's residue class modulo 12.
pub open spec fn atkin_flip(x: int, y: int, v: int, n: int) -> bool {
    ||| (v == 4 * (x * x) + y * y && v <= n && (v % 12 == 1 || v % 12 == 5))
    ||| (v == 3 * (x * x) + y * y && v <= n && v % 12 == 7)
    ||| (x > y && v == 3 * (x * x) - y * y && v <= n && v % 12 == 11)
}

/// Whether `v` has been toggled an odd number of times by the first `pos`
/// pairs of the row-major scan of `[1, s] x [1, s]`.
pub open spec fn atkin_parity(v: int, n: int, s: int, pos: int) -> bool
    decreases pos,
{
    if pos <= 0 || s <= 0 {
        false
    } else {
        let p = pos - 1;
        atkin_parity(v, n, s, p) != atkin_flip(p / s + 1, p % s + 1, v, n)
    }
}

/// Whether `v` is still marked after the elimination pass has processed
/// every index below `bound`: it came out of the residue pass with odd
/// parity, and no still-marked index up to `bound` claims it as a multiple
/// of its square.
pub open spec fn atkin_surv(v: int, n: int, s: int, bound: int) -> bool
    decreases bound,
{
    if bound <= 5 {
        atkin_parity(v, n, s, s * s)
    } else {
        let i = bound - 1;
        atkin_surv(v, n, s, i) && !(atkin_surv(i, n, s, i) && i * i <= v && divides(i * i, v))
    }
}

/// `s` is the integer square root of `n`.
pub open spec fn is_isqrt(s: int, n: int) -> bool {
    0 <= s && s * s <= n && (s + 1) * (s + 1) > n
}

/// The exact set the Atkin sieve produces for bound `n` with scan radius
/// `s`: 2 and 3 forced in, plus every elimination survivor in `[5, n]`.
pub open spec fn atkin_set(n: u64, s: int) -> Set<u64> {
    Set::new(
        |k: u64|
            (k == 2 && n >= 2) || (k == 3 && n >= 3) || (5 <= k && k <= n && atkin_surv(
                k as int,
                n as int,
                s,
                n as int + 1,
            )),
    )
}

/// A bound has only one integer square root.
pub proof fn lemma_isqrt_unique(s1: int, s2: int, n: int)
    requires
        is_isqrt(s1, n),
        is_isqrt(s2, n),
    ensures
        s1 == s2,
{
    if s1 < s2 {
        assert((s1 + 1) * (s1 + 1) <= s2 * s2) by (nonlinear_arith)
            requires
                0 <= s1 < s2,
        ;
    }
    if s2 < s1 {
        assert((s2 + 1) * (s2 + 1) <= s1 * s1) by (nonlinear_arith)
            requires
                0 <= s2 < s1,
        ;
    }
}

/// The Atkin sieve's set is a function of the bound alone: its scan radius
/// is determined by the bound, so any two values that satisfy the Atkin
/// contract for the same bound are identical.
pub proof fn lemma_atkin_deterministic(a: Set<u64>, b: Set<u64>, n: u64)
    requires
        exists|s: int| #[trigger] is_isqrt(s, n as int) && a == atkin_set(n, s),
        exists|s: int| #[trigger] is_isqrt(s, n as int) && b == atkin_set(n, s),
    ensures
        a == b,
{
    let s1 = choose|s: int| #[trigger] is_isqrt(s, n as int) && a == atkin_set(n, s);
    let s2 = choose|s: int| #[trigger] is_isqrt(s, n as int) && b == atkin_set(n, s);
    lemma_isqrt_unique(s1, s2, n as int);
}

} // verus!
