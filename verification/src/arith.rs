//! Divisibility and primality: the mathematical vocabulary that the sieve
//! and solver contracts are stated in, together with the divisor lemmas the
//! sieve proofs rest on.

use vstd::prelude::*;

verus! {

/// `d` divides `n`.
pub open spec fn divides(d: int, n: int) -> bool {
    exists|k: int| n == #[trigger] (d * k)
}

/// `p` is prime: at least 2, and no smaller number from 2 up divides it.
pub open spec fn is_prime(p: int) -> bool {
    p >= 2 && forall|d: int| 2 <= d < p ==> !divides(d, p)
}

pub proof fn lemma_divides_self(n: int)
    ensures
        divides(n, n),
{
    assert(n == n * 1);
}

pub proof fn lemma_divides_transitive(a: int, b: int, c: int)
    requires
        divides(a, b),
        divides(b, c),
    ensures
        divides(a, c),
{
    let k1 = choose|k: int| b == #[trigger] (a * k);
    let k2 = choose|k: int| c == #[trigger] (b * k);
    assert(c == a * (k1 * k2)) by (nonlinear_arith)
        requires
            b == a * k1,
            c == b * k2,
    ;
}

/// The smallest divisor of `n` that is at least `c`, found by scanning up;
/// `n` itself is always a divisor, so the scan terminates.
pub open spec fn smallest_divisor_from(n: int, c: int) -> int
    decreases n - c,
{
    if c >= n {
        n
    } else if divides(c, n) {
        c
    } else {
        smallest_divisor_from(n, c + 1)
    }
}

pub proof fn lemma_smallest_divisor_from_props(n: int, c: int)
    requires
        2 <= c <= n,
    ensures
        c <= smallest_divisor_from(n, c) <= n,
        divides(smallest_divisor_from(n, c), n),
        forall|e: int| c <= e < smallest_divisor_from(n, c) ==> !divides(e, n),
    decreases n - c,
{
    lemma_divides_self(n);
    if c < n && !divides(c, n) {
        lemma_smallest_divisor_from_props(n, c + 1);
    }
}

/// Every composite number has a prime factor no larger than its square root.
pub proof fn lemma_composite_has_prime_factor(n: int)
    requires
        n >= 2,
        !is_prime(n),
    ensures
        exists|p: int|
            is_prime(p) && divides(p, n) && 2 <= p < n && #[trigger] (p * p) <= n,
{
    let d = smallest_divisor_from(n, 2);
    lemma_smallest_divisor_from_props(n, 2);
    // n is composite, so some divisor below n exists; minimality puts d below n.
    let d0 = choose|e: int| 2 <= e < n && divides(e, n);
    assert(d <= d0);
    assert(2 <= d < n);
    // d is prime: a proper divisor of d would be a smaller divisor of n.
    assert forall|e: int| 2 <= e < d implies !divides(e, d) by {
        if divides(e, d) {
            lemma_divides_transitive(e, d, n);
        }
    }
    assert(is_prime(d));
    // The cofactor k = n / d is itself a divisor, and minimality gives d <= k.
    let k = choose|k: int| n == #[trigger] (d * k);
    assert(k >= 2) by (nonlinear_arith)
        requires
            n == d * k,
            2 <= d < n,
    ;
    assert(n == k * d);
    assert(divides(k, n));
    assert(k < n) by (nonlinear_arith)
        requires
            n == d * k,
            d >= 2,
            k >= 2,
    ;
    assert(d <= k);
    assert(d * d <= n) by (nonlinear_arith)
        requires
            n == d * k,
            2 <= d <= k,
    ;
}

/// A prime has no divisor `d` with `d * d <= p`: one half of the
/// "no divisor up to the square root" characterisation.
pub proof fn lemma_prime_no_small_divisor(p: int)
    requires
        is_prime(p),
    ensures
        forall|d: int| 2 <= d && #[trigger] (d * d) <= p ==> !divides(d, p),
{
    assert forall|d: int| 2 <= d && #[trigger] (d * d) <= p implies !divides(d, p) by {
        assert(d < d * d) by (nonlinear_arith)
            requires
                d >= 2,
        ;
        assert(2 <= d < p);
    }
}

/// Having no divisor up to the square root is the same as being prime
/// (for numbers at least 2): the other half of the characterisation.
pub proof fn lemma_no_small_divisor_implies_prime(n: int)
    requires
        n >= 2,
        forall|d: int| 2 <= d && #[trigger] (d * d) <= n ==> !divides(d, n),
    ensures
        is_prime(n),
{
    if !is_prime(n) {
        lemma_composite_has_prime_factor(n);
        let p = choose|p: int|
            is_prime(p) && divides(p, n) && 2 <= p < n && #[trigger] (p * p) <= n;
        assert(!divides(p, n));
    }
}

/// Two multiples of `i` within a gap smaller than `i` of each other
/// cannot be distinct: used when a striking loop stops near the bound.
pub proof fn lemma_multiple_le(i: int, a: int, b: int)
    requires
        i >= 1,
        divides(i, a),
        divides(i, b),
        a < b + i,
    ensures
        a <= b,
{
    let k1 = choose|k: int| a == #[trigger] (i * k);
    let k2 = choose|k: int| b == #[trigger] (i * k);
    assert(a <= b) by (nonlinear_arith)
        requires
            i >= 1,
            a == i * k1,
            b == i * k2,
            a < b + i,
    ;
}

} // verus!
