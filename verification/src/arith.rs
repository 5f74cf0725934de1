//! Primality, prime counting, and the largest prime below a bound.
//!
//! These spec functions are the vocabulary of the search contracts, and the
//! lemmas here are the number-theoretic facts the searches are proved against.

use vstd::prelude::*;
use vstd::arithmetic::div_mod::{
    lemma_fundamental_div_mod, lemma_mod_multiples_basic, lemma_mod_self_0,
};

verus! {

/// n is prime: at least 2, with no divisor strictly between 1 and n.
pub open spec fn prime(n: int) -> bool {
    n >= 2 && forall|d: int| 2 <= d < n ==> #[trigger] (n % d) != 0
}

/// How many primes lie strictly below n.
pub open spec fn count_primes_lt(n: int) -> nat
    decreases n,
{
    if n <= 2 {
        0
    } else {
        count_primes_lt(n - 1) + if prime(n - 1) {
            1nat
        } else {
            0nat
        }
    }
}

/// The largest prime at most n (2 when n itself is below the first prime).
pub open spec fn largest_prime_le(n: int) -> int
    decreases n,
{
    if n <= 2 {
        2
    } else if prime(n) {
        n
    } else {
        largest_prime_le(n - 1)
    }
}

/// The first two odd numbers the searches start from are prime.
pub proof fn lemma_two_and_three_prime()
    ensures
        prime(2),
        prime(3),
{
    assert forall|d: int| 2 <= d < 3 implies #[trigger] (3int % d) != 0 by {
        assert(d == 2);
    }
}

/// Divisibility is transitive: if e divides d and d divides n, then e divides n.
pub proof fn lemma_divides_transitive(e: int, d: int, n: int)
    requires
        1 <= e,
        1 <= d,
        d % e == 0,
        n % d == 0,
    ensures
        n % e == 0,
{
    lemma_fundamental_div_mod(n, d);
    lemma_fundamental_div_mod(d, e);
    let a = n / d;
    let b = d / e;
    assert(n == (b * a) * e) by (nonlinear_arith)
        requires
            n == d * a,
            d == e * b,
    ;
    lemma_mod_multiples_basic(b * a, e);
}

/// A composite number has a divisor no larger than its square root.
pub proof fn lemma_composite_has_small_divisor(n: int)
    requires
        n >= 2,
        !prime(n),
    ensures
        exists|d: int| 2 <= d < n && d * d <= n && #[trigger] (n % d) == 0,
{
    let d0 = choose|d: int| 2 <= d < n && #[trigger] (n % d) == 0;
    lemma_fundamental_div_mod(n, d0);
    let e = n / d0;
    assert(n == d0 * e);
    assert(e >= 2 && e < n && d0 * e == e * d0) by (nonlinear_arith)
        requires
            n == d0 * e,
            2 <= d0 < n,
    ;
    lemma_mod_multiples_basic(d0, e);
    assert(n % e == 0);
    if d0 * d0 <= n {
        assert(2 <= d0 < n && d0 * d0 <= n && n % d0 == 0);
    } else {
        assert(e * e <= n) by (nonlinear_arith)
            requires
                n == d0 * e,
                d0 * d0 > n,
                2 <= d0,
                2 <= e,
        ;
        assert(2 <= e < n && e * e <= n && n % e == 0);
    }
}

/// Every number at least 2 has a prime divisor.
pub proof fn lemma_has_prime_divisor(n: int)
    requires
        n >= 2,
    ensures
        exists|p: int| prime(p) && p <= n && #[trigger] (n % p) == 0,
    decreases n,
{
    if prime(n) {
        lemma_mod_self_0(n);
        assert(prime(n) && n <= n && n % n == 0);
    } else {
        lemma_composite_has_small_divisor(n);
        let d = choose|d: int| 2 <= d < n && d * d <= n && #[trigger] (n % d) == 0;
        lemma_has_prime_divisor(d);
        let p = choose|p: int| prime(p) && p <= d && #[trigger] (d % p) == 0;
        lemma_divides_transitive(p, d, n);
        assert(prime(p) && p <= n && n % p == 0);
    }
}

/// A composite number has a prime divisor no larger than its square root.
pub proof fn lemma_composite_has_small_prime_divisor(n: int)
    requires
        n >= 2,
        !prime(n),
    ensures
        exists|q: int| prime(q) && 2 <= q && q * q <= n && #[trigger] (n % q) == 0,
{
    lemma_composite_has_small_divisor(n);
    let d = choose|d: int| 2 <= d < n && d * d <= n && #[trigger] (n % d) == 0;
    lemma_has_prime_divisor(d);
    let q = choose|q: int| prime(q) && q <= d && #[trigger] (d % q) == 0;
    lemma_divides_transitive(q, d, n);
    assert(q * q <= d * d) by (nonlinear_arith)
        requires
            2 <= q <= d,
    ;
    assert(prime(q) && 2 <= q && q * q <= n && n % q == 0);
}

/// An odd number has no even divisor.
pub proof fn lemma_odd_no_even_divisor(n: int, d: int)
    requires
        n % 2 == 1,
        d >= 2,
        d % 2 == 0,
    ensures
        n % d != 0,
{
    if n % d == 0 {
        lemma_divides_transitive(2, d, n);
        assert(false);
    }
}

/// The prime count never decreases as the bound grows.
pub proof fn lemma_count_primes_lt_mono(a: int, b: int)
    requires
        a <= b,
    ensures
        count_primes_lt(a) <= count_primes_lt(b),
    decreases b - a,
{
    if a < b {
        lemma_count_primes_lt_mono(a, b - 1);
    }
}

/// Between a prime and any point before the next prime, the count advances by one.
pub proof fn lemma_count_primes_step(p: int, q: int)
    requires
        prime(p),
        p < q,
        forall|j: int| p < j < q ==> !prime(j),
    ensures
        count_primes_lt(q) == count_primes_lt(p) + 1,
    decreases q - p,
{
    if q == p + 1 {
    } else {
        lemma_count_primes_step(p, q - 1);
    }
}

/// largest_prime_le(n) really is a prime at most n with no prime above it up to n.
pub proof fn lemma_largest_prime_le_props(n: int)
    requires
        n >= 2,
    ensures
        prime(largest_prime_le(n)),
        2 <= largest_prime_le(n) <= n,
        forall|j: int| largest_prime_le(n) < j <= n ==> !prime(j),
    decreases n,
{
    lemma_two_and_three_prime();
    if n > 2 && !prime(n) {
        lemma_largest_prime_le_props(n - 1);
    }
}

/// No prime at most n exceeds largest_prime_le(n).
pub proof fn lemma_largest_prime_le_ge(q: int, n: int)
    requires
        prime(q),
        q <= n,
    ensures
        q <= largest_prime_le(n),
{
    lemma_largest_prime_le_props(n);
}

/// A larger bound never yields a smaller largest prime.
pub proof fn lemma_largest_prime_le_mono(a: int, b: int)
    requires
        2 <= a <= b,
    ensures
        largest_prime_le(a) <= largest_prime_le(b),
{
    lemma_largest_prime_le_props(a);
    lemma_largest_prime_le_ge(largest_prime_le(a), b);
}

/// A prime with no primes above it up to m is exactly largest_prime_le(m).
pub proof fn lemma_largest_prime_le_is(p: int, m: int)
    requires
        prime(p),
        p <= m,
        forall|j: int| p < j <= m ==> !prime(j),
    ensures
        largest_prime_le(m) == p,
{
    lemma_largest_prime_le_props(m);
    lemma_largest_prime_le_ge(p, m);
}

} // verus!
