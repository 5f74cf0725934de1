//! Sieve of Eratosthenes search for the largest prime within a step budget.
//!
//! The sieve keeps a table of candidates below a fixed bound `max_n`. Entries
//! 0 and 1 are never meaningful and start cleared; every other entry starts
//! set and is cleared exactly when a multiple of a smaller prime is found to
//! equal its index. The search visits the primes in increasing order, polls
//! the stop condition once per prime, and crosses out that prime's multiples
//! from its square upward. Stopping at a prime returns that prime; running to
//! the end of the table returns the largest prime below the bound.

use vstd::prelude::*;
use vstd::pervasive::VecAdditionalExecFns;
use vstd::arithmetic::div_mod::{lemma_fundamental_div_mod, lemma_mod_multiples_basic};
use crate::arith::{
    prime, count_primes_lt, largest_prime_le, lemma_two_and_three_prime,
    lemma_composite_has_small_prime_divisor, lemma_count_primes_lt_mono, lemma_count_primes_step,
    lemma_largest_prime_le_ge, lemma_largest_prime_le_is, lemma_largest_prime_le_props,
};

verus! {

/// Index i has been struck from the table once every prime below p has had
/// its multiples crossed out: some prime q below p divides i, and i is at
/// least q squared (smaller multiples of q are the business of q's own
/// smaller prime factors).
pub open spec fn struck(i: int, p: int) -> bool {
    exists|q: int| prime(q) && q < p && q * q <= i && #[trigger] (i % q) == 0
}

/// A struck index is composite.
proof fn lemma_struck_not_prime(i: int, p: int)
    requires
        i >= 2,
        struck(i, p),
    ensures
        !prime(i),
{
    let q = choose|q: int| prime(q) && q < p && q * q <= i && #[trigger] (i % q) == 0;
    assert(2 <= q && q < i) by (nonlinear_arith)
        requires
            q >= 2,
            q * q <= i,
    ;
}

/// An index whose candidate entry survives the primes below p is prime,
/// provided no prime witness was skipped: either it is below p, or everything
/// between p and it is known composite.
proof fn lemma_survivor_prime(i: int, p: int)
    requires
        2 <= i,
        2 <= p,
        !struck(i, p),
        forall|j: int| p <= j < i ==> !prime(j),
    ensures
        prime(i),
{
    if !prime(i) {
        lemma_composite_has_small_prime_divisor(i);
        let q = choose|q: int|
            prime(q) && 2 <= q && q * q <= i && #[trigger] (i % q) == 0;
        assert(q < i) by (nonlinear_arith)
            requires
                q >= 2,
                q * q <= i,
        ;
        assert(q < p);
        assert(struck(i, p));
    }
}

/// Search state for the sieve: the candidate table, the prime the search is
/// resting on, and the table's bound.
pub struct SieveSearch {
    pub table: Vec<bool>,
    pub at: usize,
    pub max_n: usize,
}

impl SieveSearch {
    /// The search state is well formed: the table marks exactly the indexes
    /// at least 2 not yet struck by the primes below `at`, and `at` rests on
    /// a prime unless the table is exhausted.
    pub open spec fn wf(self) -> bool {
        &&& 3 <= self.max_n
        &&& self.max_n <= usize::MAX / 2
        &&& self.table.len() == self.max_n
        &&& 2 <= self.at <= self.max_n
        &&& forall|i: int|
            0 <= i < self.max_n ==> (#[trigger] self.table[i] <==> (i >= 2 && !struck(
                i,
                self.at as int,
            )))
        &&& (self.at < self.max_n ==> prime(self.at as int))
    }

    /// Allocates a fresh table up to max_n and rests the search on the first
    /// prime, 2. The bound is kept below half the address space so that
    /// stepping from one multiple to the next can never wrap around.
    pub fn new(max_n: usize) -> (s: Self)
        requires
            3 <= max_n <= usize::MAX / 2,
        ensures
            s.wf(),
            s.at == 2,
            s.max_n == max_n,
    {
        let mut table: Vec<bool> = Vec::new();
        let mut i: usize = 0;
        while i < max_n
            invariant
                i <= max_n,
                table.len() == i,
                forall|j: int| 0 <= j < i ==> (table[j] <==> j >= 2),
            decreases max_n - i,
        {
            table.push(i >= 2);
            i = i + 1;
        }
        proof {
            lemma_two_and_three_prime();
            assert forall|j: int| 0 <= j < max_n implies !struck(j, 2) by {
                if struck(j, 2) {
                    let q = choose|q: int|
                        prime(q) && q < 2 && q * q <= j && #[trigger] (j % q) == 0;
                    assert(false);
                }
            }
        }
        SieveSearch { table, at: 2, max_n }
    }

    /// Crosses out the multiples of the prime the search rests on, then moves
    /// to the next surviving index, which is the next prime; the table is
    /// exhausted when none is left. Exactly one more prime lies below the new
    /// resting point than below the old one.
    pub fn step(&mut self)
        requires
            old(self).wf(),
            old(self).at < old(self).max_n,
        ensures
            final(self).wf(),
            final(self).max_n == old(self).max_n,
            old(self).at < final(self).at <= final(self).max_n,
            count_primes_lt(final(self).at as int) == count_primes_lt(old(self).at as int) + 1,
    {
        let p: usize = self.at;
        let max_n: usize = self.max_n;
        let ghost p0: int = p as int;
        // cross out p*p, p*p + p, ... ; when p*p is already beyond the table
        // there is nothing to cross out, and the guard keeps p*p from being
        // computed where it could overflow
        if p <= (max_n - 1) / p {
            proof {
                lemma_fundamental_div_mod((max_n - 1) as int, p as int);
                assert(p0 * p0 <= max_n - 1) by (nonlinear_arith)
                    requires
                        2 <= p0,
                        p0 <= (max_n - 1) as int / p0,
                        (max_n - 1) as int == p0 * ((max_n - 1) as int / p0) + (max_n
                            - 1) as int % p0,
                        0 <= (max_n - 1) as int % p0,
                ;
                lemma_mod_multiples_basic(p0, p0);
            }
            let mut m: usize = p * p;
            proof {
                assert(m % p == 0) by (nonlinear_arith)
                    requires
                        p0 == p as int,
                        m == p0 * p0,
                        2 <= p0,
                        (p0 * p0) % p0 == 0,
                ;
                assert forall|i: int|
                    0 <= i < max_n implies (#[trigger] self.table[i] <==> (i >= 2 && !struck(
                    i,
                    p0,
                ) && !(p0 * p0 <= i < m && i % p0 == 0))) by {
                    assert(self.table[i] <==> (i >= 2 && !struck(i, self.at as int)));
                }
            }
            while m < max_n
                invariant
                    self.max_n == max_n,
                    self.at == p,
                    p0 == p as int,
                    2 <= p < max_n,
                    max_n <= usize::MAX / 2,
                    prime(p0),
                    self.table.len() == max_n,
                    p * p <= m,
                    m % p == 0,
                    forall|i: int|
                        0 <= i < max_n ==> (#[trigger] self.table[i] <==> (i >= 2 && !struck(
                            i,
                            p0,
                        ) && !(p0 * p0 <= i < m && i % p0 == 0))),
                decreases max_n + p - m,
            {
                self.table.set(m, false);
                proof {
                    let mi: int = m as int;
                    let qm: int = mi / p0;
                    lemma_fundamental_div_mod(mi, p0);
                    lemma_mod_multiples_basic(qm + 1, p0);
                    assert((mi + p0) % p0 == 0) by (nonlinear_arith)
                        requires
                            2 <= p0,
                            mi == p0 * qm,
                            ((qm + 1) * p0) % p0 == 0,
                    ;
                    assert forall|i: int|
                        0 <= i < max_n implies (#[trigger] self.table[i] <==> (i >= 2 && !struck(
                        i,
                        p0,
                    ) && !(p0 * p0 <= i < mi + p0 && i % p0 == 0))) by {
                        if i != mi && i % p0 == 0 {
                            // no multiple of p lies strictly between m and m + p
                            let qi: int = i / p0;
                            lemma_fundamental_div_mod(i, p0);
                            assert(i < mi || i >= mi + p0) by (nonlinear_arith)
                                requires
                                    2 <= p0,
                                    i == p0 * qi,
                                    mi == p0 * qm,
                                    i != mi,
                            ;
                        }
                    }
                }
                m = m + p;
            }
            proof {
                assert forall|i: int|
                    0 <= i < max_n implies (#[trigger] self.table[i] <==> (i >= 2 && !struck(
                    i,
                    p0 + 1,
                ))) by {
                    assert(self.table[i] <==> (i >= 2 && !struck(i, p0) && !(p0 * p0 <= i < m
                        && i % p0 == 0)));
                    Self::lemma_struck_unfold_one(i, p0);
                }
            }
        } else {
            proof {
                lemma_fundamental_div_mod((max_n - 1) as int, p as int);
                assert(p0 * p0 > max_n - 1) by (nonlinear_arith)
                    requires
                        2 <= p0,
                        p0 > (max_n - 1) as int / p0,
                        (max_n - 1) as int == p0 * ((max_n - 1) as int / p0) + (max_n - 1) as int
                            % p0,
                        0 <= (max_n - 1) as int % p0 < p0,
                ;
                assert forall|i: int|
                    0 <= i < max_n implies (#[trigger] self.table[i] <==> (i >= 2 && !struck(
                    i,
                    p0 + 1,
                ))) by {
                    assert(self.table[i] <==> (i >= 2 && !struck(i, self.at as int)));
                    Self::lemma_struck_unfold_one(i, p0);
                }
            }
        }
        // move to the next surviving index
        let mut q: usize = p + 1;
        while q < max_n && !self.table[q]
            invariant
                self.max_n == max_n,
                self.table.len() == max_n,
                p < q <= max_n,
                2 <= p,
                p0 == p as int,
                max_n <= usize::MAX / 2,
                forall|i: int|
                    0 <= i < max_n ==> (#[trigger] self.table[i] <==> (i >= 2 && !struck(
                        i,
                        p0 + 1,
                    ))),
                forall|j: int| p < j < q ==> !prime(j),
            decreases max_n - q,
        {
            proof {
                lemma_struck_not_prime(q as int, p0 + 1);
            }
            q = q + 1;
        }
        proof {
            // between the old prime and the new resting point nothing is prime,
            // so striking with the primes below p + 1 and below q is the same
            assert forall|i: int|
                0 <= i < max_n implies (#[trigger] self.table[i] <==> (i >= 2 && !struck(
                i,
                q as int,
            ))) by {
                if struck(i, q as int) && !struck(i, p0 + 1) {
                    let w = choose|w: int|
                        prime(w) && w < q && w * w <= i && #[trigger] (i % w) == 0;
                    assert(w < p0 + 1);
                    assert(false);
                }
                if struck(i, p0 + 1) {
                    let w = choose|w: int|
                        prime(w) && w < p0 + 1 && w * w <= i && #[trigger] (i % w) == 0;
                    assert(prime(w) && w < q as int && w * w <= i && i % w == 0);
                    assert(struck(i, q as int));
                }
            }
            if q < max_n {
                lemma_survivor_prime(q as int, p0 + 1);
            }
            lemma_count_primes_step(p0, q as int);
        }
        self.at = q;
    }

    /// Striking with the primes below p + 1 strikes exactly what the primes
    /// below p strike, plus the multiples of p itself when p is prime.
    proof fn lemma_struck_unfold_one(i: int, p: int)
        requires
            2 <= p,
            prime(p),
        ensures
            struck(i, p + 1) <==> (struck(i, p) || (p * p <= i && i % p == 0)),
    {
        if struck(i, p) {
            let q = choose|q: int| prime(q) && q < p && q * q <= i && #[trigger] (i % q) == 0;
            assert(prime(q) && q < p + 1 && q * q <= i && i % q == 0);
        }
        if p * p <= i && i % p == 0 {
            assert(prime(p) && p < p + 1 && p * p <= i && i % p == 0);
        }
        if struck(i, p + 1) {
            let q = choose|q: int|
                prime(q) && q < p + 1 && q * q <= i && #[trigger] (i % q) == 0;
            if q != p {
                assert(prime(q) && q < p && q * q <= i && i % q == 0);
            }
        }
    }

    /// Scans the exhausted table downward and returns the largest prime below
    /// the bound.
    pub fn final_answer(&self) -> (r: usize)
        requires
            self.wf(),
            self.at == self.max_n,
        ensures
            r == largest_prime_le(self.max_n as int - 1),
    {
        let mut i: usize = self.max_n - 1;
        while i >= 2
            invariant
                self.wf(),
                self.at == self.max_n,
                1 <= i < self.max_n,
                forall|j: int| i < j < self.max_n ==> !prime(j),
            decreases i,
        {
            if self.table[i] {
                proof {
                    lemma_survivor_prime(i as int, self.max_n as int);
                    lemma_largest_prime_le_is(i as int, self.max_n as int - 1);
                }
                return i;
            }
            proof {
                if prime(i as int) {
                    if struck(i as int, self.max_n as int) {
                        lemma_struck_not_prime(i as int, self.max_n as int);
                    }
                    assert(self.table[i as int]);
                }
            }
            i = i - 1;
        }
        // unreachable: 2 is prime and lies below the bound
        proof {
            lemma_two_and_three_prime();
            assert(false);
        }
        2
    }
}

/// Runs the sieve until the budget is exhausted or the table is: the budget
/// counts how many times the stop condition is polled, once per prime visited
/// in increasing order. When the budget runs out first, the answer is the
/// prime the poll interrupted, the one with exactly `budget` primes below it;
/// when the table runs out first, the answer is the largest prime below
/// `max_n`. Either way the answer is prime and below `max_n`.
pub fn eratosthenes(budget: u64, max_n: usize) -> (r: usize)
    requires
        3 <= max_n <= usize::MAX / 2,
    ensures
        prime(r as int),
        2 <= r < max_n,
        count_primes_lt(max_n as int) > budget as nat ==> count_primes_lt(r as int)
            == budget as nat,
        count_primes_lt(max_n as int) <= budget as nat ==> r == largest_prime_le(max_n as int - 1),
{
    let mut s = SieveSearch::new(max_n);
    let mut k: u64 = 0;
    while s.at < s.max_n
        invariant
            s.wf(),
            s.max_n == max_n,
            k <= budget,
            k as nat == count_primes_lt(s.at as int),
        decreases max_n - s.at,
    {
        if k >= budget {
            proof {
                lemma_count_primes_step(s.at as int, s.at as int + 1);
                lemma_count_primes_lt_mono(s.at as int + 1, max_n as int);
            }
            return s.at;
        }
        s.step();
        k = k + 1;
    }
    proof {
        lemma_largest_prime_le_props(max_n as int - 1);
    }
    s.final_answer()
}

/// More budget never lowers the sieve's result: any two answers the sieve's
/// contract allows for the same bound and budgets b1 <= b2 are ordered the
/// same way.
pub proof fn lemma_eratosthenes_monotonic(b1: u64, b2: u64, max_n: usize, r1: usize, r2: usize)
    requires
        b1 <= b2,
        3 <= max_n,
        prime(r1 as int),
        r1 < max_n,
        prime(r2 as int),
        r2 < max_n,
        count_primes_lt(max_n as int) > b1 as nat ==> count_primes_lt(r1 as int) == b1 as nat,
        count_primes_lt(max_n as int) <= b1 as nat ==> r1 == largest_prime_le(max_n as int - 1),
        count_primes_lt(max_n as int) > b2 as nat ==> count_primes_lt(r2 as int) == b2 as nat,
        count_primes_lt(max_n as int) <= b2 as nat ==> r2 == largest_prime_le(max_n as int - 1),
    ensures
        r1 <= r2,
{
    if count_primes_lt(max_n as int) > b2 as nat {
        // both answers are interrupted primes with b1 and b2 primes below them
        if r1 > r2 {
            lemma_count_primes_step(r2 as int, r2 as int + 1);
            lemma_count_primes_lt_mono(r2 as int + 1, r1 as int);
            assert(false);
        }
    } else if count_primes_lt(max_n as int) > b1 as nat {
        // r1 is an interrupted prime below max_n, r2 the largest prime below max_n
        lemma_largest_prime_le_ge(r1 as int, max_n as int - 1);
    } else {
        // both answers are the largest prime below max_n
    }
}

} // verus!
