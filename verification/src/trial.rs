//! Trial-division search for the largest prime within a step budget.
//!
//! The search walks the odd integers upward from 3, testing each candidate by
//! trial division, and keeps the largest prime seen. The budget counts how
//! many candidates may be examined; a caller with a wall-clock deadline can
//! instead drive a [`TrialDivisionSearch`] one `step` at a time and stop when
//! its own deadline passes.

use vstd::prelude::*;
use vstd::arithmetic::div_mod::{lemma_fundamental_div_mod, lemma_mod_multiples_basic};
use crate::arith::{
    prime, largest_prime_le, lemma_two_and_three_prime, lemma_odd_no_even_divisor,
    lemma_largest_prime_le_ge, lemma_largest_prime_le_mono,
};

verus! {

/// Tests an odd candidate for primality by trial division: every odd divisor
/// from 3 up to the candidate's integer square root is tried. Even divisors
/// need no trying, since an odd number has none.
pub fn is_prime(num: u128) -> (r: bool)
    requires
        num >= 3,
        num % 2 == 1,
    ensures
        r == prime(num as int),
{
    let mut divisor: u128 = 3;
    while divisor <= num / divisor
        invariant
            num >= 3,
            num % 2 == 1,
            divisor >= 3,
            divisor % 2 == 1,
            forall|d: int| 2 <= d < divisor ==> #[trigger] ((num as int) % d) != 0,
        decreases num - divisor,
    {
        if num % divisor == 0 {
            proof {
                lemma_fundamental_div_mod(num as int, divisor as int);
                assert(divisor < num) by (nonlinear_arith)
                    requires
                        divisor >= 3,
                        num >= 3,
                        divisor <= num / divisor,
                        num == divisor * (num / divisor) + num % divisor,
                        0 <= num % divisor,
                ;
                assert(2 <= divisor < num && (num as int) % (divisor as int) == 0);
                assert(!prime(num as int));
            }
            return false;
        }
        proof {
            lemma_fundamental_div_mod(num as int, divisor as int);
            assert(divisor + 2 <= num) by (nonlinear_arith)
                requires
                    divisor >= 3,
                    num >= 3,
                    divisor <= num / divisor,
                    num == divisor * (num / divisor) + num % divisor,
                    0 <= num % divisor,
            ;
            assert((num as int) % (divisor as int) != 0);
            lemma_odd_no_even_divisor(num as int, divisor as int + 1);
            assert forall|d: int| 2 <= d < divisor + 2 implies #[trigger] ((num as int) % d) != 0 by {
                if d == divisor as int + 1 {
                    assert((num as int) % d != 0);
                }
            }
        }
        divisor = divisor + 2;
    }
    proof {
        lemma_fundamental_div_mod(num as int, divisor as int);
        assert(num < divisor * divisor) by (nonlinear_arith)
            requires
                divisor >= 3,
                divisor > num / divisor,
                num == divisor * (num / divisor) + num % divisor,
                0 <= num % divisor < divisor,
        ;
        assert forall|d: int| 2 <= d < num implies #[trigger] ((num as int) % d) != 0 by {
            if d >= divisor && (num as int) % d == 0 {
                lemma_fundamental_div_mod(num as int, d);
                let e = (num as int) / d;
                assert(num == d * e);
                assert(2 <= e < divisor) by (nonlinear_arith)
                    requires
                        num == d * e,
                        divisor as int <= d < num,
                        num < divisor * divisor,
                        2 <= num,
                        3 <= divisor,
                ;
                lemma_mod_multiples_basic(d, e);
                assert((num as int) % e == 0);
                assert(false);
            }
        }
        assert(prime(num as int));
    }
    true
}

/// Search state for trial division: the current odd candidate and the largest
/// prime confirmed so far. `best` is always exactly the largest prime at most
/// `current`.
pub struct TrialDivisionSearch {
    pub current: u128,
    pub best: u128,
}

impl TrialDivisionSearch {
    /// The search state is well formed: the candidate is odd and at least 3,
    /// and `best` is the largest prime at most `current`.
    pub open spec fn wf(self) -> bool {
        &&& self.current >= 3
        &&& self.current % 2 == 1
        &&& self.best == largest_prime_le(self.current as int)
    }

    /// Starts the search at the first odd prime.
    pub fn new() -> (s: Self)
        ensures
            s.wf(),
            s.current == 3,
            s.best == 3,
    {
        proof {
            lemma_two_and_three_prime();
        }
        TrialDivisionSearch { current: 3, best: 3 }
    }

    /// Advances to the next odd candidate, recording it when it is prime.
    pub fn step(&mut self)
        requires
            old(self).wf(),
            old(self).current <= u128::MAX - 2,
        ensures
            final(self).wf(),
            final(self).current == old(self).current + 2,
            final(self).best == largest_prime_le(final(self).current as int),
    {
        let c0: Ghost<int> = Ghost(self.current as int);
        self.current = self.current + 2;
        proof {
            assert(self.current % 2 == 1) by (nonlinear_arith)
                requires
                    self.current == c0@ + 2,
                    c0@ % 2 == 1,
                    c0@ >= 3,
            ;
            // the even number between the old and the new candidate is not prime
            assert((c0@ + 1) % 2 == 0) by (nonlinear_arith)
                requires
                    c0@ % 2 == 1,
                    c0@ >= 3,
            ;
            assert(!prime(c0@ + 1));
            assert(largest_prime_le(c0@ + 1) == largest_prime_le(c0@));
        }
        if is_prime(self.current) {
            self.best = self.current;
        }
    }
}

/// Runs the trial-division search until the budget is exhausted: the budget
/// counts how many times the stop condition is polled and found not yet due,
/// and one new odd candidate is examined after each such poll. The result is
/// exactly the largest prime among 3 and the candidates examined, and it is
/// always prime and at least 3.
pub fn trial_div(budget: u64) -> (r: u128)
    ensures
        r == largest_prime_le(3 + 2 * (budget as int)),
        prime(r as int),
        r >= 3,
{
    let mut s = TrialDivisionSearch::new();
    let mut i: u64 = 0;
    while i < budget
        invariant
            s.wf(),
            i <= budget,
            s.current == 3 + 2 * (i as int),
        decreases budget - i,
    {
        s.step();
        i = i + 1;
    }
    proof {
        lemma_two_and_three_prime();
        lemma_largest_prime_le_ge(3, s.current as int);
        crate::arith::lemma_largest_prime_le_props(s.current as int);
    }
    s.best
}

/// More budget never lowers the trial-division result: the search's answer is
/// the largest prime at most its final candidate, which only grows with the
/// budget.
pub proof fn lemma_trial_div_monotonic(b1: u64, b2: u64)
    requires
        b1 <= b2,
    ensures
        largest_prime_le(3 + 2 * (b1 as int)) <= largest_prime_le(3 + 2 * (b2 as int)),
{
    lemma_largest_prime_le_mono(3 + 2 * (b1 as int), 3 + 2 * (b2 as int));
}

} // verus!

