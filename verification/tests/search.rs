//! Tests for the two time-budgeted prime searches.

use prime_search::sieve::{eratosthenes, SieveSearch};
use prime_search::trial::{is_prime, trial_div, TrialDivisionSearch};

/// Independent primality check by exhaustive division, used to validate the
/// searches' answers without relying on the library's own test.
fn naive_prime(n: u128) -> bool {
    if n < 2 {
        return false;
    }
    let mut d: u128 = 2;
    while d < n {
        if n % d == 0 {
            return false;
        }
        d += 1;
    }
    true
}

#[test]
fn sieve_full_budget_small_bound() {
    // with an effectively unbounded budget the sieve exhausts the table and
    // reports the largest prime below the bound
    assert_eq!(eratosthenes(u64::MAX, 100), 97);
    assert_eq!(eratosthenes(u64::MAX, 98), 97);
    assert_eq!(eratosthenes(u64::MAX, 97), 89);
    assert_eq!(eratosthenes(u64::MAX, 10), 7);
    assert_eq!(eratosthenes(u64::MAX, 4), 3);
    assert_eq!(eratosthenes(u64::MAX, 3), 2);
    assert_eq!(eratosthenes(u64::MAX, 10_000), 9973);
}

#[test]
fn sieve_budget_zero_stops_at_two() {
    // a zero budget interrupts the search at the very first prime
    assert_eq!(eratosthenes(0, 100), 2);
    assert_eq!(eratosthenes(0, 1_000), 2);
}

#[test]
fn sieve_budget_counts_primes() {
    // with budget b the search is interrupted at the prime with b primes
    // below it
    assert_eq!(eratosthenes(1, 100), 3);
    assert_eq!(eratosthenes(2, 100), 5);
    assert_eq!(eratosthenes(3, 100), 7);
    assert_eq!(eratosthenes(24, 100), 97);
    // there are 25 primes below 100, so one more unit of budget lets the
    // sieve finish the table instead
    assert_eq!(eratosthenes(25, 100), 97);
}

#[test]
fn sieve_monotonic_in_budget() {
    let mut last: usize = 0;
    for b in 0..30u64 {
        let r = eratosthenes(b, 100);
        assert!(r >= last);
        last = r;
    }
}

#[test]
fn sieve_results_are_prime_and_below_bound() {
    for b in 0..30u64 {
        let r = eratosthenes(b, 200);
        assert!(naive_prime(r as u128));
        assert!(r >= 2);
        assert!(r <= 199);
    }
}

#[test]
fn sieve_state_walks_the_primes() {
    let mut s = SieveSearch::new(30);
    let mut seen: Vec<usize> = Vec::new();
    while s.at < s.max_n {
        seen.push(s.at);
        s.step();
    }
    assert_eq!(seen, vec![2, 3, 5, 7, 11, 13, 17, 19, 23, 29]);
    assert_eq!(s.final_answer(), 29);
}

#[test]
fn trial_budget_zero_returns_three() {
    // no candidate beyond the initial value is tested
    assert_eq!(trial_div(0), 3);
}

#[test]
fn trial_known_values() {
    assert_eq!(trial_div(1), 5);
    assert_eq!(trial_div(2), 7);
    assert_eq!(trial_div(3), 7);
    assert_eq!(trial_div(4), 11);
    assert_eq!(trial_div(12), 23);
    assert_eq!(trial_div(13), 29);
    assert_eq!(trial_div(14), 31);
    assert_eq!(trial_div(100), 199);
}

#[test]
fn trial_monotonic_in_budget() {
    let mut last: u128 = 0;
    for b in 0..60u64 {
        let r = trial_div(b);
        assert!(r >= last);
        last = r;
    }
}

#[test]
fn trial_results_are_prime() {
    for b in 0..60u64 {
        let r = trial_div(b);
        assert!(naive_prime(r));
        assert!(r >= 3);
    }
}

#[test]
fn trial_records_29_when_it_is_tested() {
    // the moment candidate 29 has been tested, the best-known prime is 29
    let mut s = TrialDivisionSearch::new();
    while s.current < 29 {
        s.step();
    }
    assert_eq!(s.current, 29);
    assert_eq!(s.best, 29);
    // just before that, while 27 was the last candidate tested, it was 23
    let mut t = TrialDivisionSearch::new();
    while t.current < 27 {
        t.step();
    }
    assert_eq!(t.best, 23);
}

#[test]
fn is_prime_agrees_with_naive_check() {
    let mut n: u128 = 3;
    while n <= 201 {
        assert_eq!(is_prime(n), naive_prime(n));
        n += 2;
    }
    assert!(is_prime(97));
    assert!(!is_prime(91));
    assert!(is_prime(1_000_003));
}
