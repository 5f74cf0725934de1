//! Time-budgeted searches for large primes.
//!
//! Two independent search strategies are provided: a Sieve of Eratosthenes
//! over a fixed candidate table (`sieve`) and a trial-division walk over the
//! odd integers (`trial`). Each search polls a budget once per outer step and
//! stops as soon as the budget is exhausted, returning the largest prime it
//! has confirmed so far. The budget is a step count, so the searches are
//! deterministic and their results are pinned down exactly; a wall-clock
//! driver can instead run the underlying search states step by step and stop
//! on its own deadline.

pub mod arith;
pub mod sieve;
pub mod trial;
