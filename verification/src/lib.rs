//! A segmented, partially parallel Sieve of Eratosthenes over the odd
//! numbers below an exclusive bound.
//!
//! The sieve field stores one boolean per odd number: index `i` stands for
//! the value `2*i + 1`, so even numbers (including the prime 2) are never
//! represented.  A serial pass resolves primality up to the square root of
//! the bound; the remainder of the field is split into disjoint chunks that
//! are cleared independently, each reading only the finished low region.
//! A byte-level request/response codec exposes the counting call to
//! structured callers.

pub mod codec;
pub mod primes;
pub mod sieve;
