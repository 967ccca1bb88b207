//! Small numeric computations: Fibonacci numbers with 64-bit wraparound and
//! prime counting with a sieve of Eratosthenes.
pub mod fibonacci;
pub mod primes;

pub use fibonacci::{fibonacci, fibonacci_sum};
pub use primes::prime_count;
