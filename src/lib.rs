//! Factorization of unsigned integers into prime powers by trial division
//! over a prime wheel, with primality tests and greatest common divisors
//! both on integers and on decompositions.
pub mod arith;
pub mod candidates;
pub mod factors;
pub mod laws;
pub mod primes;
pub mod ranges;

pub use arith::{u128_gcd, u128_lcm, u128_sqrt};
pub use factors::{
    factorize, primefactor_gcd, u128_is_prime, IntFactor, PrimeFactors, PrimeFactorsIter,
};
