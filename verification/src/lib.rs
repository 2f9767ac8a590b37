//! Enumeration of the primes below an upper bound with the Sieve of
//! Eratosthenes, as one in-memory sieve or segment by segment.
//!
//! Every function carries a contract, stated over the definitions in
//! [`primality`] and [`sieve_model`], that the verifier proves.

pub mod common;
pub mod generators;
pub mod primality;
pub mod sieve_lemmas;
pub mod sieve_model;
pub mod theorems;
