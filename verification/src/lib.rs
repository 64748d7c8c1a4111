//! Threshold secret sharing over a prime field.
//!
//! A secret is the constant term of a random polynomial over the integers
//! modulo a prime; each share is one point of that polynomial, and any
//! `threshold` of them give the secret back by Lagrange interpolation at
//! zero. Primes are found with the Miller-Rabin test.
//!
//! - [`primality`]: the Miller-Rabin test, the search for a probable prime,
//!   and the proof that the test refuses no prime.
//! - [`sharing`]: splitting and reconstructing, and the proof that any
//!   `threshold` shares of a split reconstruct its secret.
//! - [`interpolation`]: what a reconstruction computes, and why it is the
//!   constant term of the polynomial through the shares.
//! - [`poly`], [`modular`], [`fermat`]: the polynomial and modular
//!   arithmetic that those proofs rest on, up to Fermat's little theorem.
//! - [`bignum`]: the operations on `num_bigint::BigUint` and the random
//!   draws, with what is taken on trust about each. Everything else is
//!   proved from that.

pub mod bignum;
pub mod fermat;
pub mod interpolation;
pub mod modular;
pub mod poly;
pub mod primality;
pub mod sharing;
