//! A knowledge-based secret-recovery vault.
//!
//! A secret field element is split into shares of a random polynomial
//! (Shamir-style sharing over a fixed 128-bit prime field).  Each share is
//! masked with a key derived from the expected answer to a question, and an
//! authentication tag of the answer is stored beside it.  Only someone who
//! supplies every correct answer can unmask all shares and interpolate the
//! secret back.

pub mod errors;
pub mod field;
pub mod hashing;
pub mod poly;
pub mod rng;
pub mod vault;
