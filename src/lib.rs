//! Small number-theory toolkit: an incremental prime sieve, a primality
//! test, prime factorisation and Euler's totient, each with a proved contract.

pub mod number;
pub mod primeseq;
pub mod euler;
