//! Discrete-mathematics utilities: binomial coefficients, a Fenwick tree
//! (binary indexed tree) for prefix sums, a largest-prime-factor sieve with
//! factorization and divisor enumeration, modular integer arithmetic with
//! extended-Euclidean inversion, dense matrices over a prime field, and a
//! divide-at-sqrt inversion of number-theoretic summatory functions.

pub mod arith;
pub mod combinatorics;
pub mod fenwick;
pub mod linear;
pub mod modint;
pub mod moduli;
pub mod moebius;
pub mod number;
pub mod sieve;
