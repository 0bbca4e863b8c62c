//! A multivariate-polynomial engine for folding schemes: fixed-arity,
//! degree-bounded polynomials over a prime field, with homogeneous
//! evaluation and the cross terms needed to fold two instances of an
//! algebraic relation into one.

pub mod field;
pub mod cross;
pub mod dense;
pub mod monomial;
pub mod primes;
pub mod space;
pub mod sparse;
