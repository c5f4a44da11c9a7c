//! Algebraic core for lattice-based constructions: a finite-field
//! number-theoretic transform (NTT) engine together with the modular
//! arithmetic it is built on, a polynomial container tagged by
//! representation, uniform bounded sampling, and pointwise multiplication.

pub mod field;
pub mod model;
pub mod ntt;
pub mod poly;
pub mod reduce;
