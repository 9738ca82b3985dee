//! Verified finite-field elliptic-curve arithmetic.
//!
//! The core of the crate is the group law on a short-Weierstrass curve
//! `y^2 = x^3 + a*x + b` over a prime field ([`curve`]), scalar
//! multiplication on that group, and the two protocols that rest on it,
//! Diffie-Hellman key agreement and ECDSA signature checking ([`protocol`]).
//! What holds of the group law is proved in [`group_laws`], from the
//! arithmetic of residues in [`field`] and of prime moduli in [`primes`].
//!
//! Around the core stand small building blocks of number theory and
//! cryptography, each with its own contract: modular arithmetic and the
//! group of units, polynomials over a prime field, the field with 256
//! elements, RSA, discrete logarithms, commitments and Schnorr proofs,
//! arithmetic circuits, lattices, Paillier encryption and secret sharing.
//!
//! Every executable function states what it returns in terms of
//! mathematical integers, and none of them panics on an input that its
//! contract admits.

pub mod algebra;
pub mod circuits;
pub mod commitments;
pub mod curve;
pub mod discrete_log;
pub mod field;
pub mod fri;
pub mod gf256;
pub mod group_laws;
pub mod irreducible;
pub mod lattice;
pub mod linalg;
pub mod modular;
pub mod mpc;
pub mod number_theory;
pub mod paillier;
pub mod pairing;
pub mod polynomial;
pub mod primes;
pub mod protocol;
pub mod utils;
