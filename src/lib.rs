//! Candidate cycle lengths of polynomial maps over the rationals and over
//! the Eisenstein field Q(w), obtained by reducing the map modulo many primes
//! and intersecting the cycle lengths seen in each prime field.
//!
//! - `number_theory`: primes, powers, inverses, multiplicative orders
//!   (Lagrange's and Fermat's theorems), as spec functions and lemmas.
//! - `modular`: exact arithmetic modulo a prime (inverse, power, order,
//!   Cipolla square roots).
//! - `polynomial`: integer polynomials evaluated modulo a prime.
//! - `periods`: the single-pass cycle finder on a prime field.
//! - `rational`, `eisenstein`: reduction of rational and Q(w) coefficients.
//! - `sieve`: the multi-prime sieve.
pub mod number_theory;
pub mod modular;
pub mod polynomial;
pub mod periods;
pub mod rational;
pub mod eisenstein;
pub mod family;
pub mod sieve;
