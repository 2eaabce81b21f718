//! Multilinear sumcheck over prime fields.
//!
//! A polynomial is a sum of coefficient-weighted products of multilinear
//! extensions (`poly`, `mle`). The prover convinces the verifier that its
//! sum over the boolean hypercube is a claimed value, round by round
//! (`sumcheck::prover`, `sumcheck::verification`); challenges come from a
//! hash-based transcript (`transcript`, `hash`), which makes the protocol
//! non-interactive (`sumcheck`).
//!
//! Contracts are stated over integers modulo the field's modulus (`field`);
//! `fp` is a word-sized field. What the protocol guarantees is proved in
//! `sumcheck::guarantees`, from the algebra in `ring`, `lagrange`,
//! `structure`, `sumcheck::interpolation` and `sumcheck::rounds`.

pub mod error;
pub mod evaluation;
pub mod field;
pub mod fp;
pub mod hash;
pub mod lagrange;
pub mod mle;
pub mod poly;
pub mod ring;
pub mod structure;
pub mod sumcheck;
pub mod transcript;
