//! Why a verification did not produce a subclaim.

use vstd::prelude::*;

verus! {

/// The ways in which a proof is turned down.
#[derive(Clone, Copy, Debug, PartialEq, Eq, Structural)]
pub enum Error {
    /// The proof has fewer round messages than the polynomial has
    /// variables, or a message without exactly `max_multiplicands + 1`
    /// evaluations.
    MalformedProof,
    /// A round message does not add up to the value expected of it.
    VerificationFailed,
}

} // verus!
