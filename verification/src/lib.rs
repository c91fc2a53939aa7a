//! A lattice-based public-key encryption engine built on the Ring-LWE
//! problem: key generation, encryption of short text messages under a
//! public key, and decryption under the matching secret key.
//!
//! All values live in the quotient ring `R_q = Z_q[x] / (x^n + 1)`.
//! Keys and ciphertexts cross the API boundary as fixed-width decimal
//! string encodings produced and checked by the codec.

use vstd::prelude::*;

pub mod params;
pub mod ring;
pub mod sampler;
pub mod codec;
pub mod keygen;
pub mod encrypt;
pub mod decrypt;
pub mod laws;
pub mod api;

verus! {

/// The failures an operation can report. Every operation returns them
/// as explicit result values; nothing is recovered internally.
#[derive(Clone, Copy, Debug, PartialEq, Eq, Structural)]
pub enum LweError {
    /// Invalid (n, q, t) combination, reported before any sampling.
    ParameterError,
    /// Arithmetic invoked on a ring element whose coefficient count is not n.
    ShapeError,
    /// Message too long to fit the n ring coefficients.
    EncodingError,
    /// Malformed key or ciphertext string.
    ParseError,
    /// Recovered coefficient sequence is not valid text.
    DecodingError,
}

} // verus!
