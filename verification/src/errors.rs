//! Error taxonomy of the library.
//!
//! Structural and format failures are reported as typed errors; a correctly
//! formed but cryptographically non-matching signature is a normal `false`
//! verification result, never an error.
//!
//! The variants deliberately carry no payload: the contracts of the
//! functions that return them say exactly which input produces which
//! variant, so a caller that needs to name the offending field or length
//! reads it off the input it passed.

use vstd::prelude::*;

verus! {

/// Errors returned by the parsing, decoding and verification entry points.
///
/// - `MalformedMessage`: a raw message has no isolatable header block
///   (for example, a headers-only message that lacks a final line break)
///   or a header field without a colon.
/// - `Encoding`: base64 input that does not decode.
/// - `KeyFormat`: public-key bytes that do not match the declared
///   algorithm's expected shape — a length other than 32 bytes for
///   Ed25519, or unparsable DER for RSA. Ed25519 key bytes of the right
///   length that fail point decoding are not a format error: they
///   simply validate nothing, a normal `false`.
/// - `SignatureFormat`: signature bytes of the wrong length or shape for
///   the declared algorithm.
/// - `NoAddressFound`: no email address could be extracted from a header
///   value.
#[derive(Clone, Copy, Debug, PartialEq, Eq, Structural)]
pub enum DkimError {
    MalformedMessage,
    Encoding,
    KeyFormat,
    SignatureFormat,
    NoAddressFound,
}

} // verus!
