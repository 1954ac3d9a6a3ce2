//! Base64 transport codec.
//!
//! Every boundary of the library that crosses the base64 wire format
//! (keys, signatures, digest output) goes through these functions.

use vstd::prelude::*;

use crate::errors::DkimError;

verus! {

/// The standard, padded base64 encoding of a byte sequence.
///
/// The encoding is a pure function of the bytes alone; contracts in this
/// crate speak of it only through this name.
pub uninterp spec fn b64_of(bytes: Seq<u8>) -> Seq<char>;

/// Whether a character sequence is the canonical base64 encoding of some
/// byte sequence.
pub open spec fn is_b64(s: Seq<char>) -> bool {
    exists|x: Seq<u8>| s == #[trigger] b64_of(x)
}

/// A character of the standard base64 alphabet (padding aside).
pub open spec fn is_b64_alphabet(c: char) -> bool {
    ('A' <= c && c <= 'Z') || ('a' <= c && c <= 'z') || ('0' <= c && c <= '9') || c == '+' || c
        == '/'
}

/// How many `=` padding characters the standard encoding of `n` bytes
/// carries: none when `n` is a multiple of three, else up to two.
pub open spec fn b64_pad_len(n: nat) -> nat {
    if n % 3 == 0 {
        0
    } else {
        (3 - n % 3) as nat
    }
}

/// Relies on base64's standard padded engine: `Engine::encode` returns the
/// canonical base64 text of the input — four characters for every three
/// bytes (rounded up), drawn from the standard 64-character alphabet,
/// with `=` padding exactly on the tail that an incomplete final group
/// leaves — as the crate documents.
#[verifier::external_body]
fn b64_encode_raw(data: &[u8]) -> (r: String)
    ensures
        r@ == b64_of(data@),
        r@.len() == 4 * ((data@.len() + 2) / 3),
        forall|i: int|
            0 <= i < r@.len() - b64_pad_len(data@.len()) ==> is_b64_alphabet(#[trigger] r@[i]),
        forall|i: int|
            r@.len() - b64_pad_len(data@.len()) <= i < r@.len() ==> #[trigger] r@[i] == '=',
{
    base64::Engine::encode(&base64::engine::general_purpose::STANDARD, data)
}

/// Relies on base64's standard padded engine: `Engine::decode` (with the
/// default canonical-padding, no-trailing-bits configuration) accepts
/// exactly the canonical encodings and inverts `Engine::encode`.
#[verifier::external_body]
fn b64_decode_raw(s: &str) -> (r: Result<Vec<u8>, base64::DecodeError>)
    ensures
        r is Ok ==> s@ == b64_of(r->Ok_0@),
        forall|x: Seq<u8>| s@ == #[trigger] b64_of(x) ==> r is Ok && r->Ok_0@ == x,
{
    base64::Engine::decode(&base64::engine::general_purpose::STANDARD, s)
}

/// The error type of the outside base64 decoder, declared so that the
/// trusted decode call can return it.
#[verifier::external_type_specification]
#[verifier::external_body]
pub struct ExDecodeError(base64::DecodeError);

/// Encodes bytes as standard, padded base64 text: four characters for
/// every three bytes, from the standard alphabet, with `=` padding
/// determined by the remainder of the length modulo three.
pub fn base64_encode(data: &[u8]) -> (r: String)
    ensures
        r@ == b64_of(data@),
        r@.len() == 4 * ((data@.len() + 2) / 3),
        forall|i: int|
            0 <= i < r@.len() - b64_pad_len(data@.len()) ==> is_b64_alphabet(#[trigger] r@[i]),
        forall|i: int|
            r@.len() - b64_pad_len(data@.len()) <= i < r@.len() ==> #[trigger] r@[i] == '=',
{
    b64_encode_raw(data)
}

/// Decodes standard, padded base64 text; rejects anything that is not a
/// canonical encoding with `DkimError::Encoding`.
pub fn base64_decode(data: &str) -> (r: Result<Vec<u8>, DkimError>)
    ensures
        r is Ok <==> is_b64(data@),
        r is Ok ==> data@ == b64_of(r->Ok_0@),
        forall|x: Seq<u8>| data@ == #[trigger] b64_of(x) ==> r is Ok && r->Ok_0@ == x,
        r is Err ==> r->Err_0 == DkimError::Encoding,
{
    match b64_decode_raw(data) {
        Ok(v) => Ok(v),
        Err(_) => Err(DkimError::Encoding),
    }
}

/// Law: decoding an encoding returns the original bytes, for every byte
/// sequence including the empty one.
pub fn base64_round_trip(data: &[u8]) -> (r: Vec<u8>)
    ensures
        r@ == data@,
{
    let encoded = base64_encode(data);
    match base64_decode(encoded.as_str()) {
        Ok(v) => v,
        Err(_) => {
            proof {
                assert(encoded@ == b64_of(data@));
                assert(false);
            }
            Vec::new()
        },
    }
}

} // verus!
