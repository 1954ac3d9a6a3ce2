//! Digest engine: SHA-256 and SHA-512 one-shot hashing, and the
//! length-bounded body hash that backs DKIM's `l=` tag.

use vstd::prelude::*;
use vstd::slice::slice_subrange;

use sha2::Digest;

use crate::codec::{b64_of, base64_encode};

verus! {

/// The SHA-256 digest of a byte sequence: a pure function of the input
/// bytes alone, named here and never spelled out.
pub uninterp spec fn sha256_of(data: Seq<u8>) -> Seq<u8>;

/// The SHA-512 digest of a byte sequence: a pure function of the input
/// bytes alone, named here and never spelled out.
pub uninterp spec fn sha512_of(data: Seq<u8>) -> Seq<u8>;

/// Relies on sha2::Sha256 (`Digest::new`/`update`/`finalize`): the digest
/// is a pure function of the input bytes and is exactly 32 bytes long.
#[verifier::external_body]
fn sha256_raw(data: &[u8]) -> (r: Vec<u8>)
    ensures
        r@ == sha256_of(data@),
        r@.len() == 32,
{
    let mut hasher = sha2::Sha256::new();
    sha2::Digest::update(&mut hasher, data);
    sha2::Digest::finalize(hasher).to_vec()
}

/// Relies on sha2::Sha512 (`Digest::new`/`update`/`finalize`): the digest
/// is a pure function of the input bytes and is exactly 64 bytes long.
#[verifier::external_body]
fn sha512_raw(data: &[u8]) -> (r: Vec<u8>)
    ensures
        r@ == sha512_of(data@),
        r@.len() == 64,
{
    let mut hasher = sha2::Sha512::new();
    sha2::Digest::update(&mut hasher, data);
    sha2::Digest::finalize(hasher).to_vec()
}

/// Computes the raw 32-byte SHA-256 digest of the input.
pub fn sha256_hash_raw(data: &[u8]) -> (r: Vec<u8>)
    ensures
        r@ == sha256_of(data@),
        r@.len() == 32,
{
    sha256_raw(data)
}

/// Computes the SHA-256 digest of the input, base64-encoded: always
/// 44 characters encoding the 32 digest bytes.
pub fn sha256_hash(data: &[u8]) -> (r: String)
    ensures
        r@ == b64_of(sha256_of(data@)),
        sha256_of(data@).len() == 32,
        r@.len() == 44,
{
    let digest = sha256_raw(data);
    base64_encode(digest.as_slice())
}

/// Computes the SHA-512 digest of the input, base64-encoded: always
/// 88 characters encoding the 64 digest bytes.
pub fn sha512_hash(data: &[u8]) -> (r: String)
    ensures
        r@ == b64_of(sha512_of(data@)),
        sha512_of(data@).len() == 64,
        r@.len() == 88,
{
    let digest = sha512_raw(data);
    base64_encode(digest.as_slice())
}

/// The part of a body that a length-bounded hash covers: the first
/// `limit` bytes when `0 < limit < len`, and the whole body otherwise
/// (a limit of zero, or one at least the length, means no truncation).
pub open spec fn bounded_prefix(data: Seq<u8>, limit: nat) -> Seq<u8> {
    if 0 < limit < data.len() {
        data.take(limit as int)
    } else {
        data
    }
}

/// Law: a limit of zero, or a limit at least the body length, leaves the
/// hashed bytes untouched, so the bounded body hash equals the plain
/// SHA-256 body hash there.
pub proof fn lemma_bounded_prefix_full(data: Seq<u8>, limit: nat)
    requires
        limit == 0 || limit >= data.len(),
    ensures
        bounded_prefix(data, limit) == data,
{
}

/// Computes the DKIM body hash: the base64-encoded SHA-256 digest of the
/// canonicalized body, truncated to `length` bytes when `0 < length <
/// body.len()` per the `l=` tag semantics.
pub fn compute_body_hash(body: &[u8], length: usize) -> (r: String)
    ensures
        r@ == b64_of(sha256_of(bounded_prefix(body@, length as nat))),
        sha256_of(bounded_prefix(body@, length as nat)).len() == 32,
        r@.len() == 44,
{
    let digest = if length > 0 && length < body.len() {
        let data = slice_subrange(body, 0, length);
        sha256_raw(data)
    } else {
        sha256_raw(body)
    };
    base64_encode(digest.as_slice())
}

} // verus!
