//! Signature verifier: Ed25519 and RSA-SHA256 (PKCS#1 v1.5) verification
//! against caller-supplied, base64-encoded key and signature material.
//!
//! Malformed material is reported as a typed error; a correctly formed but
//! cryptographically non-matching signature is the normal `Ok(false)`.

use vstd::prelude::*;

use crate::codec::{b64_of, base64_decode, is_b64};
use crate::digest::{sha256_of, sha256_hash_raw};
use crate::errors::DkimError;

verus! {

/// Whether 32 key bytes decode to a valid Ed25519 verifying key: a pure
/// function of the bytes alone.
pub uninterp spec fn ed25519_key_ok(key: Seq<u8>) -> bool;

/// The outcome of Ed25519 verification for given key, message and
/// signature bytes: a pure function of those bytes alone.
pub uninterp spec fn ed25519_sig_valid(key: Seq<u8>, msg: Seq<u8>, sig: Seq<u8>) -> bool;

/// Whether key bytes parse as a DER-encoded PKCS#1 RSA public key: a pure
/// function of the bytes alone.
pub uninterp spec fn rsa_key_ok(key_der: Seq<u8>) -> bool;

/// The outcome of RSA PKCS#1 v1.5 SHA-256 verification for given key,
/// message-digest and signature bytes: a pure function of those bytes
/// alone.
pub uninterp spec fn rsa_sig_valid(key_der: Seq<u8>, digest: Seq<u8>, sig: Seq<u8>) -> bool;

/// Relies on ed25519_dalek: `VerifyingKey::from_bytes` accepts a 32-byte
/// key exactly when the bytes decode to a curve point (a pure function of
/// the bytes), and `Verifier::verify` over a `Signature::from_bytes`
/// signature is a deterministic function of key, message and signature
/// bytes. The three calls stand in one body because the verification
/// outcome can only be named over the raw key bytes, which the opaque
/// parsed key no longer exposes.
#[verifier::external_body]
fn ed25519_verify_raw(key: &[u8], message: &[u8], signature: &[u8]) -> (r: Option<bool>)
    requires
        key@.len() == 32,
        signature@.len() == 64,
    ensures
        r is Some <==> ed25519_key_ok(key@),
        r is Some ==> r->0 == ed25519_sig_valid(key@, message@, signature@),
{
    let key_arr: [u8; 32] = key.try_into().unwrap();
    let sig_arr: [u8; 64] = signature.try_into().unwrap();
    match ed25519_dalek::VerifyingKey::from_bytes(&key_arr) {
        Ok(vk) => {
            let sig = ed25519_dalek::Signature::from_bytes(&sig_arr);
            Some(ed25519_dalek::Verifier::verify(&vk, message, &sig).is_ok())
        },
        Err(_) => None,
    }
}

/// Relies on rsa: `RsaPublicKey::from_pkcs1_der` accepts exactly the
/// well-formed PKCS#1 DER public keys (a pure function of the bytes), and
/// `RsaPublicKey::verify` with the `Pkcs1v15Sign` SHA-256 scheme is a
/// deterministic function of key, digest and signature bytes. The two
/// calls stand in one body because the verification outcome can only be
/// named over the raw key bytes, which the opaque parsed key no longer
/// exposes.
#[verifier::external_body]
fn rsa_verify_raw(key_der: &[u8], digest: &[u8], signature: &[u8]) -> (r: Option<bool>)
    requires
        digest@.len() == 32,
    ensures
        r is Some <==> rsa_key_ok(key_der@),
        r is Some ==> r->0 == rsa_sig_valid(key_der@, digest@, signature@),
{
    let key: rsa::RsaPublicKey =
        match rsa::pkcs1::DecodeRsaPublicKey::from_pkcs1_der(key_der) {
            Ok(k) => k,
            Err(_) => return None,
        };
    let scheme = rsa::Pkcs1v15Sign::new::<rsa::sha2::Sha256>();
    Some(key.verify(scheme, digest, signature).is_ok())
}

/// Verifies an Ed25519 signature over `message`, as DKIM's
/// ed25519-sha256 algorithm requires: the base64 public key must decode
/// to exactly 32 bytes and the base64 signature to exactly 64 bytes; any
/// other length is a format error. With those lengths the result is
/// always a boolean: 32 key bytes that do not decode to a curve point
/// cannot validate any signature, so they yield the normal `Ok(false)`,
/// never an error — corrupting a bit of a valid key, message or
/// signature makes verification fail, not the call.
pub fn verify_ed25519(public_key: &str, message: &[u8], signature: &str) -> (r: Result<
    bool,
    DkimError,
>)
    ensures
        r == Err::<bool, DkimError>(DkimError::Encoding) <==> (!is_b64(public_key@) || !is_b64(
            signature@,
        )),
        forall|k: Seq<u8>, s: Seq<u8>|
            public_key@ == #[trigger] b64_of(k) && signature@ == #[trigger] b64_of(s) ==> {
                &&& k.len() != 32 ==> r == Err::<bool, DkimError>(DkimError::KeyFormat)
                &&& (k.len() == 32 && s.len() != 64) ==> r == Err::<bool, DkimError>(
                    DkimError::SignatureFormat,
                )
                &&& (k.len() == 32 && s.len() == 64 && !ed25519_key_ok(k)) ==> r == Ok::<
                    bool,
                    DkimError,
                >(false)
                &&& (k.len() == 32 && s.len() == 64 && ed25519_key_ok(k)) ==> r == Ok::<
                    bool,
                    DkimError,
                >(ed25519_sig_valid(k, message@, s))
            },
{
    let key_bytes = match base64_decode(public_key) {
        Ok(v) => v,
        Err(e) => {
            return Err(e);
        },
    };
    let sig_bytes = match base64_decode(signature) {
        Ok(v) => v,
        Err(e) => {
            return Err(e);
        },
    };
    if key_bytes.len() != 32 {
        return Err(DkimError::KeyFormat);
    }
    if sig_bytes.len() != 64 {
        return Err(DkimError::SignatureFormat);
    }
    match ed25519_verify_raw(key_bytes.as_slice(), message, sig_bytes.as_slice()) {
        Some(b) => Ok(b),
        None => Ok(false),
    }
}

/// Verifies an RSA signature over `message`, as DKIM's rsa-sha256
/// algorithm requires: the base64 public key must decode to a DER-encoded
/// PKCS#1 RSA public key; the message is hashed with SHA-256 and checked
/// against the signature under PKCS#1 v1.5 padding. An unparsable key is
/// a format error, while a well-formed signature that does not match is
/// the normal `Ok(false)`.
pub fn verify_rsa_sha256(public_key_der: &str, message: &[u8], signature: &str) -> (r: Result<
    bool,
    DkimError,
>)
    ensures
        r == Err::<bool, DkimError>(DkimError::Encoding) <==> (!is_b64(public_key_der@) || !is_b64(
            signature@,
        )),
        forall|k: Seq<u8>, s: Seq<u8>|
            public_key_der@ == #[trigger] b64_of(k) && signature@ == #[trigger] b64_of(s) ==> {
                &&& !rsa_key_ok(k) ==> r == Err::<bool, DkimError>(DkimError::KeyFormat)
                &&& rsa_key_ok(k) ==> r == Ok::<bool, DkimError>(
                    rsa_sig_valid(k, sha256_of(message@), s),
                )
            },
{
    let key_bytes = match base64_decode(public_key_der) {
        Ok(v) => v,
        Err(e) => {
            return Err(e);
        },
    };
    let sig_bytes = match base64_decode(signature) {
        Ok(v) => v,
        Err(e) => {
            return Err(e);
        },
    };
    let digest = sha256_hash_raw(message);
    match rsa_verify_raw(key_bytes.as_slice(), digest.as_slice(), sig_bytes.as_slice()) {
        Some(b) => Ok(b),
        None => Err(DkimError::KeyFormat),
    }
}

} // verus!
