//! DKIM (DomainKeys Identified Mail) verification primitives.
//!
//! The library prepares the exact byte sequences that DKIM requires to be
//! hashed and verifies signatures against sender-published key material:
//! splitting a raw RFC 5322 message into header fields and body, "simple"
//! body canonicalization, SHA-256/512 digests, base64 transport encoding,
//! and RSA-SHA256 / Ed25519 signature verification.

pub mod address;
pub mod canonical;
pub mod chars;
pub mod codec;
pub mod digest;
pub mod errors;
pub mod message;
pub mod normalize;
pub mod tokens;
pub mod verify;

pub use errors::DkimError;
