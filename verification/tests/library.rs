use dkim_core::address::extract_email_address;
use dkim_core::canonical::canonicalize_body_simple;
use dkim_core::codec::{base64_decode, base64_encode, base64_round_trip};
use dkim_core::digest::{compute_body_hash, sha256_hash, sha256_hash_raw, sha512_hash};
use dkim_core::message::{count_received_headers, parse_email, HeaderField, HeaderMap};
use dkim_core::normalize::normalize_chars;
use dkim_core::tokens::extract_tokens;
use dkim_core::verify::{verify_ed25519, verify_rsa_sha256};
use dkim_core::DkimError;

use ed25519_dalek::Signer;

#[test]
fn test_sha256() {
    let data = b"Hello, World!";
    let hash = sha256_hash(data);
    // Known SHA-256 hash of "Hello, World!"
    assert!(!hash.is_empty());
}

#[test]
fn test_base64_roundtrip() {
    let data = b"Test data";
    let encoded = base64_encode(data);
    let decoded = base64_decode(&encoded).unwrap();
    assert_eq!(data.to_vec(), decoded);
}

#[test]
fn test_parse_simple_email() {
    let email = "From: test@example.com\r\nSubject: Test\r\n\r\nBody";
    let result = parse_email(email).unwrap();
    assert!(result.headers.contains_key("from"));
    assert!(result.headers.contains_key("subject"));
    assert_eq!(result.body, "Body");
}

#[test]
fn test_extract_email() {
    let header = "John Doe <john@example.com>";
    let email = extract_email_address(header).unwrap();
    assert_eq!(email, "john@example.com");
}

#[test]
fn test_tokenize() {
    let text = "Hello world! This is a test.";
    let tokens = extract_tokens(text);
    assert!(tokens.contains(&"hello".to_string()));
    assert!(tokens.contains(&"world".to_string()));
    assert!(tokens.contains(&"test".to_string()));
}

#[test]
fn normalize_is_idempotent_on_mixed_breaks() {
    let raw: Vec<char> = "a\rb\nc\r\nd\n\re".chars().collect();
    let once = normalize_chars(&raw);
    let twice = normalize_chars(&once);
    assert_eq!(once, twice);
    let s: String = once.iter().collect();
    assert_eq!(s, "a\r\nb\r\nc\r\nd\r\n\r\ne");
}

#[test]
fn canonicalize_blank_bodies_to_single_crlf() {
    assert_eq!(canonicalize_body_simple(""), "\r\n");
    assert_eq!(canonicalize_body_simple("   \r\n  \r\n"), "\r\n");
}

#[test]
fn canonicalize_trims_and_terminates() {
    assert_eq!(canonicalize_body_simple("line  \nnext\t\r\n\r\n\r\n"), "line\r\nnext\r\n");
    assert_eq!(canonicalize_body_simple("no break"), "no break\r\n");
    assert_eq!(canonicalize_body_simple("mid  space \r\n"), "mid  space\r\n");
}

#[test]
fn canonicalize_is_idempotent() {
    let messy = "  a \r\nb\t\n\nc \r \r\n  \r\n\r\n";
    let once = canonicalize_body_simple(messy);
    let twice = canonicalize_body_simple(&once);
    assert_eq!(once, twice);
}

#[test]
fn base64_encodes_exactly() {
    assert_eq!(base64_encode(b"Test data"), "VGVzdCBkYXRh");
    assert_eq!(base64_encode(b""), "");
}

#[test]
fn base64_round_trips_all_inputs() {
    assert_eq!(base64_round_trip(b""), b"".to_vec());
    let data: Vec<u8> = (0u8..=255u8).collect();
    assert_eq!(base64_round_trip(&data), data);
    let encoded = base64_encode(&data);
    assert_eq!(base64_decode(&encoded).unwrap(), data);
}

#[test]
fn base64_rejects_invalid_input() {
    assert_eq!(base64_decode("!!!"), Err(DkimError::Encoding));
    assert_eq!(base64_decode("AAA"), Err(DkimError::Encoding));
}

#[test]
fn sha256_known_values() {
    assert_eq!(sha256_hash(b"Hello, World!"), "3/1gIbsr1bCvZ2KQgJ7DpTGR3YHH9wpLKGiKNiGCmG8=");
    assert_eq!(sha256_hash(b""), "47DEQpj8HBSa+/TImW+5JCeuQeRkm5NMpJWZG3hSuFU=");
    let raw = sha256_hash_raw(b"Hello, World!");
    assert_eq!(raw.len(), 32);
    assert_eq!(base64_encode(&raw), "3/1gIbsr1bCvZ2KQgJ7DpTGR3YHH9wpLKGiKNiGCmG8=");
}

#[test]
fn sha512_known_value() {
    assert_eq!(
        sha512_hash(b"Hello, World!"),
        "N015SpXNz9izWZMYX++bo2jxYNja9DLQi6nx7R5avmzGkpHg+i/gAGpSVw7xjBne9OYXwzzlLvCm5fvjGMsDhw=="
    );
}

#[test]
fn body_hash_limit_semantics() {
    let body = b"abcdef";
    assert_eq!(compute_body_hash(body, 0), sha256_hash(body));
    assert_eq!(compute_body_hash(body, body.len()), sha256_hash(body));
    assert_eq!(compute_body_hash(body, 100), sha256_hash(body));
    assert_eq!(compute_body_hash(body, 3), sha256_hash(b"abc"));
    assert_eq!(compute_body_hash(body, 3), "ungWv48Bz+pBQUDeXa4iI7ADYaOWF3qctBD/YfIAFa0=");
}

#[test]
fn ed25519_accepts_good_and_rejects_flipped() {
    let sk = ed25519_dalek::SigningKey::from_bytes(&[7u8; 32]);
    let vk = sk.verifying_key();
    let msg = b"dkim test message";
    let sig = sk.sign(msg);
    let pk_b64 = base64_encode(vk.as_bytes());
    let sig_b64 = base64_encode(&sig.to_bytes());
    assert_eq!(verify_ed25519(&pk_b64, msg, &sig_b64), Ok(true));

    // one flipped message bit: false, not an error
    let mut flipped = msg.to_vec();
    flipped[0] ^= 1;
    assert_eq!(verify_ed25519(&pk_b64, &flipped, &sig_b64), Ok(false));

    // one flipped signature bit: false, not an error
    let mut sig_bytes = sig.to_bytes();
    sig_bytes[5] ^= 1;
    let bad_sig_b64 = base64_encode(&sig_bytes);
    assert_eq!(verify_ed25519(&pk_b64, msg, &bad_sig_b64), Ok(false));

    // one flipped key bit: false, not an error, whether or not the
    // flipped bytes still decode to a curve point
    for bit in 0..8 {
        let mut key_bytes = *vk.as_bytes();
        key_bytes[0] ^= 1u8 << bit;
        let bad_key_b64 = base64_encode(&key_bytes);
        assert_eq!(verify_ed25519(&bad_key_b64, msg, &sig_b64), Ok(false));
    }
}

#[test]
fn ed25519_format_errors() {
    let sk = ed25519_dalek::SigningKey::from_bytes(&[9u8; 32]);
    let vk = sk.verifying_key();
    let msg = b"m";
    let sig = sk.sign(msg);
    let pk_b64 = base64_encode(vk.as_bytes());
    let sig_b64 = base64_encode(&sig.to_bytes());

    assert_eq!(verify_ed25519("%%%", msg, &sig_b64), Err(DkimError::Encoding));
    assert_eq!(verify_ed25519(&pk_b64, msg, "%%%"), Err(DkimError::Encoding));

    let short_key = base64_encode(&[1u8; 31]);
    assert_eq!(verify_ed25519(&short_key, msg, &sig_b64), Err(DkimError::KeyFormat));

    let short_sig = base64_encode(&[1u8; 63]);
    assert_eq!(verify_ed25519(&pk_b64, msg, &short_sig), Err(DkimError::SignatureFormat));
}

#[test]
fn rsa_short_key_is_key_format_error() {
    // a 31-byte blob is not a PKCS#1 DER public key
    let key_b64 = base64_encode(&[0x30u8; 31]);
    let sig_b64 = base64_encode(&[0u8; 64]);
    assert_eq!(verify_rsa_sha256(&key_b64, b"msg", &sig_b64), Err(DkimError::KeyFormat));
}

#[test]
fn rsa_wellformed_key_with_bad_signature_is_false() {
    // a syntactically valid 512-bit PKCS#1 public key; the signature
    // cannot match, so the result is a normal false, not an error
    let key_b64 = "MEgCQQCAAAAAAAAAAAAAAAAAAAAAAAAAAAAAAAAAAAAAAAAAAAAAAAAAAAAAAAAAAAAAAAAAAAAAAAAAABI0VniQq83vAgMBAAE=";
    let sig_b64 = base64_encode(&[0x42u8; 64]);
    assert_eq!(verify_rsa_sha256(key_b64, b"msg", &sig_b64), Ok(false));
    assert_eq!(verify_rsa_sha256("%%%", b"msg", &sig_b64), Err(DkimError::Encoding));
}

#[test]
fn split_keeps_body_exactly() {
    let email = "From: a@b.example\r\nSubject: S\r\n\r\nfirst\r\nsecond\r\n";
    let result = parse_email(email).unwrap();
    assert!(result.headers.contains_key("from"));
    assert!(result.headers.contains_key("subject"));
    assert_eq!(result.body, "first\r\nsecond\r\n");
    assert_eq!(result.headers.get("from"), vec!["From: a@b.example\r\n".to_string()]);
}

#[test]
fn folded_header_is_one_entry_with_embedded_break() {
    let email = "Subject: first part\r\n second part\r\nFrom: x@y.example\r\n\r\nB";
    let result = parse_email(email).unwrap();
    let subject = result.headers.get("subject");
    assert_eq!(subject.len(), 1);
    assert_eq!(subject[0], "Subject: first part\r\n second part\r\n");
    assert_eq!(result.headers.field_count(), 2);
}

#[test]
fn headers_only_message_needs_terminator() {
    let ok = parse_email("A: b\r\n").unwrap();
    assert_eq!(ok.body, "");
    assert_eq!(ok.headers.get("a"), vec!["A: b\r\n".to_string()]);

    assert!(matches!(parse_email("A: b"), Err(DkimError::MalformedMessage)));
    assert!(matches!(parse_email("no colon line\r\n"), Err(DkimError::MalformedMessage)));
}

#[test]
fn mixed_line_endings_are_normalized_before_split() {
    let email = "From: a@b.example\nSubject: S\n\nBody";
    let result = parse_email(email).unwrap();
    assert!(result.headers.contains_key("from"));
    assert!(result.headers.contains_key("subject"));
    assert_eq!(result.body, "Body");
}

#[test]
fn duplicate_headers_keep_count_and_order() {
    let email = "Received: one\r\nReceived: two\r\nFrom: x@y.example\r\n\r\nB";
    let result = parse_email(email).unwrap();
    let received = result.headers.get("received");
    assert_eq!(received, vec!["Received: one\r\n".to_string(), "Received: two\r\n".to_string()]);
    assert_eq!(count_received_headers(&result.headers), 2);

    let empty = HeaderMap {
        fields: vec![HeaderField { name: "from".to_string(), value: "From: a\r\n".to_string() }],
    };
    assert_eq!(count_received_headers(&empty), 0);
}

#[test]
fn extract_prefers_angle_form_over_bare() {
    assert_eq!(
        extract_email_address("other@wrong.example <john@example.com>").unwrap(),
        "john@example.com"
    );
    assert_eq!(extract_email_address("reach me at user@site.com today").unwrap(), "user@site.com");
    assert_eq!(extract_email_address("nothing here"), Err(DkimError::NoAddressFound));
    assert_eq!(extract_email_address("<>"), Err(DkimError::NoAddressFound));
}

#[test]
fn extract_bare_address_boundary_cases() {
    // a word character right after the top-level label spoils the boundary
    assert_eq!(extract_email_address("user@site.com_"), Err(DkimError::NoAddressFound));
    // the match ends at the rightmost dot that two or more letters follow
    assert_eq!(extract_email_address("a@b.cd.e").unwrap(), "a@b.cd");
    // a leading non-word local character stays outside the match
    assert_eq!(extract_email_address("-ab@c.de").unwrap(), "ab@c.de");
    // a trailing dot after the top-level label is left out
    assert_eq!(extract_email_address("go to user@site.com."), Ok("user@site.com".to_string()));
}

#[test]
fn tokens_are_unique_sorted_and_lowercased() {
    let tokens = extract_tokens("Spam spam SPAM eggs");
    assert_eq!(tokens, vec!["eggs".to_string(), "spam".to_string()]);

    let tokens = extract_tokens("Hello world! This is a test.");
    assert_eq!(
        tokens,
        vec!["hello".to_string(), "test".to_string(), "this".to_string(), "world".to_string()]
    );

    // too short, underscore-joined, and overlong runs are dropped
    let long_word = "a".repeat(51);
    let text = format!("ab cde_fgh {} keep", long_word);
    let tokens = extract_tokens(&text);
    assert_eq!(tokens, vec!["keep".to_string()]);
}
