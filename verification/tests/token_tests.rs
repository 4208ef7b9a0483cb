use financial_chs::token::{issue_at, issue_checked, validate_at, ValidateError};

fn secret() -> Vec<u8> {
    b"a-test-signing-key".to_vec()
}

#[test]
fn issued_token_validates_at_once() {
    let key = secret();
    let token = issue_at("a@b.com", &key, 1_000_000, 86_400);
    let claims = validate_at(&token, &key, 1_000_000).expect("fresh token validates");
    assert_eq!(claims.email, "a@b.com");
    assert_eq!(claims.iat, 1_000_000);
    assert_eq!(claims.exp, 1_086_400);
}

#[test]
fn issued_token_validates_through_its_window() {
    let key = secret();
    let token = issue_at("a@b.com", &key, 500, 100);
    assert!(validate_at(&token, &key, 599).is_ok());
    assert!(validate_at(&token, &key, 600).is_ok());
    assert_eq!(validate_at(&token, &key, 601), Err(ValidateError::Expired));
    assert_eq!(validate_at(&token, &key, 1_000_000), Err(ValidateError::Expired));
}

#[test]
fn expired_token_is_rejected_as_expired_not_bad_signature() {
    let key = secret();
    let token = issue_at("a@b.com", &key, 0, 1);
    // the signature is still the right one: only the expiry check fails
    assert_eq!(validate_at(&token, &key, 2), Err(ValidateError::Expired));
}

#[test]
fn altered_signature_byte_is_rejected_as_bad_signature() {
    let key = secret();
    let token = issue_at("a@b.com", &key, 1_000_000, 86_400);
    let sig_from = token.rfind('.').unwrap() + 1;
    for k in sig_from..token.len() {
        let mut bytes = token.as_bytes().to_vec();
        bytes[k] = if bytes[k] == b'A' { b'B' } else { b'A' };
        let tampered = String::from_utf8(bytes).unwrap();
        if tampered == token {
            continue;
        }
        assert_eq!(
            validate_at(&tampered, &key, 1_000_000),
            Err(ValidateError::BadSignature),
            "altered signature byte at {k}"
        );
    }
}

#[test]
fn wrong_key_is_rejected_as_bad_signature() {
    let token = issue_at("a@b.com", &secret(), 1_000_000, 86_400);
    let other = b"another-key".to_vec();
    assert_eq!(validate_at(&token, &other, 1_000_000), Err(ValidateError::BadSignature));
}

#[test]
fn garbage_tokens_are_malformed() {
    let key = secret();
    for t in [
        "",
        "garbage",
        "a.b",
        "a.b.c.d",
        "not..dots",
        "eyJhbGciOiJIUzI1NiIsInR5cCI6IkpXVCJ9.e30.x",
    ] {
        assert_eq!(validate_at(t, &key, 0), Err(ValidateError::Malformed), "token {t:?}");
    }
}

#[test]
fn altered_payload_never_validates() {
    let key = secret();
    let token = issue_at("a@b.com", &key, 1_000_000, 86_400);
    let first_dot = token.find('.').unwrap();
    let second_dot = token[first_dot + 1..].find('.').unwrap() + first_dot + 1;
    for k in first_dot + 1..second_dot {
        let mut bytes = token.as_bytes().to_vec();
        bytes[k] = if bytes[k] == b'A' { b'B' } else { b'A' };
        let tampered = String::from_utf8(bytes).unwrap();
        assert!(validate_at(&tampered, &key, 1_000_000).is_err(), "altered payload byte at {k}");
    }
}

#[test]
fn token_has_jwt_shape_and_real_signature() {
    let key = secret();
    let token = issue_at("a@b.com", &key, 1_000_000, 86_400);
    let parts: Vec<&str> = token.split('.').collect();
    assert_eq!(parts.len(), 3);
    assert_eq!(parts[0], "eyJhbGciOiJIUzI1NiIsInR5cCI6IkpXVCJ9");
    // an HMAC-SHA256 signature is 32 bytes: 43 base64url characters
    assert_eq!(parts[2].len(), 43);
    // the header parses as a JWT header naming HS256
    let header = jsonwebtoken::decode_header(&token).expect("JWT header parses");
    assert_eq!(header.alg, jsonwebtoken::Algorithm::HS256);
    // the signature segment checks out against the real verifier
    let message = format!("{}.{}", parts[0], parts[1]);
    let ok = jsonwebtoken::crypto::verify(
        parts[2],
        message.as_bytes(),
        &jsonwebtoken::DecodingKey::from_secret(&key),
        jsonwebtoken::Algorithm::HS256,
    )
    .expect("verify runs");
    assert!(ok);
}

#[test]
fn issue_checked_refuses_only_a_bad_window() {
    let key = secret();
    assert!(issue_checked("a@b.com", &key, 1_000, 100).is_some());
    // subjects that need escaping are carried all the same
    assert!(issue_checked("a\"b", &key, 1_000, 100).is_some());
    assert!(issue_checked("caf\u{e9}@b", &key, 1_000, 100).is_some());
    // a zero window never yields a token
    assert!(issue_checked("a@b.com", &key, 1_000, 0).is_none());
    // an expiry past the machine range never yields a token
    assert!(issue_checked("a@b.com", &key, usize::MAX, 1).is_none());
}

#[test]
fn tokens_carry_any_subject() {
    let key = secret();
    for email in [
        "a@b.com",
        "quote\"inside",
        "back\\slash",
        "caf\u{e9}@example.org",
        "hi\u{1F600}bye",
        "bell\u{7}char",
    ] {
        let token = issue_at(email, &key, 1_000, 100);
        let claims = validate_at(&token, &key, 1_000).expect("any subject validates");
        assert_eq!(claims.email, email);
    }
}
