use financial_chs::b64::{b64_decode, b64_encode};
use financial_chs::claims::{claims_json, parse_claims};

#[test]
fn b64_encodes_known_vectors() {
    assert_eq!(b64_encode("Man"), "TWFu");
    assert_eq!(b64_encode("Ma"), "TWFh".replace("Fh", "E"));
    assert_eq!(b64_encode("Ma"), "TWE");
    assert_eq!(b64_encode("M"), "TQ");
    assert_eq!(b64_encode(""), "");
    assert_eq!(b64_encode("{\"a\":1}"), "eyJhIjoxfQ");
}

#[test]
fn b64_round_trips() {
    for s in ["", "a", "ab", "abc", "abcd", "hello world!", "{\"exp\":1,\"iat\":0}"] {
        let enc = b64_encode(s);
        let dec = b64_decode(&enc).expect("canonical encoding decodes");
        assert_eq!(dec, s);
    }
}

#[test]
fn b64_rejects_bad_input() {
    // a length of 4k + 1 is never a canonical encoding
    assert!(b64_decode("TQFum").is_none());
    // characters outside the alphabet
    assert!(b64_decode("T+==").is_none());
    assert!(b64_decode("T.").is_none());
    // nonzero trailing bits: "TR" would decode to the same byte as "TQ"
    assert!(b64_decode("TR").is_none());
    assert!(b64_decode("").is_some());
}

#[test]
fn claims_json_emits_canonical_text() {
    let s = claims_json("a@b.com", 100, 50);
    assert_eq!(s, "{\"exp\":100,\"iat\":50,\"email\":\"a@b.com\"}");
}

#[test]
fn claims_round_trip() {
    let s = claims_json("someone@example.org", 1735693261, 1735606861);
    let (email, exp, iat) = parse_claims(&s).expect("emitted claims parse");
    assert_eq!(email, "someone@example.org");
    assert_eq!(exp, 1735693261);
    assert_eq!(iat, 1735606861);
}

#[test]
fn claims_parser_rejects_noncanonical_text() {
    // leading zero
    assert!(parse_claims("{\"exp\":007,\"iat\":1,\"email\":\"a@b\"}").is_none());
    // missing field
    assert!(parse_claims("{\"exp\":7,\"email\":\"a@b\"}").is_none());
    // wrong field order
    assert!(parse_claims("{\"iat\":1,\"exp\":7,\"email\":\"a@b\"}").is_none());
    // trailing garbage
    assert!(parse_claims("{\"exp\":7,\"iat\":1,\"email\":\"a@b\"}x").is_none());
    // no digits at all
    assert!(parse_claims("{\"exp\":,\"iat\":1,\"email\":\"a@b\"}").is_none());
    // a number too large for usize
    assert!(parse_claims("{\"exp\":99999999999999999999999999,\"iat\":1,\"email\":\"a@b\"}")
        .is_none());
    assert!(parse_claims("").is_none());
}

#[test]
fn claims_json_escapes_the_subject() {
    assert_eq!(claims_json("a\"b", 1, 0), r#"{"exp":1,"iat":0,"email":"a\"b"}"#);
    assert_eq!(claims_json("a\\b", 1, 0), r#"{"exp":1,"iat":0,"email":"a\\b"}"#);
    assert_eq!(
        claims_json("caf\u{e9}@example.org", 1, 0),
        r#"{"exp":1,"iat":0,"email":"caf\u00e9@example.org"}"#
    );
    assert_eq!(claims_json("hi\u{1F600}", 1, 0), r#"{"exp":1,"iat":0,"email":"hi\ud83d\ude00"}"#);
    assert_eq!(claims_json("bell\u{7}", 1, 0), r#"{"exp":1,"iat":0,"email":"bell\u0007"}"#);
}

#[test]
fn escaped_subjects_round_trip() {
    for email in [
        "a@b.com",
        "quote\"inside",
        "back\\slash",
        "caf\u{e9}@example.org",
        "hi\u{1F600}bye",
        "bell\u{7}char",
        "\u{fffd}\u{10FFFF}",
    ] {
        let s = claims_json(email, 7, 1);
        let (parsed, exp, iat) = parse_claims(&s).expect("escaped claims parse");
        assert_eq!(parsed, email);
        assert_eq!((exp, iat), (7, 1));
    }
}

#[test]
fn noncanonical_escapes_are_rejected() {
    // an escape for a character that travels raw
    assert!(parse_claims(r#"{"exp":7,"iat":1,"email":"\u0041"}"#).is_none());
    // uppercase hexadecimal digits
    assert!(parse_claims(r#"{"exp":7,"iat":1,"email":"\u00E9"}"#).is_none());
    // a lone low surrogate, and a high one with no partner
    assert!(parse_claims(r#"{"exp":7,"iat":1,"email":"\udc00"}"#).is_none());
    assert!(parse_claims(r#"{"exp":7,"iat":1,"email":"\ud83dxx"}"#).is_none());
    // a truncated escape, and a raw control character
    assert!(parse_claims(r#"{"exp":7,"iat":1,"email":"\u00"}"#).is_none());
    assert!(parse_claims("{\"exp\":7,\"iat\":1,\"email\":\"a\u{7}b\"}").is_none());
}
