//! Issuing and validating signed, time-bounded identity tokens. A token is
//! three base64url segments joined by dots: a fixed header, the claims
//! payload, and an HMAC-SHA256 signature over the first two segments.
use vstd::prelude::*;
use vstd::string::StrSliceExecFns;
use vstd::string::StringExecFns;
use crate::auth::Claims;
use crate::b64::b64_decode;
use crate::b64::b64_encode;
use crate::b64::is_b64_char;
use crate::b64::lemma_b64_char_not_dot;
use crate::b64::lemma_b64_encode_chars;
use crate::b64::lemma_b64_round_trip;
use crate::b64::push_char;
use crate::b64::spec_b64_decode;
use crate::b64::spec_b64_encode;
use crate::claims::claims_json;
use crate::escape::escape;
use crate::escape::lemma_escape_ascii;
use crate::claims::is_digit;
use crate::claims::lemma_claims_round_trip;
use crate::claims::lemma_digits_props;
use crate::claims::parse_claims;
use crate::claims::spec_claims_json;
use crate::claims::spec_parse_claims;
use crate::claims::digits;

verus! {

/// Why a token was rejected: not parseable at all, a signature that does not
/// match, or an expiry that lies in the past.
#[derive(Clone, Copy, Debug, PartialEq, Eq, Structural)]
pub enum ValidateError {
    Malformed,
    BadSignature,
    Expired,
}

/// The base64url-encoded HMAC-SHA256 signature that `jsonwebtoken` computes
/// for a message under a secret key. Named, not spelled out: the contracts
/// only relate signing and verifying through it.
pub uninterp spec fn hs256_sig(message: Seq<char>, secret: Seq<u8>) -> Seq<char>;

/// Every character of the signature for this message lies in the base64url
/// alphabet; the signing wrapper establishes this of every signature it
/// returns.
pub open spec fn signature_clean(message: Seq<char>, secret: Seq<u8>) -> bool {
    forall|i: int|
        0 <= i < hs256_sig(message, secret).len() ==> is_b64_char(
            #[trigger] hs256_sig(message, secret)[i],
        )
}

/// Signs a message under a secret key.
///
/// Relies on `jsonwebtoken::crypto::sign` with `Algorithm::HS256`: its source
/// computes the HMAC-SHA256 of the message under the key — a deterministic
/// function of the two — and returns it base64url-encoded, never failing for
/// an HMAC algorithm.
#[verifier::external_body]
fn hs256_sign(message: &str, secret: &Vec<u8>) -> (r: String)
    ensures
        r@ == hs256_sig(message@, secret@),
        forall|i: int| 0 <= i < r@.len() ==> is_b64_char(#[trigger] r@[i]),
{
    let key = jsonwebtoken::EncodingKey::from_secret(secret.as_slice());
    jsonwebtoken::crypto::sign(message.as_bytes(), &key, jsonwebtoken::Algorithm::HS256).unwrap()
}

/// Checks a signature against a message under a secret key.
///
/// Relies on `jsonwebtoken::crypto::verify` with `Algorithm::HS256`: its
/// source re-signs the message with the same key and compares the two
/// base64url signature strings byte for byte in constant time, so it returns
/// true exactly when the given signature is the one `sign` yields.
#[verifier::external_body]
fn hs256_verify(signature: &str, message: &str, secret: &Vec<u8>) -> (r: bool)
    ensures
        r == (signature@ == hs256_sig(message@, secret@)),
{
    let key = jsonwebtoken::DecodingKey::from_secret(secret.as_slice());
    match jsonwebtoken::crypto::verify(
        signature,
        message.as_bytes(),
        &key,
        jsonwebtoken::Algorithm::HS256,
    ) {
        Ok(b) => b,
        Err(_) => false,
    }
}

/// The fixed JOSE header of every token this library issues.
pub open spec fn spec_header_json() -> Seq<char> {
    "{\"alg\":\"HS256\",\"typ\":\"JWT\"}"@
}

pub open spec fn spec_header_seg() -> Seq<char> {
    spec_b64_encode(spec_header_json())
}

pub open spec fn spec_payload_seg(email: Seq<char>, exp: nat, iat: nat) -> Seq<char> {
    spec_b64_encode(spec_claims_json(email, exp, iat))
}

/// The signed part of a token: header segment, dot, payload segment.
pub open spec fn spec_message(email: Seq<char>, exp: nat, iat: nat) -> Seq<char> {
    spec_header_seg() + seq!['.'] + spec_payload_seg(email, exp, iat)
}

/// The complete token for a subject and its two timestamps under a key.
pub open spec fn spec_token(email: Seq<char>, exp: nat, iat: nat, secret: Seq<u8>) -> Seq<char> {
    spec_message(email, exp, iat) + seq!['.'] + hs256_sig(spec_message(email, exp, iat), secret)
}

/// Index of the first dot at or after `from`; the length when there is none.
pub open spec fn find_dot(s: Seq<char>, from: int) -> int
    decreases s.len() - from,
{
    if from >= s.len() {
        s.len() as int
    } else if s[from] == '.' {
        from
    } else {
        find_dot(s, from + 1)
    }
}

pub proof fn lemma_find_dot_props(s: Seq<char>, from: int)
    requires
        0 <= from <= s.len(),
    ensures
        from <= find_dot(s, from) <= s.len(),
        forall|j: int| from <= j < find_dot(s, from) ==> s[j] != '.',
        find_dot(s, from) < s.len() ==> s[find_dot(s, from)] == '.',
    decreases s.len() - from,
{
    if from == s.len() {
    } else if s[from] == '.' {
    } else {
        lemma_find_dot_props(s, from + 1);
    }
}

pub proof fn lemma_find_dot_is(s: Seq<char>, from: int, k: int)
    requires
        0 <= from <= k <= s.len(),
        forall|j: int| from <= j < k ==> s[j] != '.',
        k == s.len() || s[k] == '.',
    ensures
        find_dot(s, from) == k,
    decreases k - from,
{
    if from < k {
        lemma_find_dot_is(s, from + 1, k);
    }
}

/// Where the signature segment of a token begins: one past the second dot.
pub open spec fn sig_start(token: Seq<char>) -> int {
    find_dot(token, find_dot(token, 0) + 1) + 1
}

/// Validation of a token under a key at a time: structure first, then the
/// signature, then expiry, each failure with its own error. A token is
/// structurally sound when it has exactly three dot-separated segments, the
/// canonical header, a payload that decodes and parses to claims whose
/// timestamps fit `usize`, and an expiry after its issued-at. Only the
/// canonical form this library issues is accepted: an equivalent token
/// framed differently — another claim order, extra whitespace, base64
/// padding — is `Malformed`, which is sound here because this system is its
/// own issuer.
pub open spec fn spec_validate(token: Seq<char>, secret: Seq<u8>, now: nat) -> Result<
    (Seq<char>, nat, nat),
    ValidateError,
> {
    let n = token.len() as int;
    let d1 = find_dot(token, 0);
    let d2 = find_dot(token, d1 + 1);
    if d1 == n || d2 == n || find_dot(token, d2 + 1) != n {
        Err(ValidateError::Malformed)
    } else if token.take(d1) != spec_header_seg() {
        Err(ValidateError::Malformed)
    } else {
        match spec_b64_decode(token.subrange(d1 + 1, d2)) {
            None => Err(ValidateError::Malformed),
            Some(pj) => match spec_parse_claims(pj) {
                None => Err(ValidateError::Malformed),
                Some(t) => {
                    if t.1 > usize::MAX || t.2 > usize::MAX {
                        Err(ValidateError::Malformed)
                    } else if t.1 <= t.2 {
                        Err(ValidateError::Malformed)
                    } else if token.skip(d2 + 1) != hs256_sig(token.take(d2), secret) {
                        Err(ValidateError::BadSignature)
                    } else if now > t.1 {
                        Err(ValidateError::Expired)
                    } else {
                        Ok(t)
                    }
                },
            },
        }
    }
}

/// Index of the first dot at or after `from`, computed.
fn find_dot_exec(token: &str, from: usize) -> (r: usize)
    requires
        from <= token@.len(),
    ensures
        r == find_dot(token@, from as int),
        from <= r <= token@.len(),
{
    let n = token.unicode_len();
    let mut j: usize = from;
    while j < n
        invariant
            from <= j <= n,
            n == token@.len(),
            forall|k: int| from <= k < j ==> token@[k] != '.',
        decreases n - j,
    {
        if token.get_char(j) == '.' {
            proof {
                lemma_find_dot_is(token@, from as int, j as int);
            }
            return j;
        }
        j = j + 1;
    }
    proof {
        lemma_find_dot_is(token@, from as int, n as int);
    }
    n
}

/// Whether two pieces of text are equal character for character.
pub fn str_eq(a: &str, b: &str) -> (r: bool)
    ensures
        r == (a@ == b@),
{
    let n = a.unicode_len();
    if n != b.unicode_len() {
        return false;
    }
    let mut j: usize = 0;
    while j < n
        invariant
            j <= n,
            n == a@.len(),
            n == b@.len(),
            forall|k: int| 0 <= k < j ==> a@[k] == b@[k],
        decreases n - j,
    {
        if a.get_char(j) != b.get_char(j) {
            return false;
        }
        j = j + 1;
    }
    proof {
        assert(a@ =~= b@);
    }
    true
}

/// All characters of the canonical claims text are below 256, so the text
/// survives the base64url round trip.
pub proof fn lemma_claims_json_ascii(email: Seq<char>, exp: nat, iat: nat)
    ensures
        forall|i: int|
            0 <= i < spec_claims_json(email, exp, iat).len() ==> ((#[trigger] spec_claims_json(
                email,
                exp,
                iat,
            )[i]) as int) < 256,
{
    reveal_strlit("{\"exp\":");
    reveal_strlit(",\"iat\":");
    reveal_strlit(",\"email\":\"");
    reveal_strlit("\"}");
    let p1 = "{\"exp\":"@;
    let p2 = ",\"iat\":"@;
    let p3 = ",\"email\":\""@;
    let e2 = "\"}"@;
    lemma_digits_props(exp);
    lemma_digits_props(iat);
    lemma_escape_ascii(email);
    let de = digits(exp);
    let di = digits(iat);
    let esc = escape(email);
    let s = spec_claims_json(email, exp, iat);
    assert forall|i: int| 0 <= i < s.len() implies ((#[trigger] s[i]) as int) < 256 by {
        let a1 = p1.len() as int;
        let a2 = a1 + de.len();
        let a3 = a2 + p2.len();
        let a4 = a3 + di.len();
        let a5 = a4 + p3.len();
        let a6 = a5 + esc.len();
        if i < a1 {
            assert(s[i] == p1[i]);
        } else if i < a2 {
            assert(s[i] == de[i - a1]);
            assert(is_digit(de[i - a1]));
        } else if i < a3 {
            assert(s[i] == p2[i - a2]);
        } else if i < a4 {
            assert(s[i] == di[i - a3]);
            assert(is_digit(di[i - a3]));
        } else if i < a5 {
            assert(s[i] == p3[i - a4]);
        } else if i < a6 {
            assert(s[i] == esc[i - a5]);
        } else {
            assert(s[i] == e2[i - a6]);
        }
    }
}

/// How an issued token splits back into its segments: the dots stand exactly
/// between the header, payload and signature, because no segment contains one.
pub proof fn lemma_token_structure(email: Seq<char>, secret: Seq<u8>, exp: nat, iat: nat)
    requires
        signature_clean(spec_message(email, exp, iat), secret),
    ensures
        ({
            let msg = spec_message(email, exp, iat);
            let tok = spec_token(email, exp, iat, secret);
            let hl = spec_header_seg().len() as int;
            &&& find_dot(tok, 0) == hl
            &&& find_dot(tok, hl + 1) == msg.len() as int
            &&& find_dot(tok, msg.len() as int + 1) == tok.len()
            &&& (hl as nat) < msg.len() < tok.len()
            &&& tok.take(hl) == spec_header_seg()
            &&& tok.subrange(hl + 1, msg.len() as int) == spec_payload_seg(email, exp, iat)
            &&& tok.take(msg.len() as int) == msg
            &&& tok.skip(msg.len() as int + 1) == hs256_sig(msg, secret)
        }),
{
    let hseg = spec_header_seg();
    let pseg = spec_payload_seg(email, exp, iat);
    let msg = spec_message(email, exp, iat);
    let sig = hs256_sig(msg, secret);
    let tok = spec_token(email, exp, iat, secret);
    let hl = hseg.len() as int;
    lemma_b64_encode_chars(spec_header_json());
    lemma_b64_encode_chars(spec_claims_json(email, exp, iat));
    assert(msg.len() == hseg.len() + 1 + pseg.len());
    assert(tok.len() == msg.len() + 1 + sig.len());
    assert(tok[hl] == '.');
    assert(tok[msg.len() as int] == '.');
    assert forall|j: int| 0 <= j < hl implies tok[j] != '.' by {
        assert(tok[j] == hseg[j]);
        lemma_b64_char_not_dot(hseg[j]);
    }
    lemma_find_dot_is(tok, 0, hl);
    assert forall|j: int| hl + 1 <= j < msg.len() implies tok[j] != '.' by {
        assert(tok[j] == pseg[j - hl - 1]);
        lemma_b64_char_not_dot(pseg[j - hl - 1]);
    }
    lemma_find_dot_is(tok, hl + 1, msg.len() as int);
    assert forall|j: int| msg.len() + 1 <= j < tok.len() implies tok[j] != '.' by {
        assert(tok[j] == sig[j - msg.len() - 1]);
        lemma_b64_char_not_dot(sig[j - msg.len() - 1]);
    }
    lemma_find_dot_is(tok, msg.len() as int + 1, tok.len() as int);
    assert(tok.take(hl) =~= hseg);
    assert(tok.subrange(hl + 1, msg.len() as int) =~= pseg);
    assert(tok.take(msg.len() as int) =~= msg);
    assert(tok.skip(msg.len() as int + 1) =~= sig);
}

/// A token issued for a subject validates under the issuing key at any time
/// up to its expiry, and yields exactly the claims it was minted with.
pub proof fn lemma_issued_token_validates(
    email: Seq<char>,
    secret: Seq<u8>,
    exp: nat,
    iat: nat,
    t: nat,
)
    requires
        iat < exp <= usize::MAX,
        signature_clean(spec_message(email, exp, iat), secret),
        t <= exp,
    ensures
        spec_validate(spec_token(email, exp, iat, secret), secret, t) == Ok::<
            (Seq<char>, nat, nat),
            ValidateError,
        >((email, exp, iat)),
{
    lemma_validation_reaches_expiry(email, secret, exp, iat, t);
}

/// Past its expiry the same token is rejected as `Expired` — the signature
/// is still the right one, and the expiry check is what fails.
pub proof fn lemma_issued_token_expires(
    email: Seq<char>,
    secret: Seq<u8>,
    exp: nat,
    iat: nat,
    t: nat,
)
    requires
        iat < exp <= usize::MAX,
        signature_clean(spec_message(email, exp, iat), secret),
        t > exp,
    ensures
        spec_validate(spec_token(email, exp, iat, secret), secret, t) == Err::<
            (Seq<char>, nat, nat),
            ValidateError,
        >(ValidateError::Expired),
{
    lemma_validation_reaches_expiry(email, secret, exp, iat, t);
}

/// Shared core: an issued token passes every check before the expiry one.
proof fn lemma_validation_reaches_expiry(
    email: Seq<char>,
    secret: Seq<u8>,
    exp: nat,
    iat: nat,
    t: nat,
)
    requires
        iat < exp <= usize::MAX,
        signature_clean(spec_message(email, exp, iat), secret),
    ensures
        t <= exp ==> spec_validate(spec_token(email, exp, iat, secret), secret, t) == Ok::<
            (Seq<char>, nat, nat),
            ValidateError,
        >((email, exp, iat)),
        t > exp ==> spec_validate(spec_token(email, exp, iat, secret), secret, t) == Err::<
            (Seq<char>, nat, nat),
            ValidateError,
        >(ValidateError::Expired),
{
    lemma_token_structure(email, secret, exp, iat);
    let msg = spec_message(email, exp, iat);
    let tok = spec_token(email, exp, iat, secret);
    let cj = spec_claims_json(email, exp, iat);
    lemma_claims_json_ascii(email, exp, iat);
    lemma_b64_round_trip(cj);
    lemma_claims_round_trip(email, exp, iat);
    assert(spec_b64_decode(spec_payload_seg(email, exp, iat)) == Some(cj));
    assert(spec_parse_claims(cj) == Some((email, exp, iat)));
}

/// Altering any one character of a token's signature segment — to anything
/// but a dot — turns a token that validated into one rejected as
/// `BadSignature`, at every validation time.
pub proof fn lemma_tampered_signature_rejected(
    token: Seq<char>,
    tampered: Seq<char>,
    secret: Seq<u8>,
    now0: nat,
    now: nat,
    k: int,
)
    requires
        spec_validate(token, secret, now0) is Ok,
        tampered.len() == token.len(),
        sig_start(token) <= k < token.len(),
        tampered[k] != token[k],
        tampered[k] != '.',
        forall|j: int| 0 <= j < token.len() && j != k ==> tampered[j] == token[j],
    ensures
        spec_validate(tampered, secret, now) == Err::<(Seq<char>, nat, nat), ValidateError>(
            ValidateError::BadSignature,
        ),
{
    let n = token.len() as int;
    let d1 = find_dot(token, 0);
    let d2 = find_dot(token, d1 + 1);
    lemma_find_dot_props(token, 0);
    assert(d1 < n);
    lemma_find_dot_props(token, d1 + 1);
    assert(d2 < n);
    lemma_find_dot_props(token, d2 + 1);
    assert(find_dot(token, d2 + 1) == n);
    assert(k >= d2 + 1);
    assert forall|j: int| 0 <= j < d1 implies tampered[j] != '.' by {
        assert(tampered[j] == token[j]);
    }
    assert(tampered[d1] == token[d1]);
    lemma_find_dot_is(tampered, 0, d1);
    assert forall|j: int| d1 + 1 <= j < d2 implies tampered[j] != '.' by {
        assert(tampered[j] == token[j]);
    }
    assert(tampered[d2] == token[d2]);
    lemma_find_dot_is(tampered, d1 + 1, d2);
    assert forall|j: int| d2 + 1 <= j < n implies tampered[j] != '.' by {
        if j != k {
            assert(tampered[j] == token[j]);
        }
    }
    lemma_find_dot_is(tampered, d2 + 1, n);
    assert(tampered.take(d1) =~= token.take(d1));
    assert(tampered.subrange(d1 + 1, d2) =~= token.subrange(d1 + 1, d2));
    assert(tampered.take(d2) =~= token.take(d2));
    let sig = token.skip(d2 + 1);
    let sig2 = tampered.skip(d2 + 1);
    assert(sig == hs256_sig(token.take(d2), secret));
    assert(sig2[k - (d2 + 1)] == tampered[k]);
    assert(sig[k - (d2 + 1)] == token[k]);
    assert(sig2 != sig);
}

/// Issues a token for a subject: issued-at is `now`, expiry is `now` plus the
/// validity window, and the result is exactly the token of `spec_token` — so
/// it validates under the same key at any time through its expiry, and at no
/// later one.
pub fn issue_at(email: &str, secret: &Vec<u8>, now: usize, window: usize) -> (r: String)
    requires
        1 <= window,
        now + window <= usize::MAX,
    ensures
        r@ == spec_token(email@, (now + window) as nat, now as nat, secret@),
        signature_clean(spec_message(email@, (now + window) as nat, now as nat), secret@),
        forall|t: nat|
            t <= now + window ==> spec_validate(r@, secret@, t) == Ok::<
                (Seq<char>, nat, nat),
                ValidateError,
            >((email@, (now + window) as nat, now as nat)),
        forall|t: nat|
            t > now + window ==> spec_validate(r@, secret@, t) == Err::<
                (Seq<char>, nat, nat),
                ValidateError,
            >(ValidateError::Expired),
{
    let exp = now + window;
    let payload = claims_json(email, exp, now);
    let mut msg = b64_encode("{\"alg\":\"HS256\",\"typ\":\"JWT\"}");
    push_char(&mut msg, '.');
    let pb = b64_encode(payload.as_str());
    msg.append(pb.as_str());
    proof {
        assert(msg@ =~= spec_message(email@, exp as nat, now as nat));
    }
    let sig = hs256_sign(msg.as_str(), secret);
    let mut token = msg;
    push_char(&mut token, '.');
    token.append(sig.as_str());
    proof {
        assert(token@ =~= spec_token(email@, exp as nat, now as nat, secret@));
        assert forall|t: nat| t <= now + window implies spec_validate(token@, secret@, t) == Ok::<
            (Seq<char>, nat, nat),
            ValidateError,
        >((email@, (now + window) as nat, now as nat)) by {
            lemma_issued_token_validates(email@, secret@, exp as nat, now as nat, t);
        }
        assert forall|t: nat| t > now + window implies spec_validate(token@, secret@, t) == Err::<
            (Seq<char>, nat, nat),
            ValidateError,
        >(ValidateError::Expired) by {
            lemma_issued_token_expires(email@, secret@, exp as nat, now as nat, t);
        }
    }
    token
}

/// Issues a token after checking that the expiry fits the machine range and
/// the window is positive: the safe entry around `issue_at`.
pub fn issue_checked(email: &str, secret: &Vec<u8>, now: usize, window: usize) -> (r: Option<
    String,
>)
    ensures
        (1 <= window && now + window <= usize::MAX) <==> r is Some,
        r matches Some(tok) ==> signature_clean(
            spec_message(email@, (now + window) as nat, now as nat),
            secret@,
        ),
        r matches Some(tok) ==> tok@ == spec_token(
            email@,
            (now + window) as nat,
            now as nat,
            secret@,
        ) && (forall|t: nat|
            t <= now + window ==> spec_validate(tok@, secret@, t) == Ok::<
                (Seq<char>, nat, nat),
                ValidateError,
            >((email@, (now + window) as nat, now as nat))),
{
    if window < 1 {
        return None;
    }
    if now > usize::MAX - window {
        return None;
    }
    Some(issue_at(email, secret, now, window))
}

/// Validates a token under a key at a time, returning its claims or the
/// exact rejection of `spec_validate`.
pub fn validate_at(token: &str, secret: &Vec<u8>, now: usize) -> (r: Result<Claims, ValidateError>)
    ensures
        match spec_validate(token@, secret@, now as nat) {
            Ok(t) => r matches Ok(c) && c.email@ == t.0 && c.exp as nat == t.1 && c.iat as nat
                == t.2,
            Err(e) => (r matches Err(e2) && e2 == e),
        },
{
    let n = token.unicode_len();
    let d1 = find_dot_exec(token, 0);
    if d1 == n {
        return Err(ValidateError::Malformed);
    }
    let d2 = find_dot_exec(token, d1 + 1);
    if d2 == n {
        return Err(ValidateError::Malformed);
    }
    let d3 = find_dot_exec(token, d2 + 1);
    if d3 != n {
        return Err(ValidateError::Malformed);
    }
    let header = token.substring_char(0, d1);
    let expected = b64_encode("{\"alg\":\"HS256\",\"typ\":\"JWT\"}");
    if !str_eq(header, expected.as_str()) {
        return Err(ValidateError::Malformed);
    }
    let payload_seg = token.substring_char(d1 + 1, d2);
    let payload = match b64_decode(payload_seg) {
        Some(p) => p,
        None => {
            return Err(ValidateError::Malformed);
        },
    };
    let parsed = match parse_claims(payload.as_str()) {
        Some(t) => t,
        None => {
            return Err(ValidateError::Malformed);
        },
    };
    let (email, exp, iat) = parsed;
    if exp <= iat {
        return Err(ValidateError::Malformed);
    }
    let msg = token.substring_char(0, d2);
    let sig = token.substring_char(d2 + 1, n);
    if !hs256_verify(sig, msg, secret) {
        return Err(ValidateError::BadSignature);
    }
    if now > exp {
        return Err(ValidateError::Expired);
    }
    Ok(Claims::new(exp, iat, email))
}

/// Reads the clock.
///
/// Relies on chrono's `Utc::now` for the number of non-leap seconds since the
/// Unix epoch; nothing is assumed of the value.
#[verifier::external_body]
fn chrono_now_timestamp() -> (r: i64) {
    chrono::Utc::now().timestamp()
}

/// The current time in whole seconds since the epoch, clamped into `usize`.
pub fn now_seconds() -> (r: usize) {
    let t = chrono_now_timestamp();
    if t <= 0 {
        0
    } else {
        let u = t as u64;
        if u > usize::MAX as u64 {
            usize::MAX
        } else {
            u as usize
        }
    }
}

} // verus!
