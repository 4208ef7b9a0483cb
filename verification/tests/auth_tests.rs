use financial_chs::auth::{
    authorize, extract_bearer, sign_in, sign_in_at, Claims, GateRejection, SignInData,
    SignInError, TOKEN_VALIDITY_SECS,
};
use financial_chs::token::{now_seconds, validate_at, ValidateError};
use financial_chs::user::{
    register, verify_credential, CredentialError, RegisterError, User, UserOut, UserStore,
};

fn store_with(email: &str, password: &str) -> UserStore {
    let user = User::new(
        email.to_string(),
        "Ada".to_string(),
        "Lovelace".to_string(),
        password.to_string(),
    );
    let record = register(user).expect("registration succeeds");
    let mut store = UserStore::new();
    store.insert(record);
    store
}

#[test]
fn claims_new_keeps_its_fields() {
    let c = Claims::new(200, 100, "a@b.com".to_string());
    assert_eq!(c.exp, 200);
    assert_eq!(c.iat, 100);
    assert_eq!(c.email, "a@b.com");
}

#[test]
fn take_password_moves_the_password_out() {
    let mut user = User::new(
        "a@b.com".to_string(),
        "Ada".to_string(),
        "Lovelace".to_string(),
        "hunter2".to_string(),
    );
    let p = user.take_password();
    assert_eq!(p, "hunter2");
    assert_eq!(user.password, "");
    assert_eq!(user.email, "a@b.com");
}

#[test]
fn from_user_joins_the_names() {
    let user = User::new(
        "a@b.com".to_string(),
        "Ada".to_string(),
        "Lovelace".to_string(),
        "pw".to_string(),
    );
    let out = UserOut::from_user(user);
    assert_eq!(out.email, "a@b.com");
    assert_eq!(out.username, "Ada+Lovelace");
    assert_eq!(out.hash_password, "");
}

#[test]
fn register_refuses_an_empty_password() {
    let user = User::new(
        "a@b.com".to_string(),
        "Ada".to_string(),
        "Lovelace".to_string(),
        String::new(),
    );
    assert_eq!(register(user), Err(RegisterError::EmptyPassword));
}

#[test]
fn registered_hash_verifies_the_password_and_no_other() {
    let user = User::new(
        "a@b.com".to_string(),
        "Ada".to_string(),
        "Lovelace".to_string(),
        "correct".to_string(),
    );
    let record = register(user).expect("registration succeeds");
    assert_eq!(verify_credential("correct", &record.hash_password), Ok(true));
    assert_eq!(verify_credential("wrong", &record.hash_password), Ok(false));
}

#[test]
fn malformed_hash_is_a_distinct_fault() {
    assert_eq!(
        verify_credential("anything", "not a bcrypt hash"),
        Err(CredentialError::MalformedHash)
    );
}

#[test]
fn store_finds_by_email_or_not_at_all() {
    let store = store_with("a@b.com", "pw");
    let found = store.find("a@b.com").expect("present record is found");
    assert_eq!(found.email, "a@b.com");
    assert_eq!(found.username, "Ada+Lovelace");
    assert!(store.find("b@c.org").is_none());
}

#[test]
fn sign_in_with_matching_credential_returns_a_valid_token() {
    let store = store_with("a@b.com", "correct");
    let key = b"k".to_vec();
    let now = 1_000_000;
    let token = sign_in_at(&store, "a@b.com", "correct", &key, now, TOKEN_VALIDITY_SECS)
        .expect("matching credential signs in");
    let claims = validate_at(&token, &key, now).expect("fresh token validates");
    assert_eq!(claims.email, "a@b.com");
}

#[test]
fn wrong_password_and_unknown_email_are_indistinguishable() {
    let store = store_with("a@b.com", "correct");
    let key = b"k".to_vec();
    let wrong_password = sign_in_at(&store, "a@b.com", "wrong", &key, 1_000, 100);
    let unknown_email = sign_in_at(&store, "b@c.org", "correct", &key, 1_000, 100);
    assert_eq!(wrong_password, Err(SignInError::Unauthorized));
    assert_eq!(unknown_email, Err(SignInError::Unauthorized));
    assert_eq!(wrong_password, unknown_email);
}

#[test]
fn sign_in_with_the_clock_round_trips() {
    let store = store_with("a@b.com", "correct");
    let key = b"k".to_vec();
    let data = SignInData { email: "a@b.com".to_string(), password: "correct".to_string() };
    let token = sign_in(&store, &data, &key, TOKEN_VALIDITY_SECS).expect("sign-in succeeds");
    let claims = validate_at(&token, &key, now_seconds()).expect("fresh token validates");
    assert_eq!(claims.email, "a@b.com");
}

#[test]
fn sign_in_works_for_an_internationalized_address() {
    let store = store_with("caf\u{e9}@example.org", "correct");
    let key = b"k".to_vec();
    let token = sign_in_at(&store, "caf\u{e9}@example.org", "correct", &key, 1_000, 100)
        .expect("matching credential signs in");
    let claims = validate_at(&token, &key, 1_000).unwrap();
    assert_eq!(claims.email, "caf\u{e9}@example.org");
}

#[test]
fn corrupt_stored_hash_is_a_server_fault() {
    let mut store = UserStore::new();
    store.insert(UserOut {
        email: "a@b.com".to_string(),
        username: "Ada+Lovelace".to_string(),
        hash_password: "not a hash".to_string(),
    });
    let key = b"k".to_vec();
    assert_eq!(
        sign_in_at(&store, "a@b.com", "pw", &key, 1_000, 100),
        Err(SignInError::ServerFault)
    );
}

#[test]
fn bearer_extraction_requires_the_scheme() {
    assert_eq!(extract_bearer("Bearer abc.def.ghi").as_deref(), Some("abc.def.ghi"));
    assert!(extract_bearer("garbage").is_none());
    assert!(extract_bearer("Bearer").is_none());
    assert!(extract_bearer("Bearer ").is_none());
    assert!(extract_bearer("Bearer a b").is_none());
    assert!(extract_bearer("bearer abc").is_none());
}

#[test]
fn missing_header_is_forbidden_with_its_message() {
    let store = UserStore::new();
    let key = b"k".to_vec();
    let r = authorize(None, &store, &key, 0);
    assert_eq!(r, Err(GateRejection::MissingToken));
    let rejection = r.unwrap_err();
    assert_eq!(rejection.status_code(), 403);
    assert_eq!(rejection.message(), "forbidden, missing token");
}

#[test]
fn garbage_header_is_forbidden_as_malformed() {
    let store = UserStore::new();
    let key = b"k".to_vec();
    let r = authorize(Some("garbage"), &store, &key, 0);
    assert_eq!(r, Err(GateRejection::MalformedHeader));
    let rejection = r.unwrap_err();
    assert_eq!(rejection.status_code(), 403);
    assert_eq!(rejection.message(), "forbidden, malformed header");
}

#[test]
fn undecodable_token_is_unauthorized() {
    let store = UserStore::new();
    let key = b"k".to_vec();
    let r = authorize(Some("Bearer nonsense"), &store, &key, 0);
    assert_eq!(r, Err(GateRejection::InvalidToken));
    let rejection = r.unwrap_err();
    assert_eq!(rejection.status_code(), 401);
    assert_eq!(rejection.message(), "unauthorized, invalid token");
}

#[test]
fn token_for_an_unknown_subject_is_unauthorized() {
    let store = store_with("a@b.com", "correct");
    let key = b"k".to_vec();
    let token = sign_in_at(&store, "a@b.com", "correct", &key, 1_000, 100).unwrap();
    let empty = UserStore::new();
    let header = format!("Bearer {token}");
    assert_eq!(
        authorize(Some(&header), &empty, &key, 1_000),
        Err(GateRejection::UnknownSubject)
    );
}

#[test]
fn signed_in_token_authorizes_within_the_window_and_expires_after() {
    let store = store_with("a@b.com", "correct");
    let key = b"k".to_vec();
    let now = 1_000_000;
    // sign in with the matching credential: success, and a token comes back
    let token = sign_in_at(&store, "a@b.com", "correct", &key, now, TOKEN_VALIDITY_SECS)
        .expect("sign-in succeeds");
    let header = format!("Bearer {token}");
    // within the validity window authorization attaches the identity
    let identity = authorize(Some(&header), &store, &key, now + 10).expect("gate admits");
    assert_eq!(identity.email, "a@b.com");
    // after the window has elapsed the validator reports the expiry
    let after = now + TOKEN_VALIDITY_SECS + 1;
    assert_eq!(validate_at(&token, &key, after), Err(ValidateError::Expired));
    // and authorization answers unauthorized
    let r = authorize(Some(&header), &store, &key, after);
    assert_eq!(r, Err(GateRejection::InvalidToken));
    assert_eq!(r.unwrap_err().status_code(), 401);
}
