//! Sign-in and the authorization gate: checking a credential against the
//! user store, minting a token for the subject, and admitting or rejecting
//! a request by the bearer token it carries.
use vstd::prelude::*;
use vstd::string::StrSliceExecFns;
use vstd::string::StringExecFns;
use crate::claims::lit_at;
use crate::claims::starts_with;
use crate::token::issue_checked;
use crate::token::now_seconds;
use crate::token::signature_clean;
use crate::token::spec_message;
use crate::token::spec_token;
use crate::token::spec_validate;
use crate::token::validate_at;
use crate::token::ValidateError;
use crate::user::bcrypt_check;
use crate::user::credential_fault;
use crate::user::credential_matches;
use crate::user::credential_rejected;
use crate::user::lemma_spec_find_found;
use crate::user::spec_find;
use crate::user::verify_credential;
use crate::user::CredentialError;
use crate::user::UserOut;
use crate::user::UserStore;

verus! {

/// The fixed validity window of an issued token, in seconds: one day.
pub const TOKEN_VALIDITY_SECS: usize = 86400;

/// The payload embedded in a token: expiry and issued-at timestamps in
/// seconds, and the subject email.
#[derive(Debug)]
pub struct Claims {
    pub exp: usize,
    pub iat: usize,
    pub email: String,
}

impl PartialEq for Claims {
    fn eq(&self, other: &Claims) -> (r: bool)
    {
        self.exp == other.exp && self.iat == other.iat && self.email == other.email
    }
}

impl vstd::std_specs::cmp::PartialEqSpecImpl for Claims {
    open spec fn obeys_eq_spec() -> bool {
        true
    }

    open spec fn eq_spec(&self, other: &Claims) -> bool {
        self.exp == other.exp && self.iat == other.iat && self.email@ == other.email@
    }
}

impl Claims {
    pub fn new(exp: usize, iat: usize, email: String) -> (r: Self)
        ensures
            r.exp == exp,
            r.iat == iat,
            r.email == email,
    {
        Self { exp, iat, email }
    }
}

/// The body of a sign-in request: the subject email and the plaintext
/// password to check.
pub struct SignInData {
    pub email: String,
    pub password: String,
}

/// Why sign-in refused: the caller is told no more than which of the two
/// classes it was. An unknown email and a wrong password both come back as
/// `Unauthorized`, indistinguishably.
#[derive(Clone, Copy, Debug, PartialEq, Eq, Structural)]
pub enum SignInError {
    Unauthorized,
    ServerFault,
}

/// The sign-in decision: look the email up, check the password against the
/// stored hash, and on success mint the token for the stored record's email,
/// issued at `now` and expiring a window later. A lookup miss and a password
/// mismatch yield the same error; only faults of the machinery — an
/// unreadable hash, an expiry out of the machine range — are the server's.
pub open spec fn spec_sign_in(
    users: Seq<UserOut>,
    email: Seq<char>,
    password: Seq<char>,
    secret: Seq<u8>,
    now: nat,
    window: nat,
) -> Result<Seq<char>, SignInError> {
    match spec_find(users, email) {
        None => Err(SignInError::Unauthorized),
        Some(u) => match bcrypt_check(password, u.hash_password@) {
            None => Err(SignInError::ServerFault),
            Some(false) => Err(SignInError::Unauthorized),
            Some(true) => {
                if window < 1 || now + window > usize::MAX {
                    Err(SignInError::ServerFault)
                } else {
                    Ok(spec_token(u.email@, (now + window) as nat, now, secret))
                }
            },
        },
    }
}

/// Sign-in against a stored credential succeeds, and the token it returns
/// validates at issue time with the subject equal to the email signed in
/// with.
pub proof fn lemma_sign_in_success(
    users: Seq<UserOut>,
    email: Seq<char>,
    password: Seq<char>,
    secret: Seq<u8>,
    now: nat,
    window: nat,
)
    requires
        spec_find(users, email) is Some,
        credential_matches(password, spec_find(users, email).unwrap().hash_password@),
        1 <= window,
        now + window <= usize::MAX,
        signature_clean(spec_message(email, (now + window) as nat, now), secret),
    ensures
        spec_sign_in(users, email, password, secret, now, window) == Ok::<Seq<char>, SignInError>(
            spec_token(email, (now + window) as nat, now, secret),
        ),
        spec_validate(spec_token(email, (now + window) as nat, now, secret), secret, now) == Ok::<
            (Seq<char>, nat, nat),
            ValidateError,
        >((email, (now + window) as nat, now)),
{
    lemma_spec_find_found(users, email);
    crate::token::lemma_issued_token_validates(email, secret, (now + window) as nat, now, now);
}

/// An email absent from the store and a present email with a wrong password
/// refuse sign-in with one and the same value: the two cases cannot be told
/// apart by the caller.
pub proof fn lemma_sign_in_unauthorized_alike(
    users1: Seq<UserOut>,
    email1: Seq<char>,
    password1: Seq<char>,
    users2: Seq<UserOut>,
    email2: Seq<char>,
    password2: Seq<char>,
    secret: Seq<u8>,
    now: nat,
    window: nat,
)
    requires
        spec_find(users1, email1) is None,
        spec_find(users2, email2) is Some,
        credential_rejected(password2, spec_find(users2, email2).unwrap().hash_password@),
    ensures
        spec_sign_in(users1, email1, password1, secret, now, window) == Err::<
            Seq<char>,
            SignInError,
        >(SignInError::Unauthorized),
        spec_sign_in(users2, email2, password2, secret, now, window) == Err::<
            Seq<char>,
            SignInError,
        >(SignInError::Unauthorized),
        spec_sign_in(users1, email1, password1, secret, now, window) == spec_sign_in(
            users2,
            email2,
            password2,
            secret,
            now,
            window,
        ),
{
}

/// Sign-in at an explicit time: exactly the decision of `spec_sign_in`, and
/// a returned token validates at once, naming the email as its subject.
pub fn sign_in_at(
    store: &UserStore,
    email: &str,
    password: &str,
    secret: &Vec<u8>,
    now: usize,
    window: usize,
) -> (r: Result<String, SignInError>)
    ensures
        match spec_sign_in(store.users@, email@, password@, secret@, now as nat, window as nat) {
            Ok(t) => r matches Ok(tok) && tok@ == t,
            Err(e) => (r matches Err(e2) && e2 == e),
        },
        r matches Ok(tok) ==> spec_validate(tok@, secret@, now as nat) == Ok::<
            (Seq<char>, nat, nat),
            ValidateError,
        >((email@, (now + window) as nat, now as nat)),
{
    let found = match store.find(email) {
        Some(u) => u,
        None => {
            return Err(SignInError::Unauthorized);
        },
    };
    match verify_credential(password, found.hash_password.as_str()) {
        Err(CredentialError::MalformedHash) => Err(SignInError::ServerFault),
        Ok(false) => Err(SignInError::Unauthorized),
        Ok(true) => {
            match issue_checked(found.email.as_str(), secret, now, window) {
                Some(tok) => {
                    proof {
                        lemma_spec_find_found(store.users@, email@);
                        lemma_sign_in_success(
                            store.users@,
                            email@,
                            password@,
                            secret@,
                            now as nat,
                            window as nat,
                        );
                    }
                    Ok(tok)
                },
                None => Err(SignInError::ServerFault),
            }
        },
    }
}

/// Sign-in at the current time. Whatever the clock read: an email absent
/// from the store, a wrong password, and an unreadable hash each decide on
/// their own, and the whole result — token or error — is exactly what the
/// decision spec yields for some issue time.
pub fn sign_in(store: &UserStore, data: &SignInData, secret: &Vec<u8>, window: usize) -> (r:
    Result<String, SignInError>)
    ensures
        spec_find(store.users@, data.email@) is None ==> r == Err::<String, SignInError>(
            SignInError::Unauthorized,
        ),
        (spec_find(store.users@, data.email@) matches Some(u) && credential_rejected(
            data.password@,
            u.hash_password@,
        )) ==> r == Err::<String, SignInError>(SignInError::Unauthorized),
        (spec_find(store.users@, data.email@) matches Some(u) && credential_fault(
            data.password@,
            u.hash_password@,
        )) ==> r == Err::<String, SignInError>(SignInError::ServerFault),
        exists|t: nat|
            #[trigger] spec_sign_in(
                store.users@,
                data.email@,
                data.password@,
                secret@,
                t,
                window as nat,
            ) == (match r {
                Ok(tok) => Ok::<Seq<char>, SignInError>(tok@),
                Err(e) => Err::<Seq<char>, SignInError>(e),
            }),
{
    let now = now_seconds();
    let r = sign_in_at(store, data.email.as_str(), data.password.as_str(), secret, now, window);
    proof {
        assert(spec_sign_in(
            store.users@,
            data.email@,
            data.password@,
            secret@,
            now as nat,
            window as nat,
        ) == (match r {
            Ok(tok) => Ok::<Seq<char>, SignInError>(tok@),
            Err(e) => Err::<Seq<char>, SignInError>(e),
        }));
    }
    r
}

/// Why authorization refused a request. The first two come of the header alone
/// and answer with a forbidden status; the last two answer unauthorized,
/// and say nothing of what inside the token or the store was amiss.
#[derive(Clone, Copy, Debug, PartialEq, Eq, Structural)]
pub enum GateRejection {
    MissingToken,
    MalformedHeader,
    InvalidToken,
    UnknownSubject,
}

impl GateRejection {
    /// The HTTP status this rejection answers with.
    pub fn status_code(&self) -> (r: u16)
        ensures
            *self == GateRejection::MissingToken ==> r == 403,
            *self == GateRejection::MalformedHeader ==> r == 403,
            *self == GateRejection::InvalidToken ==> r == 401,
            *self == GateRejection::UnknownSubject ==> r == 401,
    {
        match self {
            GateRejection::MissingToken => 403,
            GateRejection::MalformedHeader => 403,
            GateRejection::InvalidToken => 401,
            GateRejection::UnknownSubject => 401,
        }
    }

    /// The short plain-text body of the answer.
    pub fn message(&self) -> (r: &'static str)
        ensures
            *self == GateRejection::MissingToken ==> r@ == "forbidden, missing token"@,
            *self == GateRejection::MalformedHeader ==> r@ == "forbidden, malformed header"@,
            *self == GateRejection::InvalidToken ==> r@ == "unauthorized, invalid token"@,
            *self == GateRejection::UnknownSubject ==> r@ == "unauthorized, unknown subject"@,
    {
        match self {
            GateRejection::MissingToken => "forbidden, missing token",
            GateRejection::MalformedHeader => "forbidden, malformed header",
            GateRejection::InvalidToken => "unauthorized, invalid token",
            GateRejection::UnknownSubject => "unauthorized, unknown subject",
        }
    }
}

/// The token of an `Authorization` header value: the text after a literal
/// `Bearer ` scheme, which must be nonempty and free of spaces. Anything
/// else is a malformed header.
pub open spec fn spec_bearer(h: Seq<char>) -> Option<Seq<char>> {
    let p = "Bearer "@;
    if starts_with(h, p) && h.len() > p.len() && (forall|j: int|
        p.len() <= j < h.len() ==> h[j] != ' ') {
        Some(h.skip(p.len() as int))
    } else {
        None
    }
}

/// Pulls the bearer token out of a header value, exactly as `spec_bearer`.
pub fn extract_bearer(header: &str) -> (r: Option<String>)
    ensures
        match spec_bearer(header@) {
            Some(t) => r matches Some(tok) && tok@ == t,
            None => r is None,
        },
{
    let n = header.unicode_len();
    let scheme = "Bearer ";
    proof {
        assert(header@.skip(0) =~= header@);
    }
    if !lit_at(header, 0, scheme) {
        return None;
    }
    let plen = scheme.unicode_len();
    if n <= plen {
        return None;
    }
    let mut j: usize = plen;
    while j < n
        invariant
            plen <= j <= n,
            n == header@.len(),
            plen == "Bearer "@.len(),
            forall|k: int| plen <= k < j ==> header@[k] != ' ',
        decreases n - j,
    {
        if header.get_char(j) == ' ' {
            return None;
        }
        j = j + 1;
    }
    let tok = header.substring_char(plen, n);
    proof {
        assert(tok@ =~= header@.skip(plen as int));
    }
    Some(String::from_str(tok))
}

/// The authorization decision over one request: extract the bearer token, validate
/// it, resolve the subject in the store, and hand the identity on — or
/// refuse, each stage with its own rejection.
pub open spec fn spec_authorize(
    header: Option<Seq<char>>,
    users: Seq<UserOut>,
    secret: Seq<u8>,
    now: nat,
) -> Result<UserOut, GateRejection> {
    match header {
        None => Err(GateRejection::MissingToken),
        Some(h) => match spec_bearer(h) {
            None => Err(GateRejection::MalformedHeader),
            Some(tok) => match spec_validate(tok, secret, now) {
                Err(_) => Err(GateRejection::InvalidToken),
                Ok(t) => match spec_find(users, t.0) {
                    None => Err(GateRejection::UnknownSubject),
                    Some(u) => Ok(u),
                },
            },
        },
    }
}

/// The authorization gate at an explicit time: exactly the decision of
/// `spec_authorize`. A missing header and a header without a well-formed
/// bearer token are refused outright; a token the validator rejects, for
/// whatever reason, and a subject the store does not know are refused
/// without saying which inner check failed.
pub fn authorize(header: Option<&str>, store: &UserStore, secret: &Vec<u8>, now: usize) -> (r:
    Result<UserOut, GateRejection>)
    ensures
        r == spec_authorize(
            match header {
                Some(h) => Some(h@),
                None => None,
            },
            store.users@,
            secret@,
            now as nat,
        ),
{
    let h = match header {
        Some(h) => h,
        None => {
            return Err(GateRejection::MissingToken);
        },
    };
    let tok = match extract_bearer(h) {
        Some(t) => t,
        None => {
            return Err(GateRejection::MalformedHeader);
        },
    };
    let claims = match validate_at(tok.as_str(), secret, now) {
        Ok(c) => c,
        Err(_) => {
            return Err(GateRejection::InvalidToken);
        },
    };
    match store.find(claims.email.as_str()) {
        Some(u) => Ok(u),
        None => Err(GateRejection::UnknownSubject),
    }
}

} // verus!
