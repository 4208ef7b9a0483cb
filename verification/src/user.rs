//! User records: the registration input with its plaintext password, the
//! stored record with its bcrypt hash, registration itself, and an in-memory
//! user store that serves as the lookup collaborator.
use vstd::prelude::*;
use vstd::string::StringExecFns;
use crate::token::str_eq;

verus! {

/// What bcrypt's `verify` answers for a password against a stored hash:
/// `Some(true)` on a match, `Some(false)` on a mismatch, `None` for a hash
/// it cannot parse. Named, not spelled out: the contracts only relate
/// hashing and verification through it.
pub uninterp spec fn bcrypt_check(password: Seq<char>, hash: Seq<char>) -> Option<bool>;

pub open spec fn credential_matches(password: Seq<char>, hash: Seq<char>) -> bool {
    bcrypt_check(password, hash) == Some(true)
}

pub open spec fn credential_rejected(password: Seq<char>, hash: Seq<char>) -> bool {
    bcrypt_check(password, hash) == Some(false)
}

pub open spec fn credential_fault(password: Seq<char>, hash: Seq<char>) -> bool {
    bcrypt_check(password, hash) is None
}

/// Checks a password against a stored hash.
///
/// Relies on `bcrypt::verify`: its source re-derives the hash from the
/// password and the salt carried inside `hash` and compares in constant
/// time — a deterministic function of the two arguments — and errs exactly
/// when the stored hash cannot be parsed.
#[verifier::external_body]
fn bcrypt_verify_wrap(password: &str, hash: &str) -> (r: Option<bool>)
    ensures
        r == bcrypt_check(password@, hash@),
{
    match bcrypt::verify(password, hash) {
        Ok(b) => Some(b),
        Err(_) => None,
    }
}

/// Hashes a password with a fresh random salt.
///
/// Relies on `bcrypt::hash`: the salt is drawn from the operating system, so
/// nothing pins the result — but its source embeds the salt in the returned
/// hash, and `bcrypt::verify` re-derives from it, so every hash it returns
/// verifies against the password it was made from. It errs only when no
/// randomness could be drawn; the cost must lie in the range its source
/// accepts.
#[verifier::external_body]
fn bcrypt_hash_wrap(password: &str, cost: u32) -> (r: Option<String>)
    requires
        4 <= cost <= 31,
    ensures
        r matches Some(h) ==> bcrypt_check(password@, h@) == Some(true),
{
    match bcrypt::hash(password, cost) {
        Ok(h) => Some(h),
        Err(_) => None,
    }
}

/// The bcrypt cost registration hashes with.
pub const BCRYPT_COST: u32 = 12;

/// The credential verifier could not interpret the stored hash: a server
/// fault, not a wrong password.
#[derive(Clone, Copy, Debug, PartialEq, Eq, Structural)]
pub enum CredentialError {
    MalformedHash,
}

/// The credential verifier: whether the plaintext password matches the
/// stored salted hash, failing distinctly on a hash it cannot read.
pub fn verify_credential(password: &str, hash: &str) -> (r: Result<bool, CredentialError>)
    ensures
        match bcrypt_check(password@, hash@) {
            Some(b) => r == Ok::<bool, CredentialError>(b),
            None => r == Err::<bool, CredentialError>(CredentialError::MalformedHash),
        },
{
    match bcrypt_verify_wrap(password, hash) {
        Some(b) => Ok(b),
        None => Err(CredentialError::MalformedHash),
    }
}

/// A registration request: names, email, and the plaintext password, which
/// registration moves out through `take_password` before the record goes on.
pub struct User {
    pub email: String,
    pub first_name: String,
    pub last_name: String,
    pub password: String,
}

impl User {
    pub open spec fn spec_password(&self) -> Seq<char> {
        self.password@
    }

    pub fn new(email: String, first_name: String, last_name: String, password: String) -> (r:
        Self)
        ensures
            r.email == email,
            r.first_name == first_name,
            r.last_name == last_name,
            r.spec_password() == password@,
    {
        Self { email, first_name, last_name, password }
    }

    /// Moves the password out, leaving the record with an empty one.
    pub fn take_password(&mut self) -> (r: String)
        ensures
            r@ == old(self).spec_password(),
            final(self).spec_password() == Seq::<char>::empty(),
            final(self).email == old(self).email,
            final(self).first_name == old(self).first_name,
            final(self).last_name == old(self).last_name,
    {
        let r = self.password.clone();
        self.password = String::new();
        r
    }
}

/// A stored user record: email, display name, and the bcrypt hash of the
/// password. This is what lookup yields and what a request carries as its
/// authenticated identity.
#[derive(Debug)]
pub struct UserOut {
    pub email: String,
    pub username: String,
    pub hash_password: String,
}

impl PartialEq for UserOut {
    fn eq(&self, other: &UserOut) -> (r: bool)
    {
        self.email == other.email && self.username == other.username && self.hash_password
            == other.hash_password
    }
}

impl vstd::std_specs::cmp::PartialEqSpecImpl for UserOut {
    open spec fn obeys_eq_spec() -> bool {
        true
    }

    open spec fn eq_spec(&self, other: &UserOut) -> bool {
        self.email@ == other.email@ && self.username@ == other.username@ && self.hash_password@
            == other.hash_password@
    }
}

impl Clone for UserOut {
    fn clone(&self) -> (r: Self)
        ensures
            r == *self,
    {
        UserOut {
            email: self.email.clone(),
            username: self.username.clone(),
            hash_password: self.hash_password.clone(),
        }
    }
}

impl UserOut {
    /// The outward record of a registration request: the display name is the
    /// first and last name joined by a plus sign, and no hash is set yet.
    pub fn from_user(user: User) -> (r: UserOut)
        ensures
            r.email == user.email,
            r.username@ == user.first_name@ + "+"@ + user.last_name@,
            r.hash_password@ == Seq::<char>::empty(),
    {
        let mut username = user.first_name;
        username.append("+");
        username.append(user.last_name.as_str());
        UserOut { email: user.email, username, hash_password: String::new() }
    }

    /// The same record with the bcrypt hash of the given password set;
    /// `None` when no hash could be drawn.
    pub fn add_hash_password(self, password: String) -> (r: Option<UserOut>)
        ensures
            r matches Some(u) ==> u.email == self.email && u.username == self.username
                && credential_matches(password@, u.hash_password@),
    {
        match bcrypt_hash_wrap(password.as_str(), BCRYPT_COST) {
            Some(h) => Some(UserOut { email: self.email, username: self.username, hash_password: h }),
            None => None,
        }
    }
}

/// Why a registration request was refused.
#[derive(Clone, Copy, Debug, PartialEq, Eq, Structural)]
pub enum RegisterError {
    /// The request carried no password: a client error.
    EmptyPassword,
    /// No hash could be produced: a server fault.
    HashFault,
}

/// Registration: an empty password is refused; otherwise the stored record
/// is built, with a hash that verifies against the submitted password.
pub fn register(user: User) -> (r: Result<UserOut, RegisterError>)
    ensures
        user.spec_password().len() == 0 <==> r == Err::<UserOut, RegisterError>(
            RegisterError::EmptyPassword,
        ),
        r matches Ok(u) ==> u.email == user.email && u.username@ == user.first_name@ + "+"@
            + user.last_name@ && credential_matches(user.spec_password(), u.hash_password@),
{
    let mut user = user;
    if user.password.as_str().is_empty() {
        return Err(RegisterError::EmptyPassword);
    }
    let password = user.take_password();
    let user_out = UserOut::from_user(user);
    match user_out.add_hash_password(password) {
        Some(u) => Ok(u),
        None => Err(RegisterError::HashFault),
    }
}

/// First record whose email equals the one looked up.
pub open spec fn spec_find(users: Seq<UserOut>, email: Seq<char>) -> Option<UserOut>
    decreases users.len(),
{
    if users.len() == 0 {
        None
    } else if users[0].email@ == email {
        Some(users[0])
    } else {
        spec_find(users.skip(1), email)
    }
}

/// A found record carries the email it was found by.
pub proof fn lemma_spec_find_found(users: Seq<UserOut>, email: Seq<char>)
    requires
        spec_find(users, email) is Some,
    ensures
        spec_find(users, email).unwrap().email@ == email,
    decreases users.len(),
{
    if users.len() > 0 && users[0].email@ != email {
        lemma_spec_find_found(users.skip(1), email);
    }
}

/// The in-memory user store: the static variant of the lookup collaborator,
/// also what the tests and the sign-in flow exercise end to end.
pub struct UserStore {
    pub users: Vec<UserOut>,
}

impl UserStore {
    pub fn new() -> (r: Self)
        ensures
            r.users@ == Seq::<UserOut>::empty(),
    {
        UserStore { users: Vec::new() }
    }

    pub fn insert(&mut self, u: UserOut)
        ensures
            final(self).users@ == old(self).users@.push(u),
    {
        self.users.push(u);
    }

    /// Looks a record up by email: `None` rather than a failure when there
    /// is no such record.
    pub fn find(&self, email: &str) -> (r: Option<UserOut>)
        ensures
            r == spec_find(self.users@, email@),
    {
        let n = self.users.len();
        let mut i: usize = 0;
        proof {
            assert(self.users@.skip(0) =~= self.users@);
        }
        while i < n
            invariant
                i <= n,
                n == self.users@.len(),
                spec_find(self.users@, email@) == spec_find(self.users@.skip(i as int), email@),
            decreases n - i,
        {
            proof {
                assert(self.users@.skip(i as int)[0] == self.users@[i as int]);
                assert(self.users@.skip(i as int).skip(1) =~= self.users@.skip(i as int + 1));
            }
            if str_eq(self.users[i].email.as_str(), email) {
                return Some(self.users[i].clone());
            }
            i = i + 1;
        }
        proof {
            assert(self.users@.skip(n as int) =~= Seq::<UserOut>::empty());
        }
        None
    }
}

} // verus!
