//! A small authentication core: credential checking against bcrypt hashes,
//! issuing and validating signed time-bounded identity tokens, and a
//! bearer-token authorization gate, together with the user records they act on.
pub mod auth;
pub mod b64;
pub mod claims;
pub mod token;
pub mod user;
pub mod escape;
