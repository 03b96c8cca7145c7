//! Password hashing and verification, built on the bcrypt algorithm.
//!
//! A hash embeds its own salt and cost, so whether a password verifies
//! against a given hash string is a function of the two strings alone;
//! `bcrypt_check_of` names that function. The salt itself is drawn fresh
//! on every hashing call, so nothing beyond its verification behaviour is
//! stated about the hash a call returns.

use vstd::prelude::*;
use crate::errors::AuthError;

verus! {

/// What bcrypt's verification returns for a password and a hash string:
/// `Some(b)` when the hash parses as a bcrypt hash and comparing yields `b`,
/// `None` when the hash is malformed and verification fails.
pub uninterp spec fn bcrypt_check_of(password: Seq<char>, hash: Seq<char>) -> Option<bool>;

/// Relies on bcrypt::hash at bcrypt::DEFAULT_COST: the returned string is a
/// well-formed bcrypt hash of this password under a fresh random salt, so
/// verification of this password against it yields true, and verification of
/// any password against it parses the hash and yields an answer.
#[verifier::external_body]
fn bcrypt_hash(password: &str) -> (r: Result<String, AuthError>)
    ensures
        r matches Ok(h) ==> bcrypt_check_of(password@, h@) == Some(true) && (forall|q: Seq<char>|
            (#[trigger] bcrypt_check_of(q, h@)) is Some),
        r matches Err(e) ==> e == AuthError::HashingError,
{
    match bcrypt::hash(password, bcrypt::DEFAULT_COST) {
        Ok(h) => Ok(h),
        Err(_) => Err(AuthError::HashingError),
    }
}

/// Relies on bcrypt::verify: it re-hashes the password with the salt and cost
/// embedded in the hash string and compares in constant time, a deterministic
/// function of the two strings; it fails exactly when the hash is malformed.
#[verifier::external_body]
fn bcrypt_verify(password: &str, hash: &str) -> (r: Result<bool, AuthError>)
    ensures
        r matches Ok(b) ==> bcrypt_check_of(password@, hash@) == Some(b),
        r matches Err(e) ==> e == AuthError::HashingError && bcrypt_check_of(password@, hash@)
            is None,
{
    match bcrypt::verify(password, hash) {
        Ok(b) => Ok(b),
        Err(_) => Err(AuthError::HashingError),
    }
}

/// Hashes a password with a deliberately slow, salted, one-way scheme.
/// On success the result verifies against the password it was made from.
pub fn hash_password(password: &str) -> (r: Result<String, AuthError>)
    ensures
        r matches Ok(h) ==> bcrypt_check_of(password@, h@) == Some(true) && (forall|q: Seq<char>|
            (#[trigger] bcrypt_check_of(q, h@)) is Some),
        r matches Err(e) ==> e == AuthError::HashingError,
{
    bcrypt_hash(password)
}

/// Recomputes the hash from the password with the salt and cost embedded in
/// `hashed_password` and compares. A malformed hash is an error, never a bool.
pub fn verify_password(password: &str, hashed_password: &str) -> (r: Result<bool, AuthError>)
    ensures
        r matches Ok(b) ==> bcrypt_check_of(password@, hashed_password@) == Some(b),
        r matches Err(e) ==> e == AuthError::HashingError && bcrypt_check_of(
            password@,
            hashed_password@,
        ) is None,
{
    bcrypt_verify(password, hashed_password)
}

} // verus!
