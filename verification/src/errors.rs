//! The error taxonomy of the library.

use vstd::prelude::*;

verus! {

/// Why token validation or issuance failed.
#[derive(Clone, Copy, Debug, PartialEq, Eq, Structural)]
pub enum TokenFault {
    /// The token is not the signed encoding of any claims under this secret.
    Invalid,
    /// The token is well formed and correctly signed, but its expiration has passed.
    Expired,
    /// The signing backend itself failed.
    Failure,
}

/// Every failure an operation of this library can report.
#[derive(Clone, Copy, Debug, PartialEq, Eq, Structural)]
pub enum AuthError {
    /// Unknown email or wrong password: deliberately one indistinguishable kind.
    InvalidCredentials,
    /// A record with the same email already exists.
    DuplicateIdentity,
    /// The credential store failed for some other reason.
    StorageError,
    /// The password-hashing backend failed, or a stored hash is malformed.
    HashingError,
    /// Token issuance or validation failed; the fault says how.
    TokenError(TokenFault),
}

impl AuthError {
    /// A short human-readable description, since the type carries no `Display`.
    pub fn describe(&self) -> &'static str {
        match self {
            AuthError::InvalidCredentials => "invalid credentials",
            AuthError::DuplicateIdentity => "an account with this email already exists",
            AuthError::StorageError => "credential store failure",
            AuthError::HashingError => "password hashing failure",
            AuthError::TokenError(TokenFault::Invalid) => "invalid token",
            AuthError::TokenError(TokenFault::Expired) => "expired token",
            AuthError::TokenError(TokenFault::Failure) => "token signing failure",
        }
    }
}

} // verus!
