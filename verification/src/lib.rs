//! A minimal credential-management library: registration, login,
//! password hashing, and signed, time-bounded bearer tokens.

pub mod auth;
pub mod clock;
pub mod errors;
pub mod numeral;
pub mod password;
pub mod store;
pub mod token;
