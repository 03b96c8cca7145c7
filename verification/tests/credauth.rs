use credauth::auth::{login_user, register_user};
use credauth::errors::{AuthError, TokenFault};
use credauth::password::{hash_password, verify_password};
use credauth::store::{CreateUser, CredentialStore, LoginUser};
use credauth::token::{generate_token, issue_token_at, validate_token_at, Claims};

fn create(u: &str, e: &str, p: &str) -> CreateUser {
    CreateUser {
        username: u.to_string(),
        email: e.to_string(),
        password_hash: p.to_string(),
    }
}

fn login(e: &str, p: &str) -> LoginUser {
    LoginUser {
        email: e.to_string(),
        password_hash: p.to_string(),
    }
}

const SECRET: &[u8] = b"SECRET-REDACTED";

#[test]
fn hash_then_verify_roundtrip() {
    let h1 = hash_password("secret123").unwrap();
    let h2 = hash_password("secret123").unwrap();
    assert_ne!(h1, h2, "each call salts anew");
    assert!(h1.starts_with("$2"));
    assert_eq!(verify_password("secret123", &h1), Ok(true));
    assert_eq!(verify_password("secret123", &h2), Ok(true));
}

#[test]
fn verify_rejects_wrong_password() {
    let h = hash_password("secret123").unwrap();
    assert_eq!(verify_password("wrong", &h), Ok(false));
    assert_eq!(verify_password("", &h), Ok(false));
}

#[test]
fn verify_malformed_hash_errors() {
    assert_eq!(
        verify_password("anything", "not-a-bcrypt-hash"),
        Err(AuthError::HashingError)
    );
}

#[test]
fn register_then_login() {
    let mut store = CredentialStore::new();
    let user = register_user(&mut store, create("alice", "a@x.com", "secret123")).unwrap();
    assert_eq!(user.username, "alice");
    assert_eq!(user.email, "a@x.com");
    assert_ne!(user.password_hash, "secret123", "raw secret is never stored");
    let back = login_user(&store, login("a@x.com", "secret123")).unwrap();
    assert_eq!(back.id, user.id);
    assert_eq!(back.username, "alice");

    let bob = register_user(&mut store, create("bob", "b@x.com", "hunter2xyz")).unwrap();
    assert_ne!(bob.id, user.id, "ids are unique");
    assert_eq!(login_user(&store, login("b@x.com", "hunter2xyz")).unwrap().id, bob.id);
}

#[test]
fn duplicate_registration() {
    let mut store = CredentialStore::new();
    register_user(&mut store, create("alice", "a@x.com", "secret123")).unwrap();
    let second = register_user(&mut store, create("alice2", "a@x.com", "other456"));
    assert!(matches!(second, Err(AuthError::DuplicateIdentity)));
    // no partial record was left: the first credentials still work, the second never do
    assert!(login_user(&store, login("a@x.com", "secret123")).is_ok());
    assert!(matches!(
        login_user(&store, login("a@x.com", "other456")),
        Err(AuthError::InvalidCredentials)
    ));
}

#[test]
fn unknown_email_and_wrong_password_are_indistinguishable() {
    let mut store = CredentialStore::new();
    register_user(&mut store, create("alice", "a@x.com", "secret123")).unwrap();
    let absent = login_user(&store, login("nobody@x.com", "secret123"));
    let wrong = login_user(&store, login("a@x.com", "wrong"));
    assert!(matches!(absent, Err(AuthError::InvalidCredentials)));
    assert!(matches!(wrong, Err(AuthError::InvalidCredentials)));
    assert_eq!(absent.err(), wrong.err());
}

#[test]
fn token_roundtrip() {
    let token = issue_token_at(SECRET, 42, 1_000_000).unwrap();
    let claims = validate_token_at(SECRET, &token, 999_999).unwrap();
    assert_eq!(claims, Claims { sub: 42, exp: 1_000_000 });
}

#[test]
fn token_expired() {
    let token = issue_token_at(SECRET, 42, 1_000_000).unwrap();
    assert_eq!(
        validate_token_at(SECRET, &token, 1_000_000),
        Err(AuthError::TokenError(TokenFault::Expired))
    );
    assert_eq!(
        validate_token_at(SECRET, &token, 2_000_000),
        Err(AuthError::TokenError(TokenFault::Expired))
    );
}

#[test]
fn token_tampered_signature() {
    let token = issue_token_at(SECRET, 42, 1_000_000).unwrap();
    let mut forged = token.clone();
    let last = forged.pop().unwrap();
    forged.push(if last == 'A' { 'B' } else { 'A' });
    assert_eq!(
        validate_token_at(SECRET, &forged, 0),
        Err(AuthError::TokenError(TokenFault::Invalid))
    );
}

#[test]
fn token_tampered_payload() {
    let token = issue_token_at(SECRET, 42, 1_000_000).unwrap();
    let parts: Vec<&str> = token.split('.').collect();
    assert_eq!(parts.len(), 3);
    let other = issue_token_at(SECRET, 43, 1_000_000).unwrap();
    let other_parts: Vec<&str> = other.split('.').collect();
    let spliced = format!("{}.{}.{}", parts[0], other_parts[1], parts[2]);
    assert_eq!(
        validate_token_at(SECRET, &spliced, 0),
        Err(AuthError::TokenError(TokenFault::Invalid))
    );
}

#[test]
fn token_wrong_secret() {
    let token = issue_token_at(SECRET, 42, 1_000_000).unwrap();
    assert_eq!(
        validate_token_at(b"another-secret", &token, 0),
        Err(AuthError::TokenError(TokenFault::Invalid))
    );
}

#[test]
fn token_garbage_rejected() {
    for bad in ["", "garbage", "a.b", "a.b.c", "..", "...", "e30.e30.e30"] {
        assert_eq!(
            validate_token_at(SECRET, bad, 0),
            Err(AuthError::TokenError(TokenFault::Invalid)),
            "{bad:?} must be invalid"
        );
    }
}

#[test]
fn token_is_standard_jwt() {
    // the canonical base64url of {"alg":"HS256","typ":"JWT"}
    let token = generate_token(SECRET, 42).unwrap();
    assert!(token.starts_with("eyJhbGciOiJIUzI1NiIsInR5cCI6IkpXVCJ9."));
    // an independent JWT implementation accepts it and reads back the subject
    let validation = jsonwebtoken::Validation::new(jsonwebtoken::Algorithm::HS256);
    let decoded = jsonwebtoken::decode::<serde_json::Value>(
        &token,
        &jsonwebtoken::DecodingKey::from_secret(SECRET),
        &validation,
    )
    .expect("independent decoder accepts the token");
    assert_eq!(decoded.claims.get("sub").and_then(|v| v.as_u64()), Some(42));
}

#[test]
fn decimal_text_is_canonical() {
    assert_eq!(credauth::numeral::u128_to_dec(0), "0");
    assert_eq!(credauth::numeral::u128_to_dec(7), "7");
    assert_eq!(credauth::numeral::u128_to_dec(12345), "12345");
    assert_eq!(
        credauth::numeral::u128_to_dec(u128::MAX),
        "340282366920938463463374607431768211455"
    );
}

#[test]
fn scenario_alice() {
    let mut store = CredentialStore::new();
    let user = register_user(
        &mut store,
        create("alice", "a@x.com", "secret123"),
    )
    .unwrap();
    assert_eq!(user.username, "alice");
    assert_eq!(user.email, "a@x.com");

    let logged = login_user(&store, login("a@x.com", "secret123")).unwrap();
    let token = generate_token(SECRET, logged.id).unwrap();
    assert!(!token.is_empty());

    assert!(matches!(
        login_user(&store, login("a@x.com", "wrong")),
        Err(AuthError::InvalidCredentials)
    ));
    assert!(matches!(
        register_user(&mut store, create("alice", "a@x.com", "secret123")),
        Err(AuthError::DuplicateIdentity)
    ));
}

#[test]
fn error_descriptions() {
    assert_eq!(AuthError::InvalidCredentials.describe(), "invalid credentials");
    assert_eq!(
        AuthError::TokenError(TokenFault::Expired).describe(),
        "expired token"
    );
}
