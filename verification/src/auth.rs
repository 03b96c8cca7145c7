//! The auth engine: stateless mediation between raw credentials and the
//! credential store.

use vstd::prelude::*;
use crate::clock::now_clamped;
use crate::errors::AuthError;
use crate::password::{bcrypt_check_of, hash_password, verify_password};
use crate::store::{
    contains_email, emails_unique, lemma_record_for_is, record_for, CreateUser, CredentialStore,
    LoginUser, User, UserView,
};

verus! {

/// Hashes the supplied secret and asks the store to persist a new record.
/// A duplicate email fails with `DuplicateIdentity` and leaves no partial
/// record; a fresh email is owed success unless the hashing backend fails.
pub fn register_user(store: &mut CredentialStore, new_user: CreateUser) -> (r: Result<
    User,
    AuthError,
>)
    requires
        old(store).wf(),
    ensures
        final(store).wf(),
        r matches Ok(u) ==> !contains_email(old(store).records(), new_user.email@) && u@.username
            == new_user.username@ && u@.email == new_user.email@ && bcrypt_check_of(
            new_user.password_hash@,
            u@.password_hash,
        ) == Some(true) && (forall|q: Seq<char>|
            (#[trigger] bcrypt_check_of(q, u@.password_hash)) is Some) && u@.created_at
            == u@.updated_at && final(store).records() == old(store).records().push(u@),
        r matches Err(e) ==> final(store).records() == old(store).records() && (e
            == AuthError::DuplicateIdentity || e == AuthError::HashingError),
        r == Err::<User, AuthError>(AuthError::DuplicateIdentity) ==> contains_email(
            old(store).records(),
            new_user.email@,
        ),
        contains_email(old(store).records(), new_user.email@) ==> r is Err,
{
    let hashed = match hash_password(new_user.password_hash.as_str()) {
        Ok(h) => h,
        Err(e) => {
            return Err(e);
        },
    };
    let now = now_clamped();
    store.insert_user(new_user.username, new_user.email, hashed, now)
}

/// Looks the record up by email and verifies the password against its hash.
/// An unknown email and a wrong password fail with the same
/// `InvalidCredentials`, indistinguishable to the caller.
pub fn login_user(store: &CredentialStore, login: LoginUser) -> (r: Result<User, AuthError>)
    requires
        store.wf(),
    ensures
        !contains_email(store.records(), login.email@) ==> r == Err::<User, AuthError>(
            AuthError::InvalidCredentials,
        ),
        contains_email(store.records(), login.email@) ==> ({
            let rec = record_for(store.records(), login.email@);
            let chk = bcrypt_check_of(login.password_hash@, rec.password_hash);
            &&& (r matches Ok(u) ==> u@ == rec && chk == Some(true))
            &&& (chk == Some(true) ==> r is Ok)
            &&& (chk == Some(false) ==> r == Err::<User, AuthError>(AuthError::InvalidCredentials))
            &&& (chk is None ==> r == Err::<User, AuthError>(AuthError::HashingError))
        }),
{
    match store.find_user_by_email(login.email.as_str()) {
        None => Err(AuthError::InvalidCredentials),
        Some(u) => {
            match verify_password(login.password_hash.as_str(), u.password_hash.as_str()) {
                Err(e) => Err(e),
                Ok(true) => Ok(u.duplicate()),
                Ok(false) => Err(AuthError::InvalidCredentials),
            }
        },
    }
}

/// After a registration appended a record with a fresh email, the store's
/// record for that email is exactly the appended one, and the registered
/// password still verifies against its stored hash: by `login_user`'s
/// contract, authenticating with the same credentials then succeeds.
pub proof fn lemma_register_then_login(pre: Seq<UserView>, u: UserView, password: Seq<char>)
    requires
        emails_unique(pre),
        !contains_email(pre, u.email),
        bcrypt_check_of(password, u.password_hash) == Some(true),
    ensures
        contains_email(pre.push(u), u.email),
        record_for(pre.push(u), u.email) == u,
        bcrypt_check_of(password, record_for(pre.push(u), u.email).password_hash) == Some(true),
{
    let post = pre.push(u);
    assert forall|i: int, j: int|
        0 <= i < j < post.len() implies (#[trigger] post[i].email) != (
    #[trigger] post[j].email) by {
        if j < pre.len() {
            assert(post[i] == pre[i] && post[j] == pre[j]);
        } else {
            assert(post[j] == u);
            assert(post[i] == pre[i]);
        }
    }
    lemma_record_for_is(post, u.email, pre.len() as int);
}

} // verus!
