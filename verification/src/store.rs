//! The credential store: durable user records, looked up by email,
//! with email uniqueness as its central invariant.

use vstd::prelude::*;
use crate::errors::AuthError;

verus! {

/// A durable user record.
pub struct User {
    pub id: u128,
    pub username: String,
    pub email: String,
    pub password_hash: String,
    pub created_at: u64,
    pub updated_at: u64,
}

/// The mathematical value of a record.
pub struct UserView {
    pub id: u128,
    pub username: Seq<char>,
    pub email: Seq<char>,
    pub password_hash: Seq<char>,
    pub created_at: u64,
    pub updated_at: u64,
}

impl View for User {
    type V = UserView;

    open spec fn view(&self) -> UserView {
        UserView {
            id: self.id,
            username: self.username@,
            email: self.email@,
            password_hash: self.password_hash@,
            created_at: self.created_at,
            updated_at: self.updated_at,
        }
    }
}

impl User {
    /// An owned copy. (A derived `Clone` would say nothing to the verifier.)
    pub fn duplicate(&self) -> (r: User)
        ensures
            r@ == self@,
    {
        let r = User {
            id: self.id,
            username: String::from_str(self.username.as_str()),
            email: String::from_str(self.email.as_str()),
            password_hash: String::from_str(self.password_hash.as_str()),
            created_at: self.created_at,
            updated_at: self.updated_at,
        };
        assert(r@ == self@);
        r
    }
}

/// Registration input. The raw secret rides in `password_hash` until the
/// engine hashes it; a stored record never holds it.
pub struct CreateUser {
    pub username: String,
    pub email: String,
    pub password_hash: String,
}

/// Login input. As in registration, `password_hash` carries the raw secret.
pub struct LoginUser {
    pub email: String,
    pub password_hash: String,
}

/// Some record in `users` carries this email.
pub open spec fn contains_email(users: Seq<UserView>, email: Seq<char>) -> bool {
    exists|i: int| 0 <= i < users.len() && users[i].email == email
}

/// No two records share an email.
pub open spec fn emails_unique(users: Seq<UserView>) -> bool {
    forall|i: int, j: int|
        0 <= i < j < users.len() ==> (#[trigger] users[i].email) != (#[trigger] users[j].email)
}

/// The record that carries this email; meaningful when `contains_email` holds
/// and emails are unique.
pub open spec fn record_for(users: Seq<UserView>, email: Seq<char>) -> UserView {
    users[choose|i: int| 0 <= i < users.len() && users[i].email == email]
}

/// Under email uniqueness, any record with the email is the record for it.
pub proof fn lemma_record_for_is(users: Seq<UserView>, email: Seq<char>, i: int)
    requires
        emails_unique(users),
        0 <= i < users.len(),
        users[i].email == email,
    ensures
        contains_email(users, email),
        record_for(users, email) == users[i],
{
    let j = choose|j: int| 0 <= j < users.len() && users[j].email == email;
    assert(0 <= j < users.len() && users[j].email == email);
    if i != j {
        assert(users[i].email != users[j].email);
    }
}

/// The credential store. Records are only ever created, never mutated or
/// deleted; the store enforces email uniqueness on creation.
pub struct CredentialStore {
    users: Vec<User>,
}

impl CredentialStore {
    /// The records the store holds, in creation order.
    pub closed spec fn records(&self) -> Seq<UserView> {
        self.users@.map_values(|u: User| u@)
    }

    /// Well-formedness: emails unique, and each record's id is its position.
    pub open spec fn wf(&self) -> bool {
        &&& emails_unique(self.records())
        &&& forall|i: int|
            0 <= i < self.records().len() ==> (#[trigger] self.records()[i].id) == i as u128
    }

    /// An empty store.
    pub fn new() -> (s: CredentialStore)
        ensures
            s.wf(),
            s.records().len() == 0,
    {
        let s = CredentialStore { users: Vec::new() };
        assert(s.records() =~= Seq::<UserView>::empty());
        s
    }

    /// The position of the record carrying `email`, scanning from the front.
    fn position_of_email(&self, email: &str) -> (r: Option<usize>)
        ensures
            r matches Some(i) ==> 0 <= i < self.records().len() && self.records()[i as int].email
                == email@,
            r is None ==> !contains_email(self.records(), email@),
    {
        let n = self.users.len();
        let mut i: usize = 0;
        while i < n
            invariant
                0 <= i <= n,
                n == self.users.len(),
                forall|j: int| 0 <= j < i ==> (#[trigger] self.records()[j].email) != email@,
            decreases n - i,
        {
            if crate::numeral::str_eq(self.users[i].email.as_str(), email) {
                assert(self.records()[i as int].email == email@);
                return Some(i);
            }
            i = i + 1;
        }
        None
    }

    /// Looks a record up by its email.
    pub fn find_user_by_email<'a>(&'a self, email: &str) -> (r: Option<&'a User>)
        requires
            self.wf(),
        ensures
            r matches Some(u) ==> contains_email(self.records(), email@) && u@ == record_for(
                self.records(),
                email@,
            ),
            r is None ==> !contains_email(self.records(), email@),
    {
        match self.position_of_email(email) {
            Some(i) => {
                proof {
                    lemma_record_for_is(self.records(), email@, i as int);
                }
                Some(&self.users[i])
            },
            None => None,
        }
    }

    /// Atomic create-if-absent on the email. A duplicate email leaves the
    /// store exactly as it was; otherwise one record is appended, its id
    /// fresh, its timestamps both `now`.
    pub fn insert_user(&mut self, username: String, email: String, password_hash: String, now: u64) -> (r:
        Result<User, AuthError>)
        requires
            old(self).wf(),
        ensures
            final(self).wf(),
            contains_email(old(self).records(), email@) ==> r == Err::<User, AuthError>(
                AuthError::DuplicateIdentity,
            ) && final(self).records() == old(self).records(),
            !contains_email(old(self).records(), email@) ==> (r matches Ok(u) && u@.username
                == username@ && u@.email == email@ && u@.password_hash == password_hash@
                && u@.created_at == now && u@.updated_at == now && u@.id == old(
                self,
            ).records().len() && final(self).records() == old(self).records().push(u@)),
    {
        match self.position_of_email(email.as_str()) {
            Some(_) => Err(AuthError::DuplicateIdentity),
            None => {
                let id: u128 = self.users.len() as u128;
                let record = User {
                    id,
                    username,
                    email,
                    password_hash,
                    created_at: now,
                    updated_at: now,
                };
                let out = record.duplicate();
                self.users.push(record);
                proof {
                    assert(self.records() =~= old(self).records().push(out@));
                    assert forall|i: int, j: int|
                        0 <= i < j < self.records().len() implies (
                    #[trigger] self.records()[i].email) != (#[trigger] self.records()[j].email) by {
                        if j < old(self).records().len() {
                        } else {
                            assert(self.records()[j].email == email@);
                            assert(self.records()[i] == old(self).records()[i]);
                        }
                    }
                }
                Ok(out)
            },
        }
    }
}

} // verus!
