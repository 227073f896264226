//! The data carried by the authentication subsystem: roles, signed claims,
//! and user records.
use vstd::prelude::*;

verus! {

/// Authorization level carried inside a signed token. Exact-match only:
/// no hierarchy between the two roles is assumed anywhere in this crate.
#[derive(Clone, Copy, Debug, PartialEq, Eq, Structural)]
pub enum UserRole {
    User,
    Admin,
}

impl UserRole {
    pub fn is_admin(&self) -> (r: bool)
        ensures
            r == (*self == UserRole::Admin),
    {
        matches!(self, UserRole::Admin)
    }

    pub fn is_user(&self) -> (r: bool)
        ensures
            r == (*self == UserRole::User),
    {
        matches!(self, UserRole::User)
    }
}

/// The payload of a signed token: subject identity, role, premium flag,
/// and the absolute expiry instant (Unix seconds). A token is invalid
/// strictly after `exp`.
pub struct Claims {
    pub sub: String,
    pub role: UserRole,
    pub is_premium: bool,
    pub exp: usize,
}

/// Mathematical image of [`Claims`]: what the contracts speak about.
pub struct ClaimsView {
    pub sub: Seq<char>,
    pub role: UserRole,
    pub is_premium: bool,
    pub exp: nat,
}

impl View for Claims {
    type V = ClaimsView;

    open spec fn view(&self) -> ClaimsView {
        ClaimsView {
            sub: self.sub@,
            role: self.role,
            is_premium: self.is_premium,
            exp: self.exp as nat,
        }
    }
}

impl Clone for Claims {
    fn clone(&self) -> (r: Self)
        ensures
            r@ == self@,
    {
        Claims {
            sub: self.sub.clone(),
            role: self.role,
            is_premium: self.is_premium,
            exp: self.exp,
        }
    }
}

/// A user as exposed to clients: no password digest.
pub struct User {
    pub id: String,
    pub username: String,
    pub email: String,
    pub role: UserRole,
}

/// A user as the store keeps it, with the password digest.
pub struct UserWithPassword {
    pub id: String,
    pub username: String,
    pub password: String,
    pub email: String,
    pub role: UserRole,
}

impl From<UserWithPassword> for User {
    fn from(value: UserWithPassword) -> (r: Self) {
        Self { id: value.id, username: value.username, email: value.email, role: value.role }
    }
}

impl vstd::std_specs::convert::FromSpecImpl<UserWithPassword> for User {
    open spec fn obeys_from_spec() -> bool {
        true
    }

    open spec fn from_spec(value: UserWithPassword) -> Self {
        User { id: value.id, username: value.username, email: value.email, role: value.role }
    }
}

} // verus!
