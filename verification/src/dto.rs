//! Request and response shapes of the authentication endpoints.
use vstd::prelude::*;

use crate::models::User;

verus! {

/// Registration input. The transport layer validates lengths and the email
/// shape before anything here runs.
pub struct CreateUserDto {
    pub username: String,
    pub password: String,
    pub email: String,
}

/// Login input: one field for either username or email.
pub struct LoginDto {
    pub username_or_email: String,
    pub password: String,
}

/// Body of a successful login or registration: the public user and the
/// access token; the refresh token travels in the cookie instead.
pub struct AuthResponse {
    pub user: User,
    pub access_token: String,
}

/// A freshly minted access/refresh pair. Never partial: issuing either
/// token fails the whole pair.
pub struct Tokens {
    pub access_token: String,
    pub refresh_token: String,
}

/// Transport attributes of the refresh-token cookie.
pub struct RefreshCookie {
    pub name: String,
    pub value: String,
    pub http_only: bool,
    pub secure: bool,
    pub path: String,
    pub same_site_strict: bool,
    pub max_age_seconds: i64,
}

/// Body and cookie of a successful refresh exchange.
pub struct RefreshResponse {
    pub access_token: String,
    pub cookie: RefreshCookie,
}

} // verus!
