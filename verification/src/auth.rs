//! Login and registration: the decisions behind the two endpoints.
//! Persistence stays outside; these functions take the stored record and
//! produce the response, the tokens and the rotated cookie.
use vstd::prelude::*;
use vstd::string::*;

use crate::api_error::ApiError;
use crate::dto::{AuthResponse, CreateUserDto, RefreshCookie};
use crate::jwt::{
    build_refresh_cookie, generate_tokens_at, spec_token, ACCESS_TOKEN_EXPIRATION,
    REFRESH_TOKEN_EXPIRATION,
};
use crate::models::{ClaimsView, User, UserWithPassword};
use vstd::utf8::encode_utf8;

verus! {

/// Whether `bcrypt::verify` accepts this password for this digest: a pure
/// function of the two, however the digest was salted.
pub uninterp spec fn bcrypt_matches(password: Seq<char>, digest: Seq<char>) -> bool;

/// Whether bcrypt can read this digest at all: cost and salt are parsed
/// out of the digest alone, so readability never depends on the password.
pub uninterp spec fn bcrypt_digest_readable(digest: Seq<char>) -> bool;

#[verifier::external_type_specification]
#[verifier::external_body]
pub struct ExBcryptError(bcrypt::BcryptError);

/// Relies on `bcrypt::hash`: a fresh salted digest, readable back, that
/// `bcrypt::verify` accepts for the same password.
#[verifier::external_body]
fn bcrypt_hash(password: &str, cost: u32) -> (r: Result<String, bcrypt::BcryptError>)
    ensures
        r matches Ok(h) ==> bcrypt_matches(password@, h@) && bcrypt_digest_readable(h@),
{
    bcrypt::hash(password, cost)
}

/// Relies on `bcrypt::verify`: whether the password matches the digest;
/// it fails exactly on a digest bcrypt cannot read, whatever the
/// password.
#[verifier::external_body]
fn bcrypt_verify(password: &str, digest: &str) -> (r: Result<bool, bcrypt::BcryptError>)
    ensures
        r is Ok <==> bcrypt_digest_readable(digest@),
        r matches Ok(b) ==> b == bcrypt_matches(password@, digest@),
{
    bcrypt::verify(password, digest)
}

/// Relies on `uuid::Uuid::new_v4` and its hyphenated `to_string`: a fresh
/// random identifier, 36 characters long. Nothing else is assumed of it.
#[verifier::external_body]
fn new_user_id() -> (r: String)
    ensures
        r@.len() == 36,
{
    uuid::Uuid::new_v4().to_string()
}

/// The cost the registration path hashes with.
pub const PASSWORD_HASH_COST: u32 = 12;

/// What registration computes before the store is touched: a fresh user
/// id and the password digest. Fails only when hashing itself fails.
pub fn prepare_new_user(new_user: &CreateUserDto) -> (r: Result<(String, String), ApiError>)
    ensures
        match r {
            Ok(t) => t.0@.len() == 36 && bcrypt_matches(new_user.password@, t.1@)
                && bcrypt_digest_readable(t.1@),
            Err(e) => e matches ApiError::InternalServer(m) && m@
                == "Something went wrong on server side"@,
        },
{
    let password_hash = match bcrypt_hash(new_user.password.as_str(), PASSWORD_HASH_COST) {
        Ok(h) => h,
        Err(_) => {
            return Err(
                ApiError::InternalServer(String::from_str("Something went wrong on server side")),
            );
        },
    };
    let id = new_user_id();
    Ok((id, password_hash))
}

/// The response both login and registration end with: a fresh token pair
/// for the user (premium is not granted here), the public user in the
/// body beside the access token, and the refresh cookie.
pub fn build_auth_response(
    secret: &Vec<u8>,
    user: User,
    is_production: bool,
    now: i64,
) -> (r: (AuthResponse, RefreshCookie))
    requires
        0 <= now,
        now + REFRESH_TOKEN_EXPIRATION <= usize::MAX,
        now + REFRESH_TOKEN_EXPIRATION <= i64::MAX,
    ensures
        ({
            let (resp, cookie) = r;
            &&& resp.user == user
            &&& encode_utf8(resp.access_token@) == spec_token(
                secret@,
                ClaimsView {
                    sub: user.id@,
                    role: user.role,
                    is_premium: false,
                    exp: (now + ACCESS_TOKEN_EXPIRATION) as nat,
                },
            )
            &&& encode_utf8(cookie.value@) == spec_token(
                secret@,
                ClaimsView {
                    sub: user.id@,
                    role: user.role,
                    is_premium: false,
                    exp: (now + REFRESH_TOKEN_EXPIRATION) as nat,
                },
            )
            &&& cookie.name@ == "refresh_token"@
            &&& cookie.http_only
            &&& cookie.secure == is_production
            &&& cookie.path@ == "/"@
            &&& cookie.same_site_strict
            &&& cookie.max_age_seconds == REFRESH_TOKEN_EXPIRATION
        }),
{
    let tokens = match generate_tokens_at(secret, user.id.as_str(), &false, &user.role, now) {
        Ok(t) => t,
        Err(_) => vstd::pervasive::unreached(),
    };
    let cookie = build_refresh_cookie(tokens.refresh_token, is_production);
    (AuthResponse { user, access_token: tokens.access_token }, cookie)
}

/// The login decision, given the stored record for the presented
/// identifier: check the password against the stored digest, then mint
/// the pair. A wrong password is rejected; a digest bcrypt cannot read
/// surfaces as the comparison error.
pub fn login_user(
    secret: &Vec<u8>,
    user: UserWithPassword,
    password: &str,
    is_production: bool,
    now: i64,
) -> (r: Result<(AuthResponse, RefreshCookie), ApiError>)
    requires
        0 <= now,
        now + REFRESH_TOKEN_EXPIRATION <= usize::MAX,
        now + REFRESH_TOKEN_EXPIRATION <= i64::MAX,
    ensures
        match r {
            Ok(t) => ({
                let (resp, cookie) = t;
                &&& bcrypt_digest_readable(user.password@)
                &&& bcrypt_matches(password@, user.password@)
                &&& resp.user.id@ == user.id@
                &&& resp.user.username@ == user.username@
                &&& resp.user.email@ == user.email@
                &&& resp.user.role == user.role
                &&& encode_utf8(resp.access_token@) == spec_token(
                    secret@,
                    ClaimsView {
                        sub: user.id@,
                        role: user.role,
                        is_premium: false,
                        exp: (now + ACCESS_TOKEN_EXPIRATION) as nat,
                    },
                )
                &&& encode_utf8(cookie.value@) == spec_token(
                    secret@,
                    ClaimsView {
                        sub: user.id@,
                        role: user.role,
                        is_premium: false,
                        exp: (now + REFRESH_TOKEN_EXPIRATION) as nat,
                    },
                )
                &&& cookie.name@ == "refresh_token"@
                &&& cookie.http_only
                &&& cookie.secure == is_production
                &&& cookie.path@ == "/"@
                &&& cookie.same_site_strict
                &&& cookie.max_age_seconds == REFRESH_TOKEN_EXPIRATION
            }),
            Err(e) => {
                ||| (e matches ApiError::Other(m) && m@ == "Incorrect Password"@
                    && bcrypt_digest_readable(user.password@) && !bcrypt_matches(
                    password@,
                    user.password@,
                ))
                ||| (e matches ApiError::Other(m) && m@
                    == "Error when tried to compare passwords"@ && !bcrypt_digest_readable(
                    user.password@,
                ))
            },
        },
{
    let is_password_valid = match bcrypt_verify(password, user.password.as_str()) {
        Ok(b) => b,
        Err(_) => {
            return Err(
                ApiError::Other(String::from_str("Error when tried to compare passwords")),
            );
        },
    };
    if !is_password_valid {
        return Err(ApiError::Other(String::from_str("Incorrect Password")));
    }
    let public_user = User::from(user);
    Ok(build_auth_response(secret, public_user, is_production, now))
}

} // verus!
