//! Authentication core: signed session tokens (issue, verify, refresh) and
//! the request gate that enforces them.
pub mod api_error;
pub mod auth;
pub mod base64url;
pub mod claims_codec;
pub mod dto;
pub mod jwt;
pub mod jwt_auth;
pub mod models;
pub mod role_guard;
pub mod user;
