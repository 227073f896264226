use rust_backend::jwt::{
    create_jwt_at, generate_tokens_at, refresh_token, refresh_token_at, verify_jwt_at,
    ACCESS_TOKEN_EXPIRATION, REFRESH_TOKEN_EXPIRATION,
};
use rust_backend::api_error::ApiError;
use rust_backend::models::UserRole;

fn secret() -> Vec<u8> {
    b"test-secret-key".to_vec()
}

const NOW: i64 = 1_700_000_000;

fn must<T>(r: Result<T, ApiError>) -> T {
    match r {
        Ok(t) => t,
        Err(e) => panic!("{}", e.message()),
    }
}

#[test]
fn issue_then_verify_returns_the_claims() {
    let s = secret();
    let token = create_jwt_at(&s, "u1", &false, &UserRole::User, 3600, NOW).unwrap();
    let claims = verify_jwt_at(&s, &token, NOW).expect("fresh token must verify");
    assert_eq!(claims.sub, "u1");
    assert!(matches!(claims.role, UserRole::User));
    assert!(!claims.is_premium);
    assert_eq!(claims.exp, (NOW + 3600) as usize);
}

#[test]
fn issue_then_verify_admin_premium() {
    let s = secret();
    let token = create_jwt_at(&s, "admin-7", &true, &UserRole::Admin, 120, NOW).unwrap();
    let claims = verify_jwt_at(&s, &token, NOW + 120).expect("token valid until its expiry");
    assert_eq!(claims.sub, "admin-7");
    assert!(matches!(claims.role, UserRole::Admin));
    assert!(claims.is_premium);
}

#[test]
fn issue_then_verify_with_control_characters_in_the_subject() {
    let s = secret();
    let sub = "a\u{1}\n\"b\\c";
    let token = create_jwt_at(&s, sub, &false, &UserRole::User, 60, NOW).unwrap();
    let claims = verify_jwt_at(&s, &token, NOW).expect("escaped subject must round-trip");
    assert_eq!(claims.sub, sub);
}

#[test]
fn expired_token_is_absent_even_with_good_signature() {
    let s = secret();
    let token = create_jwt_at(&s, "u1", &false, &UserRole::User, 3600, NOW).unwrap();
    assert!(verify_jwt_at(&s, &token, NOW + 3601).is_none());
}

#[test]
fn negative_ttl_token_is_already_expired() {
    let s = secret();
    let token = create_jwt_at(&s, "u1", &false, &UserRole::User, -10, NOW).unwrap();
    assert!(verify_jwt_at(&s, &token, NOW).is_none());
}

#[test]
fn wrong_secret_is_absent() {
    let s = secret();
    let other = b"another-secret".to_vec();
    let token = create_jwt_at(&s, "u1", &false, &UserRole::User, 3600, NOW).unwrap();
    assert!(verify_jwt_at(&other, &token, NOW).is_none());
}

#[test]
fn malformed_strings_are_absent() {
    let s = secret();
    for bad in [
        "",
        "garbage",
        "a.b",
        "a.b.c",
        "..",
        "a.b.c.d",
        "\u{1F600}.\u{1F600}.\u{1F600}",
    ] {
        assert!(verify_jwt_at(&s, bad, NOW).is_none(), "{bad:?} must not verify");
    }
}

#[test]
fn tampered_token_is_absent() {
    let s = secret();
    let token = create_jwt_at(&s, "u1", &false, &UserRole::User, 3600, NOW).unwrap();
    let mut tampered = token.clone().into_bytes();
    let dot = tampered.iter().position(|&b| b == b'.').unwrap();
    tampered[dot + 1] = if tampered[dot + 1] == b'A' { b'B' } else { b'A' };
    let tampered = String::from_utf8(tampered).unwrap();
    assert!(verify_jwt_at(&s, &tampered, NOW).is_none());
}

#[test]
fn signature_matches_jsonwebtoken() {
    // the issued token is a real JWT: its signature segment verifies
    // under jsonwebtoken's own HS256 check over the signed part
    let s = secret();
    let token = create_jwt_at(&s, "u1", &false, &UserRole::User, 3600, NOW).unwrap();
    let last_dot = token.rfind('.').unwrap();
    let (message, sig) = token.split_at(last_dot);
    let key = jsonwebtoken::DecodingKey::from_secret(&s);
    let ok = jsonwebtoken::crypto::verify(
        &sig[1..],
        message.as_bytes(),
        &key,
        jsonwebtoken::Algorithm::HS256,
    )
    .unwrap();
    assert!(ok);
}

#[test]
fn pair_has_distinct_expiries() {
    let s = secret();
    let tokens = must(generate_tokens_at(&s, "u1", &false, &UserRole::User, NOW));
    let access = verify_jwt_at(&s, &tokens.access_token, NOW).unwrap();
    let refresh = verify_jwt_at(&s, &tokens.refresh_token, NOW).unwrap();
    assert_eq!(access.exp, (NOW + ACCESS_TOKEN_EXPIRATION) as usize);
    assert_eq!(refresh.exp, (NOW + REFRESH_TOKEN_EXPIRATION) as usize);
    assert_ne!(tokens.access_token, tokens.refresh_token);
}

#[test]
fn refresh_rotates_and_preserves_identity() {
    let s = secret();
    let pair = must(generate_tokens_at(&s, "u1", &false, &UserRole::Admin, NOW));
    let presented = pair.refresh_token;

    let first = must(refresh_token_at(&s, Some(&presented), true, NOW + 1));
    let second = must(refresh_token_at(&s, Some(&presented), true, NOW + 2));

    // rotation: two exchanges mint two different pairs, and the second
    // never needed the first
    assert_ne!(first.access_token, second.access_token);
    assert_ne!(first.cookie.value, second.cookie.value);

    // the new access token preserves subject and role
    let claims = verify_jwt_at(&s, &first.access_token, NOW + 2).unwrap();
    assert_eq!(claims.sub, "u1");
    assert!(matches!(claims.role, UserRole::Admin));

    // cookie transport attributes
    assert_eq!(first.cookie.name, "refresh_token");
    assert!(first.cookie.http_only);
    assert!(first.cookie.secure);
    assert_eq!(first.cookie.path, "/");
    assert!(first.cookie.same_site_strict);
    assert_eq!(first.cookie.max_age_seconds, REFRESH_TOKEN_EXPIRATION);
}

#[test]
fn clocked_refresh_without_cookie_is_an_error() {
    let s = secret();
    assert!(refresh_token(&s, None, false).is_err());
}

#[test]
fn refresh_without_cookie_is_unauthorized() {
    let s = secret();
    match refresh_token_at(&s, None, false, NOW) {
        Err(ApiError::Unauthorized(m)) => assert_eq!(m, "refresh token missing"),
        _ => panic!("expected Unauthorized"),
    }
}

#[test]
fn refresh_with_bad_token_is_unauthorized() {
    let s = secret();
    let bad = String::from("not-a-token");
    match refresh_token_at(&s, Some(&bad), false, NOW) {
        Err(ApiError::Unauthorized(m)) => assert_eq!(m, "invalid refresh token"),
        _ => panic!("expected Unauthorized"),
    }
}
