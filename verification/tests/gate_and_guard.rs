use rust_backend::api_error::ApiError;
use rust_backend::jwt::create_jwt_at;
use rust_backend::jwt_auth::{GateDecision, JwtAuth, JwtAuthMiddleware};
use rust_backend::models::{Claims, UserRole};
use rust_backend::role_guard::RoleGuard;

const NOW: i64 = 1_700_000_000;

fn middleware() -> JwtAuthMiddleware {
    let gate = JwtAuth { secret: b"gate-secret".to_vec() };
    gate.new_transform()
}

fn reject_message(d: GateDecision) -> String {
    match d {
        GateDecision::Reject(ApiError::Unauthorized(m)) => m,
        GateDecision::Reject(_) => panic!("gate rejections are Unauthorized"),
        GateDecision::Forward(_) => panic!("expected a rejection"),
    }
}

#[test]
fn missing_header_is_rejected() {
    let mw = middleware();
    let msg = reject_message(mw.call(None, NOW));
    assert_eq!(msg, "missing credential header");
}

#[test]
fn unreadable_header_is_rejected() {
    let mw = middleware();
    let header = vec![0xFFu8, 0x00];
    let msg = reject_message(mw.call(Some(&header), NOW));
    assert_eq!(msg, "invalid credential header");
}

#[test]
fn tab_bearing_header_fails_the_scheme_not_the_text_check() {
    let mw = middleware();
    let header = b"\tBearer x".to_vec();
    let msg = reject_message(mw.call(Some(&header), NOW));
    assert_eq!(msg, "invalid scheme");
}

#[test]
fn wrong_scheme_is_rejected() {
    let mw = middleware();
    let header = b"Token abc".to_vec();
    let msg = reject_message(mw.call(Some(&header), NOW));
    assert_eq!(msg, "invalid scheme");
}

#[test]
fn expired_token_is_rejected() {
    let mw = middleware();
    let token = create_jwt_at(&mw.secret, "u1", &false, &UserRole::User, -5, NOW).unwrap();
    let mut header = b"Bearer ".to_vec();
    header.extend_from_slice(token.as_bytes());
    let msg = reject_message(mw.call(Some(&header), NOW));
    assert_eq!(msg, "invalid or expired token");
}

#[test]
fn valid_token_is_forwarded_with_claims() {
    let mw = middleware();
    let token = create_jwt_at(&mw.secret, "u1", &true, &UserRole::Admin, 3600, NOW).unwrap();
    let mut header = b"Bearer ".to_vec();
    header.extend_from_slice(token.as_bytes());
    match mw.call(Some(&header), NOW) {
        GateDecision::Forward(claims) => {
            assert_eq!(claims.sub, "u1");
            assert!(matches!(claims.role, UserRole::Admin));
            assert!(claims.is_premium);
        },
        GateDecision::Reject(_) => panic!("valid token must be forwarded"),
    }
}

#[test]
fn role_guard_is_exact_match_only() {
    let admin_only = RoleGuard { required_role: UserRole::Admin };
    let user_only = RoleGuard { required_role: UserRole::User };
    let admin = Claims {
        sub: String::from("u1"),
        role: UserRole::Admin,
        is_premium: false,
        exp: 10,
    };
    assert!(admin_only.check(Some(&admin)));
    assert!(!user_only.check(Some(&admin)));
    assert!(!admin_only.check(None));
    assert!(UserRole::Admin.is_admin());
    assert!(!UserRole::Admin.is_user());
    assert!(UserRole::User.is_user());
}
