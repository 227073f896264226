use rust_backend::api_error::{
    classify_database_error, extract_field_from_constraint, ApiError,
};
use rust_backend::auth::{login_user, prepare_new_user};
use rust_backend::dto::CreateUserDto;
use rust_backend::models::{User, UserRole, UserWithPassword};
use rust_backend::user::{check_user_exists, CheckUserExistsDto, LookupOutcome};

const NOW: i64 = 1_700_000_000;

fn must<T>(r: Result<T, ApiError>) -> T {
    match r {
        Ok(t) => t,
        Err(e) => panic!("{}", e.message()),
    }
}

fn stored_user(digest: String) -> UserWithPassword {
    UserWithPassword {
        id: String::from("id-1"),
        username: String::from("alice"),
        password: digest,
        email: String::from("alice@example.com"),
        role: UserRole::User,
    }
}

#[test]
fn error_envelope_has_code_reason_and_message() {
    let body = ApiError::NotFound(String::from("User bob not found")).error_response();
    assert_eq!(body.code, 404);
    assert_eq!(body.error, "Not Found");
    assert_eq!(body.message, "User bob not found");
    assert!(body.details.is_none());

    let body = ApiError::Unauthorized(String::from("nope")).error_response();
    assert_eq!(body.code, 401);
    assert_eq!(body.error, "Unauthorized");

    let body = ApiError::UniqueViolation { field: String::from("email") }.error_response();
    assert_eq!(body.code, 409);
    assert_eq!(body.error, "Conflict");
    assert_eq!(body.message, "Entity with such email already exists");

    let details = vec![(String::from("username"), vec![String::from("too short")])];
    let body = ApiError::Validation(details.clone()).error_response();
    assert_eq!(body.code, 400);
    assert_eq!(body.message, "Validation Error");
    assert_eq!(body.details, Some(details));

    let body = ApiError::InternalServer(String::from("boom")).error_response();
    assert_eq!(body.code, 500);
    assert_eq!(body.error, "Internal Server Error");
    assert_eq!(body.message, "Database error: boom");

    let body = ApiError::Other(String::from("odd")).error_response();
    assert_eq!(body.code, 400);
    assert_eq!(body.error, "Bad Request");
    assert_eq!(body.message, "odd");
}

#[test]
fn constraint_field_extraction() {
    assert_eq!(extract_field_from_constraint("users_email_key"), "email");
    assert_eq!(extract_field_from_constraint("users_username_key"), "username");
    assert_eq!(extract_field_from_constraint("nonsense"), "field");
    assert_eq!(extract_field_from_constraint("x_key"), "field");
}

#[test]
fn constraint_field_extraction_with_newlines() {
    // the pattern's dot never crosses a newline: a capture that would
    // span one finds no match, while a newline before the final segment
    // leaves the match intact
    assert_eq!(extract_field_from_constraint("a_b\nc_key"), "field");
    assert_eq!(extract_field_from_constraint("x\ny_z_key"), "z");
}

#[test]
fn database_error_classification() {
    let code = String::from("23505");
    let constraint = String::from("users_email_key");
    let description = String::from("duplicate key value");
    match classify_database_error(Some(&code), Some(&constraint), &description) {
        ApiError::UniqueViolation { field } => assert_eq!(field, "email"),
        _ => panic!("expected a unique violation"),
    }
    match classify_database_error(None, None, &description) {
        ApiError::InternalServer(m) => assert_eq!(m, "duplicate key value"),
        _ => panic!("expected internal"),
    }
}

#[test]
fn lookup_outcomes_map_to_endpoint_errors() {
    let dto = CheckUserExistsDto { username_or_email: String::from("bob") };
    match check_user_exists(dto, LookupOutcome::Missing) {
        Err(ApiError::NotFound(m)) => assert_eq!(m, "User bob not found"),
        _ => panic!("expected NotFound"),
    }
    let dto = CheckUserExistsDto { username_or_email: String::from("bob") };
    let user = stored_user(String::from("digest"));
    match check_user_exists(dto, LookupOutcome::Found(user)) {
        Ok(u) => assert_eq!(u.username, "alice"),
        _ => panic!("expected the record"),
    }
}

#[test]
fn login_accepts_the_right_password_and_sets_the_cookie() {
    let digest = bcrypt::hash("hunter22", 4).unwrap();
    let secret = b"login-secret".to_vec();
    let (resp, cookie) =
        must(login_user(&secret, stored_user(digest), "hunter22", false, NOW));
    assert_eq!(resp.user.id, "id-1");
    assert_eq!(resp.user.username, "alice");
    assert!(!resp.access_token.is_empty());
    assert_eq!(cookie.name, "refresh_token");
    assert!(cookie.http_only);
    assert!(!cookie.secure);
}

#[test]
fn login_rejects_a_wrong_password() {
    let digest = bcrypt::hash("hunter22", 4).unwrap();
    let secret = b"login-secret".to_vec();
    match login_user(&secret, stored_user(digest), "wrong", false, NOW) {
        Err(ApiError::Other(m)) => assert_eq!(m, "Incorrect Password"),
        _ => panic!("expected a rejection"),
    }
}

#[test]
fn registration_prepares_a_verifiable_digest() {
    let dto = CreateUserDto {
        username: String::from("alice"),
        password: String::from("s3cret-pw"),
        email: String::from("alice@example.com"),
    };
    let (id, hash) = must(prepare_new_user(&dto));
    assert_eq!(id.len(), 36);
    assert!(bcrypt::verify("s3cret-pw", &hash).unwrap());
    assert!(!bcrypt::verify("other", &hash).unwrap());
}

#[test]
fn public_user_drops_the_password() {
    let u = User::from(stored_user(String::from("digest")));
    assert_eq!(u.id, "id-1");
    assert_eq!(u.username, "alice");
    assert_eq!(u.email, "alice@example.com");
    assert!(matches!(u.role, UserRole::User));
}
