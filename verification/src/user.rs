//! The user-store lookup as this crate sees it: the store answers with an
//! outcome, and the outcome is mapped to the endpoint's result.
use vstd::prelude::*;
use vstd::string::*;

use crate::api_error::ApiError;
use crate::models::UserWithPassword;

verus! {

pub struct CheckUserExistsDto {
    pub username_or_email: String,
}

/// What the store can answer to a lookup by username or email.
pub enum LookupOutcome {
    Found(UserWithPassword),
    Missing,
    StoreError(String),
}

/// Map a lookup outcome: a missing user is `NotFound` naming the
/// identifier, a store failure is internal; a hit passes through.
pub fn check_user_exists(dto: CheckUserExistsDto, outcome: LookupOutcome) -> (r: Result<
    UserWithPassword,
    ApiError,
>)
    ensures
        match outcome {
            LookupOutcome::Found(u) => r matches Ok(got) && got == u,
            LookupOutcome::Missing => r matches Err(e) && e matches ApiError::NotFound(m) && m@
                == "User "@ + dto.username_or_email@ + " not found"@,
            LookupOutcome::StoreError(s) => r matches Err(e) && e matches ApiError::InternalServer(
                m,
            ) && m@ == s@,
        },
{
    match outcome {
        LookupOutcome::Found(u) => Ok(u),
        LookupOutcome::Missing => {
            let mut m = String::from_str("User ");
            m.append(dto.username_or_email.as_str());
            m.append(" not found");
            Err(ApiError::NotFound(m))
        },
        LookupOutcome::StoreError(s) => Err(ApiError::InternalServer(s)),
    }
}

} // verus!
