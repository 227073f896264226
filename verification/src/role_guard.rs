//! Route-level authorization: an exact-match role check over the claims
//! that interception attached to a request. No role hierarchy exists.
use vstd::prelude::*;

use crate::models::{Claims, UserRole};

verus! {

pub struct RoleGuard {
    pub required_role: UserRole,
}

impl RoleGuard {
    /// True only when claims are present and carry exactly the required
    /// role.
    pub fn check(&self, claims: Option<&Claims>) -> (r: bool)
        ensures
            r == match claims {
                Some(c) => c.role == self.required_role,
                None => false,
            },
    {
        match claims {
            Some(c) => c.role == self.required_role,
            None => false,
        }
    }
}

} // verus!
