//! The authentication gate: a request interceptor that admits a request
//! only on a fresh, well-signed bearer token.
use vstd::prelude::*;
use vstd::string::*;

use crate::api_error::ApiError;
use crate::jwt::{spec_token, valid_claims, verify_token_bytes};
use crate::models::{Claims, ClaimsView};

verus! {

/// `Bearer ` — the scheme prefix of the credential header, as bytes.
pub open spec fn bearer_prefix() -> Seq<u8> {
    seq![66u8, 101, 97, 114, 101, 114, 32]
}

/// The header value parses as text: every byte is printable ASCII or a
/// tab, the set `HeaderValue::to_str` accepts.
pub open spec fn header_text_ok(h: Seq<u8>) -> bool {
    forall|j: int| 0 <= j < h.len() ==> (32 <= #[trigger] h[j] < 127 || h[j] == 9)
}

pub open spec fn bearer_scheme(h: Seq<u8>) -> bool {
    h.len() >= 7 && h.subrange(0, 7) == bearer_prefix()
}

/// The raw token carried after the scheme prefix.
pub open spec fn bearer_token(h: Seq<u8>) -> Seq<u8> {
    h.subrange(7, h.len() as int)
}

/// What the interceptor does with one request.
pub enum GateDecision {
    /// Forward the request, with the decoded claims attached for any
    /// downstream role check.
    Forward(Claims),
    /// Short-circuit with this error.
    Reject(ApiError),
}

/// Interceptor configuration: the verification key. Wrapping it around
/// a route yields a [`JwtAuthMiddleware`] per service.
pub struct JwtAuth {
    pub secret: Vec<u8>,
}

/// The per-service interceptor.
pub struct JwtAuthMiddleware {
    pub secret: Vec<u8>,
}

impl JwtAuth {
    pub fn new_transform(&self) -> (r: JwtAuthMiddleware)
        ensures
            r.secret@ == self.secret@,
    {
        JwtAuthMiddleware { secret: clone_bytes(&self.secret) }
    }
}

fn clone_bytes(v: &Vec<u8>) -> (r: Vec<u8>)
    ensures
        r@ == v@,
{
    let mut out: Vec<u8> = Vec::new();
    let mut i: usize = 0;
    while i < v.len()
        invariant
            i <= v@.len(),
            out@ == v@.subrange(0, i as int),
        decreases v.len() - i,
    {
        out.push(v[i]);
        proof {
            assert(v@.subrange(0, i as int) + seq![v@[i as int]] =~= v@.subrange(0, i + 1));
        }
        i = i + 1;
    }
    proof {
        assert(v@.subrange(0, v@.len() as int) =~= v@);
    }
    out
}

impl JwtAuthMiddleware {
    /// Decide one request from its credential header, in order: header
    /// present, header readable as text, `Bearer ` scheme, then the token
    /// itself; the first failure rejects with its own message, and a
    /// token failure never says why.
    pub fn call(&self, authorization: Option<&Vec<u8>>, now: i64) -> (r: GateDecision)
        ensures
            match r {
                GateDecision::Forward(c) => {
                    &&& authorization is Some
                    &&& header_text_ok(authorization->Some_0@)
                    &&& bearer_scheme(authorization->Some_0@)
                    &&& valid_claims(c@)
                    &&& now <= c@.exp
                    &&& bearer_token(authorization->Some_0@) == spec_token(self.secret@, c@)
                },
                GateDecision::Reject(e) => e matches ApiError::Unauthorized(m) && (match
                    authorization {
                    None => m@ == "missing credential header"@,
                    Some(h) => {
                        if !header_text_ok(h@) {
                            m@ == "invalid credential header"@
                        } else if !bearer_scheme(h@) {
                            m@ == "invalid scheme"@
                        } else {
                            m@ == "invalid or expired token"@ && forall|cv: ClaimsView|
                                valid_claims(cv) && now <= cv.exp ==> bearer_token(h@)
                                    != spec_token(self.secret@, cv)
                        }
                    },
                }),
            },
    {
        let h = match authorization {
            Some(h) => h,
            None => {
                return GateDecision::Reject(
                    ApiError::Unauthorized(String::from_str("missing credential header")),
                );
            },
        };
        proof {
            assert(authorization is Some && authorization->Some_0 == h);
        }
        let mut i: usize = 0;
        while i < h.len()
            invariant
                i <= h@.len(),
                forall|j: int| 0 <= j < i ==> (32 <= #[trigger] h@[j] < 127 || h@[j] == 9),
                authorization is Some && authorization->Some_0 == h,
            decreases h.len() - i,
        {
            let b = h[i];
            if (b < 32 && b != 9) || b >= 127 {
                return GateDecision::Reject(
                    ApiError::Unauthorized(String::from_str("invalid credential header")),
                );
            }
            i = i + 1;
        }
        if !(h.len() >= 7 && h[0] == 66 && h[1] == 101 && h[2] == 97 && h[3] == 114 && h[4] == 101
            && h[5] == 114 && h[6] == 32) {
            proof {
                if h@.len() >= 7 && h@.subrange(0, 7) == bearer_prefix() {
                    assert(forall|j: int|
                        0 <= j < 7 ==> h@.subrange(0, 7)[j] == #[trigger] bearer_prefix()[j]);
                    assert(false);
                }
            }
            return GateDecision::Reject(
                ApiError::Unauthorized(String::from_str("invalid scheme")),
            );
        }
        proof {
            assert(h@.subrange(0, 7) =~= bearer_prefix());
        }
        let token = tail_from(h, 7);
        match verify_token_bytes(&self.secret, &token, now) {
            Some(c) => GateDecision::Forward(c),
            None => GateDecision::Reject(
                ApiError::Unauthorized(String::from_str("invalid or expired token")),
            ),
        }
    }
}

fn tail_from(v: &Vec<u8>, a: usize) -> (r: Vec<u8>)
    requires
        a <= v@.len(),
    ensures
        r@ == v@.subrange(a as int, v@.len() as int),
{
    let mut out: Vec<u8> = Vec::new();
    let mut i: usize = a;
    while i < v.len()
        invariant
            a <= i <= v@.len(),
            out@ == v@.subrange(a as int, i as int),
        decreases v.len() - i,
    {
        out.push(v[i]);
        proof {
            assert(v@.subrange(a as int, i as int) + seq![v@[i as int]] =~= v@.subrange(
                a as int,
                i + 1,
            ));
        }
        i = i + 1;
    }
    out
}

} // verus!
