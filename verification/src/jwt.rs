//! Token issuer and verifier.
//!
//! A token is `base64url(header) "." base64url(payload) "." signature`,
//! where the header is fixed, the payload is the canonical claims JSON and
//! the signature is HMAC-SHA256 under the injected secret. `spec_token`
//! is the exact byte-level image of an issued token; issuing produces it
//! and verification accepts exactly the fresh members of its image.
use vstd::prelude::*;
use vstd::string::*;

use crate::base64url::{b64_encode, base64url_encode, base64url_decode, lemma_encode_injective};
use crate::claims_codec::{
    claims_json, claims_json_bytes, parse_claims_json, lemma_claims_json_injective,
};
use crate::api_error::ApiError;
use crate::dto::{RefreshCookie, RefreshResponse, Tokens};
use crate::models::{Claims, ClaimsView, UserRole};
use vstd::utf8::{encode_utf8, encode_utf8_decode_utf8, encode_utf8_valid_utf8, valid_utf8};

verus! {

/// How long an access token lives, in seconds.
pub const ACCESS_TOKEN_EXPIRATION: i64 = 3600;

/// How long a refresh token lives, in seconds: thirty days, matching the
/// cookie it travels in.
pub const REFRESH_TOKEN_EXPIRATION: i64 = 2592000;

/// The fixed signing header, `{"typ":"JWT","alg":"HS256"}`.
pub open spec fn header_json() -> Seq<u8> {
    seq![
        123u8, 34, 116, 121, 112, 34, 58, 34, 74, 87, 84, 34, 44, 34, 97, 108, 103, 34, 58, 34,
        72, 83, 50, 53, 54, 34, 125,
    ]
}

/// The HMAC-SHA256 signature segment (base64url text, as bytes) that the
/// signing backend returns for a key and message. A pure function of its
/// arguments: the same key and message always sign the same way.
pub uninterp spec fn hs256_sig_of(key: Seq<u8>, msg: Seq<u8>) -> Seq<u8>;

/// The signed part of a token: first two segments, dot-separated.
pub open spec fn signing_input(cv: ClaimsView) -> Seq<u8> {
    b64_encode(header_json()) + seq![46u8] + b64_encode(
        claims_json(encode_utf8(cv.sub), cv.role, cv.is_premium, cv.exp),
    )
}

/// The full token issued for claims `cv` under `secret`, as bytes.
pub open spec fn spec_token(secret: Seq<u8>, cv: ClaimsView) -> Seq<u8> {
    signing_input(cv) + seq![46u8] + hs256_sig_of(secret, signing_input(cv))
}

/// A claims tuple the wire format can carry.
pub open spec fn valid_claims(cv: ClaimsView) -> bool {
    cv.exp <= usize::MAX
}

/// Relies on `jsonwebtoken::crypto::sign` with `Algorithm::HS256` and an
/// `EncodingKey` from the raw secret: it returns the base64url text of the
/// HMAC-SHA256 tag of the message — a deterministic function of key and
/// message, which never fails for the HMAC family and consists of
/// base64url alphabet characters only.
#[verifier::external_body]
fn hs256_sign(secret: &Vec<u8>, message: &Vec<u8>) -> (r: Vec<u8>)
    ensures
        r@ == hs256_sig_of(secret@, message@),
        forall|j: int| 0 <= j < r@.len() ==> crate::base64url::is_b64_byte(#[trigger] r@[j]),
{
    let key = jsonwebtoken::EncodingKey::from_secret(secret.as_slice());
    match jsonwebtoken::crypto::sign(message.as_slice(), &key, jsonwebtoken::Algorithm::HS256) {
        Ok(sig) => sig.into_bytes(),
        Err(_) => Vec::new(),
    }
}

/// Relies on `String::from_utf8`: succeeds exactly on valid UTF-8 and
/// returns the text those bytes encode.
#[verifier::external_body]
fn bytes_to_string(v: Vec<u8>) -> (r: Option<String>)
    ensures
        match r {
            Some(s) => encode_utf8(s@) == v@,
            None => !valid_utf8(v@),
        },
{
    String::from_utf8(v).ok()
}

/// Relies on `chrono::Utc::now`: the current Unix timestamp in seconds.
/// Nothing is assumed about the clock's value.
#[verifier::external_body]
pub fn now_unix() -> i64 {
    chrono::Utc::now().timestamp()
}

fn eq_bytes(a: &Vec<u8>, b: &Vec<u8>) -> (r: bool)
    ensures
        r == (a@ == b@),
{
    if a.len() != b.len() {
        return false;
    }
    let mut i: usize = 0;
    while i < a.len()
        invariant
            i <= a.len(),
            a@.len() == b@.len(),
            forall|j: int| 0 <= j < i ==> a@[j] == b@[j],
        decreases a.len() - i,
    {
        if a[i] != b[i] {
            return false;
        }
        i = i + 1;
    }
    proof {
        assert(a@ =~= b@);
    }
    true
}

fn push_all(out: &mut Vec<u8>, piece: &Vec<u8>)
    ensures
        final(out)@ == old(out)@ + piece@,
{
    let mut i: usize = 0;
    while i < piece.len()
        invariant
            i <= piece.len(),
            out@ == old(out)@ + piece@.subrange(0, i as int),
        decreases piece.len() - i,
    {
        out.push(piece[i]);
        proof {
            assert(old(out)@ + piece@.subrange(0, i as int) + seq![piece@[i as int]] =~= old(out)@
                + piece@.subrange(0, i + 1));
        }
        i = i + 1;
    }
    proof {
        assert(piece@.subrange(0, piece@.len() as int) =~= piece@);
    }
}

fn header_bytes() -> (r: Vec<u8>)
    ensures
        r@ == header_json(),
{
    let mut out: Vec<u8> = Vec::new();
    out.push(123);
    out.push(34);
    out.push(116);
    out.push(121);
    out.push(112);
    out.push(34);
    out.push(58);
    out.push(34);
    out.push(74);
    out.push(87);
    out.push(84);
    out.push(34);
    out.push(44);
    out.push(34);
    out.push(97);
    out.push(108);
    out.push(103);
    out.push(34);
    out.push(58);
    out.push(34);
    out.push(72);
    out.push(83);
    out.push(50);
    out.push(53);
    out.push(54);
    out.push(34);
    out.push(125);
    proof {
        assert(out@ =~= header_json());
    }
    out
}

/// Build and sign a token whose expiry is the instant `now + expires_after`.
/// The clocked [`create_jwt`] passes the wall clock for `now`; tests may
/// pass any instant.
#[verifier::rlimit(100)]
pub fn create_jwt_at(
    secret: &Vec<u8>,
    user_id: &str,
    is_premium: &bool,
    role: &UserRole,
    expires_after: i64,
    now: i64,
) -> (r: Result<String, String>)
    requires
        0 <= now + expires_after <= usize::MAX,
        now + expires_after <= i64::MAX,
    ensures
        r is Ok,
        ({
            let cv = ClaimsView {
                sub: user_id@,
                role: *role,
                is_premium: *is_premium,
                exp: (now + expires_after) as nat,
            };
            encode_utf8(r->Ok_0@) == spec_token(secret@, cv)
        }),
{
    let ghost cv = ClaimsView {
        sub: user_id@,
        role: *role,
        is_premium: *is_premium,
        exp: (now + expires_after) as nat,
    };
    let exp: usize = (now + expires_after) as usize;
    let sub_bytes = user_id.as_bytes_vec();
    let payload = claims_json_bytes(&sub_bytes, *role, *is_premium, exp);
    let mut msg = base64url_encode(&header_bytes());
    msg.push(46);
    push_all(&mut msg, &base64url_encode(&payload));
    proof {
        assert(msg@ =~= signing_input(cv));
    }
    let sig = hs256_sign(secret, &msg);
    let mut token = msg;
    token.push(46);
    push_all(&mut token, &sig);
    proof {
        assert(token@ =~= spec_token(secret@, cv));
    }
    proof {
        lemma_token_ascii(secret@, cv);
        lemma_ascii_valid_utf8(token@);
    }
    match bytes_to_string(token) {
        Some(s) => Ok(s),
        None => vstd::pervasive::unreached(),
    }
}

/// A byte sequence of 7-bit bytes is valid UTF-8.
pub proof fn lemma_ascii_valid_utf8(bytes: Seq<u8>)
    requires
        forall|j: int| 0 <= j < bytes.len() ==> #[trigger] bytes[j] < 128,
    ensures
        valid_utf8(bytes),
{
    assert forall|i: int|
        0 <= 0 <= i < bytes.len() <= bytes.len() implies vstd::utf8::is_leading_byte_width_1(
        #[trigger] bytes[i],
    ) by {
        assert(bytes[i] < 128);
    }
    assert(vstd::utf8::partial_valid_utf8(bytes, 0)) by {
        assert(bytes.subrange(0, 0) =~= Seq::<u8>::empty());
    }
    vstd::utf8::partial_valid_utf8_extend_ascii_block(bytes, 0, bytes.len() as int);
    assert(bytes.subrange(0, bytes.len() as int) =~= bytes);
}

/// Copy `v[a..b]` out as a fresh vector.
fn slice_of(v: &Vec<u8>, a: usize, b: usize) -> (r: Vec<u8>)
    requires
        a <= b <= v@.len(),
    ensures
        r@ == v@.subrange(a as int, b as int),
{
    let mut out: Vec<u8> = Vec::new();
    let mut i: usize = a;
    while i < b
        invariant
            a <= i <= b <= v@.len(),
            out@ == v@.subrange(a as int, i as int),
        decreases b - i,
    {
        out.push(v[i]);
        proof {
            assert(v@.subrange(a as int, i as int) + seq![v@[i as int]] =~= v@.subrange(
                a as int,
                i + 1,
            ));
        }
        i = i + 1;
    }
    out
}

fn prefix_eq(v: &Vec<u8>, p: &Vec<u8>) -> (r: bool)
    ensures
        r == (v@.len() >= p@.len() && v@.subrange(0, p@.len() as int) == p@),
{
    if v.len() < p.len() {
        return false;
    }
    let mut i: usize = 0;
    while i < p.len()
        invariant
            i <= p@.len() <= v@.len(),
            forall|j: int| 0 <= j < i ==> v@[j] == p@[j],
        decreases p.len() - i,
    {
        if v[i] != p[i] {
            return false;
        }
        i = i + 1;
    }
    proof {
        assert(v@.subrange(0, p@.len() as int) =~= p@);
    }
    true
}

/// Check a token's structure, signature and freshness; return the decoded
/// claims, or `None` when and only when no claims tuple that is still
/// fresh at `now` was issued as exactly this token under this secret.
pub fn verify_token_bytes(secret: &Vec<u8>, token: &Vec<u8>, now: i64) -> (r: Option<Claims>)
    ensures
        match r {
            Some(c) => valid_claims(c@) && now <= c@.exp && token@ == spec_token(secret@, c@),
            None => forall|cv: ClaimsView|
                valid_claims(cv) && now <= cv.exp ==> token@ != spec_token(secret@, cv),
        },
{
    let hb = base64url_encode(&header_bytes());
    let ok_head = prefix_eq(token, &hb) && token.len() > hb.len() && {
        let d = token[hb.len()];
        d == 46
    };
    if !ok_head {
        proof {
            assert forall|cv: ClaimsView|
                valid_claims(cv) && now <= cv.exp implies token@ != spec_token(secret@, cv) by {
                if token@ == spec_token(secret@, cv) {
                    assert(forall|j: int|
                        0 <= j < hb@.len() ==> token@[j] == #[trigger] hb@[j]);
                    assert(token@.subrange(0, hb@.len() as int) =~= hb@);
                    assert(token@[hb@.len() as int] == 46);
                    assert(false);
                }
            }
        }
        return None;
    }
    let i0 = hb.len() + 1;
    // first dot at or after the payload start
    let mut d: usize = i0;
    while d < token.len() && token[d] != 46
        invariant
            i0 <= d <= token@.len(),
            forall|k: int| i0 <= k < d ==> token@[k] != 46,
        decreases token.len() - d,
    {
        d = d + 1;
    }
    proof {
        // on a genuine token the scan stops exactly after the payload
        assert forall|cv: ClaimsView|
            token@ == spec_token(secret@, cv) implies d == i0 + payload_seg(cv).len() && d
            < token@.len() by {
            lemma_token_split(token@, secret@, cv, i0 as int, d as int);
        }
    }
    if d >= token.len() {
        proof {
            assert forall|cv: ClaimsView|
                valid_claims(cv) && now <= cv.exp implies token@ != spec_token(secret@, cv) by {
                if token@ == spec_token(secret@, cv) {
                    assert(false);
                }
            }
        }
        return None;
    }
    let seg1 = slice_of(token, i0, d);
    let payload = match base64url_decode(&seg1) {
        Some(p) => p,
        None => {
            proof {
                assert forall|cv: ClaimsView|
                    valid_claims(cv) && now <= cv.exp implies token@ != spec_token(secret@, cv)
                    by {
                    if token@ == spec_token(secret@, cv) {
                        assert(seg1@ =~= payload_seg(cv));
                        assert(false);
                    }
                }
            }
            return None;
        },
    };
    let parsed = match parse_claims_json(&payload) {
        Some(t) => t,
        None => {
            proof {
                assert forall|cv: ClaimsView|
                    valid_claims(cv) && now <= cv.exp implies token@ != spec_token(secret@, cv)
                    by {
                    if token@ == spec_token(secret@, cv) {
                        assert(seg1@ =~= payload_seg(cv));
                        lemma_encode_injective(
                            payload@,
                            claims_json(encode_utf8(cv.sub), cv.role, cv.is_premium, cv.exp),
                        );
                        assert(false);
                    }
                }
            }
            return None;
        },
    };
    let (sub_bytes, role, prem, exp) = parsed;
    proof {
        assert forall|cv: ClaimsView|
            token@ == spec_token(secret@, cv) implies encode_utf8(cv.sub) == sub_bytes@ && cv.role
            == role && cv.is_premium == prem && cv.exp == exp as nat by {
            assert(seg1@ =~= payload_seg(cv));
            lemma_encode_injective(
                payload@,
                claims_json(encode_utf8(cv.sub), cv.role, cv.is_premium, cv.exp),
            );
            lemma_claims_json_injective(
                sub_bytes@,
                role,
                prem,
                exp as nat,
                encode_utf8(cv.sub),
                cv.role,
                cv.is_premium,
                cv.exp,
            );
        }
    }
    // recompute and compare the signature
    let msg = slice_of(token, 0, d);
    let sig = hs256_sign(secret, &msg);
    let seg2 = slice_of(token, d + 1, token.len());
    if !eq_bytes(&seg2, &sig) {
        proof {
            assert forall|cv: ClaimsView|
                valid_claims(cv) && now <= cv.exp implies token@ != spec_token(secret@, cv) by {
                if token@ == spec_token(secret@, cv) {
                    assert(msg@ =~= signing_input(cv));
                    assert(seg2@ =~= hs256_sig_of(secret@, signing_input(cv)));
                    assert(false);
                }
            }
        }
        return None;
    }
    // freshness: a token is dead strictly after its expiry instant
    let fresh = if now < 0 {
        true
    } else {
        now as u64 <= exp as u64
    };
    if !fresh {
        proof {
            assert forall|cv: ClaimsView|
                valid_claims(cv) && now <= cv.exp implies token@ != spec_token(secret@, cv) by {
                if token@ == spec_token(secret@, cv) {
                    assert(cv.exp == exp as nat);
                    assert(false);
                }
            }
        }
        return None;
    }
    let sub = match bytes_to_string(sub_bytes) {
        Some(s) => s,
        None => {
            proof {
                assert forall|cv: ClaimsView|
                    valid_claims(cv) && now <= cv.exp implies token@ != spec_token(secret@, cv)
                    by {
                    if token@ == spec_token(secret@, cv) {
                        encode_utf8_valid_utf8(cv.sub);
                        assert(false);
                    }
                }
            }
            return None;
        },
    };
    let c = Claims { sub, role, is_premium: prem, exp };
    proof {
        let cv = c@;
        assert(payload@ == claims_json(encode_utf8(cv.sub), cv.role, cv.is_premium, cv.exp));
        assert(msg@ =~= signing_input(cv)) by {
            assert(seg1@ == b64_encode(payload@));
        }
        assert(token@ =~= signing_input(cv) + seq![46u8] + hs256_sig_of(secret@, signing_input(cv)))
            by {
            assert(token@ =~= msg@ + seq![token@[d as int]] + seg2@);
        }
    }
    Some(c)
}

/// The payload segment a genuine token for `cv` carries.
pub open spec fn payload_seg(cv: ClaimsView) -> Seq<u8> {
    b64_encode(claims_json(encode_utf8(cv.sub), cv.role, cv.is_premium, cv.exp))
}

/// On a genuine token, a first-dot scan that began just after the header
/// segment stops exactly at the dot separating payload from signature.
proof fn lemma_token_split(token: Seq<u8>, secret: Seq<u8>, cv: ClaimsView, i0: int, d: int)
    requires
        token == spec_token(secret, cv),
        i0 == b64_encode(header_json()).len() + 1,
        i0 <= d <= token.len(),
        forall|k: int| i0 <= k < d ==> token[k] != 46,
        d == token.len() || token[d] == 46,
    ensures
        d == i0 + payload_seg(cv).len(),
        d < token.len(),
{
    let p = payload_seg(cv);
    crate::base64url::lemma_encode_all_digits(
        claims_json(encode_utf8(cv.sub), cv.role, cv.is_premium, cv.exp),
    );
    assert(token[i0 + p.len()] == 46);
    assert(i0 + p.len() < token.len());
    if d < i0 + p.len() {
        assert(token[d] == p[d - i0]);
        assert(crate::base64url::is_b64_byte(p[d - i0]));
        assert(token[d] == 46);
        assert(false);
    }
    if d > i0 + p.len() {
        assert(token[i0 + p.len()] != 46);
        assert(false);
    }
}

/// Tokens are unique to their claims: equal tokens carry equal subject,
/// role, premium flag and expiry, and their signatures agree. Three laws
/// follow. Issue-then-verify returns exactly the issued claims: whatever
/// claims the verifier accepts for that token string encode to it, so
/// they equal the issued ones. Rotation: refresh pairs minted at
/// different instants differ, because their expiries differ. And a token
/// issued under one secret passes verification under another only if
/// HMAC-SHA256 collides across the two keys on the very same signed
/// input — the last conclusion makes that collision explicit.
pub proof fn lemma_token_unique(
    secret1: Seq<u8>,
    secret2: Seq<u8>,
    cv1: ClaimsView,
    cv2: ClaimsView,
)
    requires
        spec_token(secret1, cv1) == spec_token(secret2, cv2),
    ensures
        cv1.sub == cv2.sub,
        cv1.role == cv2.role,
        cv1.is_premium == cv2.is_premium,
        cv1.exp == cv2.exp,
        hs256_sig_of(secret1, signing_input(cv1)) == hs256_sig_of(secret2, signing_input(cv2)),
{
    let t = spec_token(secret1, cv1);
    let h = b64_encode(header_json());
    let i0 = h.len() as int + 1;
    let p1 = payload_seg(cv1);
    let p2 = payload_seg(cv2);
    crate::base64url::lemma_encode_all_digits(
        claims_json(encode_utf8(cv1.sub), cv1.role, cv1.is_premium, cv1.exp),
    );
    crate::base64url::lemma_encode_all_digits(
        claims_json(encode_utf8(cv2.sub), cv2.role, cv2.is_premium, cv2.exp),
    );
    assert(p1.len() == p2.len()) by {
        if p1.len() < p2.len() {
            assert(spec_token(secret1, cv1)[i0 + p1.len()] == 46);
            assert(spec_token(secret2, cv2)[i0 + p1.len()] == p2[p1.len() as int]);
            assert(crate::base64url::is_b64_byte(p2[p1.len() as int]));
        }
        if p2.len() < p1.len() {
            assert(spec_token(secret2, cv2)[i0 + p2.len()] == 46);
            assert(spec_token(secret1, cv1)[i0 + p2.len()] == p1[p2.len() as int]);
            assert(crate::base64url::is_b64_byte(p1[p2.len() as int]));
        }
    }
    assert(p1 =~= p2) by {
        assert forall|j: int| 0 <= j < p1.len() implies p1[j] == p2[j] by {
            assert(spec_token(secret1, cv1)[i0 + j] == p1[j]);
            assert(spec_token(secret2, cv2)[i0 + j] == p2[j]);
        }
    }
    lemma_encode_injective(
        claims_json(encode_utf8(cv1.sub), cv1.role, cv1.is_premium, cv1.exp),
        claims_json(encode_utf8(cv2.sub), cv2.role, cv2.is_premium, cv2.exp),
    );
    lemma_claims_json_injective(
        encode_utf8(cv1.sub),
        cv1.role,
        cv1.is_premium,
        cv1.exp,
        encode_utf8(cv2.sub),
        cv2.role,
        cv2.is_premium,
        cv2.exp,
    );
    encode_utf8_decode_utf8(cv1.sub);
    encode_utf8_decode_utf8(cv2.sub);
    assert(hs256_sig_of(secret1, signing_input(cv1)) =~= hs256_sig_of(
        secret2,
        signing_input(cv2),
    )) by {
        let sig1 = hs256_sig_of(secret1, signing_input(cv1));
        let sig2 = hs256_sig_of(secret2, signing_input(cv2));
        assert(signing_input(cv1).len() == signing_input(cv2).len());
        assert(spec_token(secret1, cv1).len() == signing_input(cv1).len() + 1 + sig1.len());
        assert(spec_token(secret2, cv2).len() == signing_input(cv2).len() + 1 + sig2.len());
        assert(sig1.len() == sig2.len());
        assert forall|j: int| 0 <= j < sig1.len() implies sig1[j] == sig2[j] by {
            assert(spec_token(secret1, cv1)[i0 + p1.len() + 1 + j] == sig1[j]);
            assert(spec_token(secret2, cv2)[i0 + p2.len() + 1 + j] == sig2[j]);
        }
    }
}

/// [`verify_token_bytes`] on the UTF-8 bytes of a token string, with the
/// validation instant passed in.
pub fn verify_jwt_at(secret: &Vec<u8>, token: &str, now: i64) -> (r: Option<Claims>)
    ensures
        match r {
            Some(c) => valid_claims(c@) && now <= c@.exp && encode_utf8(token@) == spec_token(
                secret@,
                c@,
            ),
            None => forall|cv: ClaimsView|
                valid_claims(cv) && now <= cv.exp ==> encode_utf8(token@) != spec_token(
                    secret@,
                    cv,
                ),
        },
{
    let bytes = token.as_bytes_vec();
    verify_token_bytes(secret, &bytes, now)
}

/// Validate a token against the wall clock. All failure modes — malformed
/// token, bad signature, expiry — collapse into `None`.
pub fn verify_jwt(secret: &Vec<u8>, token: &str) -> (r: Option<Claims>)
    ensures
        r matches Some(c) ==> valid_claims(c@) && encode_utf8(token@) == spec_token(secret@, c@),
{
    let now = now_unix();
    verify_jwt_at(secret, token, now)
}

/// Issue a token against the wall clock. Fails only when the clock and the
/// offset leave the expiry outside what the payload can carry.
pub fn create_jwt(
    secret: &Vec<u8>,
    user_id: &str,
    is_premium: &bool,
    role: &UserRole,
    expires_after: i64,
) -> (r: Result<String, String>)
    ensures
        r matches Ok(s) ==> exists|e: nat|
            e <= usize::MAX && encode_utf8(s@) == spec_token(
                secret@,
                ClaimsView { sub: user_id@, role: *role, is_premium: *is_premium, exp: e },
            ),
        r matches Err(m) ==> m@ == "token expiry out of range"@,
{
    let now = now_unix();
    let exp = match now.checked_add(expires_after) {
        Some(e) => e,
        None => {
            return Err(String::from_str("token expiry out of range"));
        },
    };
    if exp < 0 || !(exp as u64 <= usize::MAX as u64) {
        return Err(String::from_str("token expiry out of range"));
    }
    let r = create_jwt_at(secret, user_id, is_premium, role, expires_after, now);
    proof {
        let e = (now + expires_after) as nat;
        assert(e <= usize::MAX);
    }
    r
}

/// Mint the access/refresh pair for one subject at instant `now`: same
/// claims, two expiry policies. Never partial.
pub fn generate_tokens_at(
    secret: &Vec<u8>,
    user_id: &str,
    is_premium: &bool,
    role: &UserRole,
    now: i64,
) -> (r: Result<Tokens, ApiError>)
    requires
        0 <= now,
        now + REFRESH_TOKEN_EXPIRATION <= usize::MAX,
        now + REFRESH_TOKEN_EXPIRATION <= i64::MAX,
    ensures
        r is Ok,
        ({
            let t = r->Ok_0;
            &&& encode_utf8(t.access_token@) == spec_token(
                secret@,
                ClaimsView {
                    sub: user_id@,
                    role: *role,
                    is_premium: *is_premium,
                    exp: (now + ACCESS_TOKEN_EXPIRATION) as nat,
                },
            )
            &&& encode_utf8(t.refresh_token@) == spec_token(
                secret@,
                ClaimsView {
                    sub: user_id@,
                    role: *role,
                    is_premium: *is_premium,
                    exp: (now + REFRESH_TOKEN_EXPIRATION) as nat,
                },
            )
        }),
{
    let access_token = match create_jwt_at(
        secret,
        user_id,
        is_premium,
        role,
        ACCESS_TOKEN_EXPIRATION,
        now,
    ) {
        Ok(t) => t,
        Err(_) => vstd::pervasive::unreached(),
    };
    let refresh_token = match create_jwt_at(
        secret,
        user_id,
        is_premium,
        role,
        REFRESH_TOKEN_EXPIRATION,
        now,
    ) {
        Ok(t) => t,
        Err(_) => vstd::pervasive::unreached(),
    };
    Ok(Tokens { access_token, refresh_token })
}

/// Mint the pair against the wall clock.
pub fn generate_tokens(
    secret: &Vec<u8>,
    user_id: &str,
    is_premium: &bool,
    role: &UserRole,
) -> (r: Result<Tokens, ApiError>)
    ensures
        r matches Ok(t) ==> exists|ea: nat, er: nat|
            #![trigger spec_token(
                secret@,
                ClaimsView { sub: user_id@, role: *role, is_premium: *is_premium, exp: ea },
            ), spec_token(
                secret@,
                ClaimsView { sub: user_id@, role: *role, is_premium: *is_premium, exp: er },
            )]
            {
                &&& ea <= er <= usize::MAX
                &&& er - ea == REFRESH_TOKEN_EXPIRATION - ACCESS_TOKEN_EXPIRATION
                &&& encode_utf8(t.access_token@) == spec_token(
                    secret@,
                    ClaimsView { sub: user_id@, role: *role, is_premium: *is_premium, exp: ea },
                )
                &&& encode_utf8(t.refresh_token@) == spec_token(
                    secret@,
                    ClaimsView { sub: user_id@, role: *role, is_premium: *is_premium, exp: er },
                )
            },
        r matches Err(e) ==> e matches ApiError::Other(m) && m@ == "clock out of range"@,
{
    let now = now_unix();
    if now < 0 {
        return Err(ApiError::Other(String::from_str("clock out of range")));
    }
    let headroom = match now.checked_add(REFRESH_TOKEN_EXPIRATION) {
        Some(e) => e,
        None => {
            return Err(ApiError::Other(String::from_str("clock out of range")));
        },
    };
    if !(headroom as u64 <= usize::MAX as u64) {
        return Err(ApiError::Other(String::from_str("clock out of range")));
    }
    generate_tokens_at(secret, user_id, is_premium, role, now)
}

/// Every byte of a token is 7-bit: segments are base64url text and dots.
pub proof fn lemma_token_ascii(secret: Seq<u8>, cv: ClaimsView)
    requires
        forall|j: int|
            0 <= j < hs256_sig_of(secret, signing_input(cv)).len()
                ==> crate::base64url::is_b64_byte(#[trigger] hs256_sig_of(
                secret,
                signing_input(cv),
            )[j]),
    ensures
        forall|j: int| 0 <= j < spec_token(secret, cv).len() ==> #[trigger] spec_token(
            secret,
            cv,
        )[j] < 128,
{
    let t = spec_token(secret, cv);
    let h = b64_encode(header_json());
    let p = b64_encode(claims_json(encode_utf8(cv.sub), cv.role, cv.is_premium, cv.exp));
    let sig = hs256_sig_of(secret, signing_input(cv));
    crate::base64url::lemma_encode_all_digits(header_json());
    crate::base64url::lemma_encode_all_digits(
        claims_json(encode_utf8(cv.sub), cv.role, cv.is_premium, cv.exp),
    );
    assert forall|j: int| 0 <= j < t.len() implies #[trigger] t[j] < 128 by {
        if j < h.len() {
            assert(t[j] == h[j]);
            assert(crate::base64url::is_b64_byte(h[j]));
        } else if j == h.len() {
            assert(t[j] == 46);
        } else if j < h.len() + 1 + p.len() {
            assert(t[j] == p[j - h.len() - 1]);
            assert(crate::base64url::is_b64_byte(p[j - h.len() - 1]));
        } else if j == h.len() + 1 + p.len() {
            assert(t[j] == 46);
        } else {
            assert(t[j] == sig[j - (h.len() + 1 + p.len() + 1)]);
            assert(crate::base64url::is_b64_byte(sig[j - (h.len() + 1 + p.len() + 1)]));
        }
    }
}

/// Exchange a presented refresh credential for a completely new pair at
/// instant `now`, rotating the cookie: the old token is neither reused
/// nor extended. A missing or invalid credential fails uniformly with
/// `Unauthorized`.
pub fn refresh_token_at(
    secret: &Vec<u8>,
    presented: Option<&String>,
    is_production: bool,
    now: i64,
) -> (r: Result<RefreshResponse, ApiError>)
    requires
        0 <= now,
        now + REFRESH_TOKEN_EXPIRATION <= usize::MAX,
        now + REFRESH_TOKEN_EXPIRATION <= i64::MAX,
    ensures
        match r {
            Ok(resp) => ({
                &&& presented is Some
                &&& exists|cv: ClaimsView|
                    #![trigger spec_token(secret@, cv)]
                    {
                        &&& valid_claims(cv)
                        &&& now <= cv.exp
                        &&& encode_utf8(presented->Some_0@) == spec_token(secret@, cv)
                        &&& encode_utf8(resp.access_token@) == spec_token(
                            secret@,
                            ClaimsView {
                                sub: cv.sub,
                                role: cv.role,
                                is_premium: cv.is_premium,
                                exp: (now + ACCESS_TOKEN_EXPIRATION) as nat,
                            },
                        )
                        &&& encode_utf8(resp.cookie.value@) == spec_token(
                            secret@,
                            ClaimsView {
                                sub: cv.sub,
                                role: cv.role,
                                is_premium: cv.is_premium,
                                exp: (now + REFRESH_TOKEN_EXPIRATION) as nat,
                            },
                        )
                    }
                &&& resp.cookie.name@ == "refresh_token"@
                &&& resp.cookie.http_only
                &&& resp.cookie.secure == is_production
                &&& resp.cookie.path@ == "/"@
                &&& resp.cookie.same_site_strict
                &&& resp.cookie.max_age_seconds == REFRESH_TOKEN_EXPIRATION
            }),
            Err(e) => e matches ApiError::Unauthorized(m) && (match presented {
                None => m@ == "refresh token missing"@,
                Some(t) => m@ == "invalid refresh token"@ && forall|cv: ClaimsView|
                    valid_claims(cv) && now <= cv.exp ==> encode_utf8(t@) != spec_token(
                        secret@,
                        cv,
                    ),
            }),
        },
{
    let token = match presented {
        Some(t) => t,
        None => {
            return Err(ApiError::Unauthorized(String::from_str("refresh token missing")));
        },
    };
    let claims = match verify_jwt_at(secret, token.as_str(), now) {
        Some(c) => c,
        None => {
            return Err(ApiError::Unauthorized(String::from_str("invalid refresh token")));
        },
    };
    let tokens = match generate_tokens_at(
        secret,
        claims.sub.as_str(),
        &claims.is_premium,
        &claims.role,
        now,
    ) {
        Ok(t) => t,
        Err(_) => vstd::pervasive::unreached(),
    };
    let cookie = build_refresh_cookie(tokens.refresh_token, is_production);
    Ok(RefreshResponse { access_token: tokens.access_token, cookie })
}

/// The transport attributes every refresh cookie is issued with.
pub fn build_refresh_cookie(value: String, is_production: bool) -> (r: RefreshCookie)
    ensures
        r.name@ == "refresh_token"@,
        r.value@ == value@,
        r.http_only,
        r.secure == is_production,
        r.path@ == "/"@,
        r.same_site_strict,
        r.max_age_seconds == REFRESH_TOKEN_EXPIRATION,
{
    RefreshCookie {
        name: String::from_str("refresh_token"),
        value,
        http_only: true,
        secure: is_production,
        path: String::from_str("/"),
        same_site_strict: true,
        max_age_seconds: REFRESH_TOKEN_EXPIRATION,
    }
}

/// Refresh against the wall clock.
pub fn refresh_token(
    secret: &Vec<u8>,
    presented: Option<&String>,
    is_production: bool,
) -> (r: Result<RefreshResponse, ApiError>)
    ensures
        r matches Ok(resp) ==> {
            &&& presented is Some
            &&& resp.cookie.name@ == "refresh_token"@
            &&& resp.cookie.http_only
            &&& resp.cookie.secure == is_production
            &&& resp.cookie.path@ == "/"@
            &&& resp.cookie.same_site_strict
            &&& resp.cookie.max_age_seconds == REFRESH_TOKEN_EXPIRATION
        },
        presented is None ==> r is Err,
        r matches Err(e) ==> ({
            ||| e matches ApiError::Unauthorized(m) && (match presented {
                None => m@ == "refresh token missing"@,
                Some(_) => m@ == "invalid refresh token"@,
            })
            ||| e matches ApiError::Other(m) && m@ == "clock out of range"@
        }),
{
    let now = now_unix();
    if now < 0 {
        return Err(ApiError::Other(String::from_str("clock out of range")));
    }
    let headroom = match now.checked_add(REFRESH_TOKEN_EXPIRATION) {
        Some(e) => e,
        None => {
            return Err(ApiError::Other(String::from_str("clock out of range")));
        },
    };
    if !(headroom as u64 <= usize::MAX as u64) {
        return Err(ApiError::Other(String::from_str("clock out of range")));
    }
    refresh_token_at(secret, presented, is_production, now)
}

} // verus!
