//! Canonical JSON payload of the signed token.
//!
//! `claims_json` is the one compact serialization this crate ever signs;
//! the parser accepts exactly its image, so decoding is all-or-nothing:
//! a payload either is the canonical encoding of one claims tuple or it
//! is rejected.
use vstd::prelude::*;

use crate::models::UserRole;

verus! {

pub open spec fn lit_sub() -> Seq<u8> {
    seq![123u8, 34, 115, 117, 98, 34, 58, 34]
}

pub open spec fn lit_role() -> Seq<u8> {
    seq![34u8, 44, 34, 114, 111, 108, 101, 34, 58, 34]
}

pub open spec fn lit_prem() -> Seq<u8> {
    seq![34u8, 44, 34, 105, 115, 95, 112, 114, 101, 109, 105, 117, 109, 34, 58]
}

pub open spec fn lit_exp() -> Seq<u8> {
    seq![44u8, 34, 101, 120, 112, 34, 58]
}

pub open spec fn role_bytes(r: UserRole) -> Seq<u8> {
    match r {
        UserRole::User => seq![85u8, 115, 101, 114],
        UserRole::Admin => seq![65u8, 100, 109, 105, 110],
    }
}

pub open spec fn bool_bytes(b: bool) -> Seq<u8> {
    if b {
        seq![116u8, 114, 117, 101]
    } else {
        seq![102u8, 97, 108, 115, 101]
    }
}

/// The control characters with their own short escape: backspace, tab,
/// line feed, form feed, carriage return.
pub open spec fn ctrl_short(b: u8) -> bool {
    b == 8 || b == 9 || b == 10 || b == 12 || b == 13
}

/// The letter standing for a short-escaped control character.
pub open spec fn short_code(b: u8) -> u8 {
    if b == 8 {
        98u8  // \b
    } else if b == 9 {
        116u8  // \t
    } else if b == 10 {
        110u8  // \n
    } else if b == 12 {
        102u8  // \f
    } else {
        114u8  // \r
    }
}

/// The bytes that may follow a backslash as a two-byte escape.
pub open spec fn esc_pair_ok(c: u8) -> bool {
    c == 34 || c == 92 || c == 98 || c == 116 || c == 110 || c == 102 || c == 114
}

/// The byte a two-byte escape stands for.
pub open spec fn esc_unpair(c: u8) -> u8 {
    if c == 34 || c == 92 {
        c
    } else if c == 98 {
        8u8
    } else if c == 116 {
        9u8
    } else if c == 110 {
        10u8
    } else if c == 102 {
        12u8
    } else {
        13u8
    }
}

/// Lowercase hex digit of a value below 16.
pub open spec fn hex_digit(n: int) -> u8 {
    if n < 10 {
        (48 + n) as u8
    } else {
        (87 + n) as u8
    }
}

/// Value of a lowercase hex digit; 16 when the byte is none.
pub open spec fn hex_val(b: u8) -> int {
    if 48 <= b <= 57 {
        b - 48
    } else if 97 <= b <= 102 {
        b - 97 + 10
    } else {
        16
    }
}

/// A value a canonical `\u00XX` escape may carry: a control character
/// without a short escape of its own.
pub open spec fn uescape_ok(n: int) -> bool {
    0 <= n < 32 && !(n == 8 || n == 9 || n == 10 || n == 12 || n == 13)
}

/// JSON string escaping of one byte, exactly as the common serializers
/// write it: quote and backslash take a backslash, five control
/// characters take their short escape, the rest of the control range is
/// written `\u00XX` in lowercase hex, and everything else stands alone.
pub open spec fn esc_byte(b: u8) -> Seq<u8> {
    if b == 34 {
        seq![92u8, 34]
    } else if b == 92 {
        seq![92u8, 92]
    } else if ctrl_short(b) {
        seq![92u8, short_code(b)]
    } else if b < 32 {
        seq![92u8, 117, 48, 48, hex_digit(b as int / 16), hex_digit(b as int % 16)]
    } else {
        seq![b]
    }
}

#[verifier::opaque]
pub open spec fn json_escape(s: Seq<u8>) -> Seq<u8>
    decreases s.len(),
{
    if s.len() == 0 {
        Seq::empty()
    } else {
        esc_byte(s[0]) + json_escape(s.drop_first())
    }
}

/// Decimal digits of `n`, most significant first, no leading zeros.
pub open spec fn dec_digits(n: nat) -> Seq<u8>
    decreases n,
{
    if n < 10 {
        seq![(48 + n) as u8]
    } else {
        dec_digits(n / 10) + seq![(48 + n % 10) as u8]
    }
}

/// The canonical compact JSON serialization of a claims tuple, with the
/// subject already UTF-8 encoded.
#[verifier::opaque]
pub open spec fn claims_json(sub: Seq<u8>, role: UserRole, prem: bool, exp: nat) -> Seq<u8> {
    lit_sub() + json_escape(sub) + lit_role() + role_bytes(role) + lit_prem() + bool_bytes(prem)
        + lit_exp() + dec_digits(exp) + seq![125u8]
}

pub proof fn lemma_escape_concat(a: Seq<u8>, b: Seq<u8>)
    ensures
        json_escape(a + b) == json_escape(a) + json_escape(b),
    decreases a.len(),
{
    reveal(json_escape);
    if a.len() == 0 {
        assert(a + b =~= b);
        assert(json_escape(a) + json_escape(b) =~= json_escape(b));
    } else {
        assert((a + b).drop_first() =~= a.drop_first() + b);
        lemma_escape_concat(a.drop_first(), b);
        assert(json_escape(a + b) =~= json_escape(a) + json_escape(b));
    }
}

pub proof fn lemma_dec_digits_are_digits(n: nat)
    ensures
        forall|j: int|
            0 <= j < dec_digits(n).len() ==> 48 <= #[trigger] dec_digits(n)[j] <= 57,
    decreases n,
{
    if n >= 10 {
        lemma_dec_digits_are_digits(n / 10);
        assert forall|j: int| 0 <= j < dec_digits(n).len() implies 48 <= #[trigger] dec_digits(
            n,
        )[j] <= 57 by {
            if j < dec_digits(n / 10).len() {
                assert(dec_digits(n)[j] == dec_digits(n / 10)[j]);
            }
        }
    }
}

pub proof fn lemma_dec_digits_first(n: nat)
    ensures
        n >= 1 ==> dec_digits(n)[0] != 48,
    decreases n,
{
    if n >= 10 {
        lemma_dec_digits_first(n / 10);
        assert(dec_digits(n)[0] == dec_digits(n / 10)[0]);
    }
}

pub proof fn lemma_dec_digits_injective(a: nat, b: nat)
    requires
        dec_digits(a) == dec_digits(b),
    ensures
        a == b,
    decreases a,
{
    if a < 10 && b < 10 {
        assert(dec_digits(a)[0] == dec_digits(b)[0]);
        assert(dec_digits(a)[0] == (48 + a) as u8);
        assert(dec_digits(b)[0] == (48 + b) as u8);
        assert(48 + a < 256 && 48 + b < 256);
    } else if a < 10 {
        assert(dec_digits(b).len() == dec_digits(b / 10).len() + 1);
        assert(dec_digits(b / 10).len() >= 1);
        assert(dec_digits(a).len() == 1);
        assert(false);
    } else if b < 10 {
        assert(dec_digits(a).len() == dec_digits(a / 10).len() + 1);
        assert(dec_digits(a / 10).len() >= 1);
        assert(dec_digits(b).len() == 1);
        assert(false);
    } else {
        assert(dec_digits(a) == dec_digits(a / 10) + seq![(48 + a % 10) as u8]);
        assert(dec_digits(b) == dec_digits(b / 10) + seq![(48 + b % 10) as u8]);
        assert(dec_digits(a / 10) =~= dec_digits(b / 10)) by {
            assert(dec_digits(a).len() == dec_digits(a / 10).len() + 1);
            assert(dec_digits(b).len() == dec_digits(b / 10).len() + 1);
            assert forall|j: int| 0 <= j < dec_digits(a / 10).len() implies #[trigger] dec_digits(
                a / 10,
            )[j] == dec_digits(b / 10)[j] by {
                assert(dec_digits(a)[j] == (dec_digits(a / 10) + seq![(48 + a % 10) as u8])[j]);
                assert(dec_digits(b)[j] == (dec_digits(b / 10) + seq![(48 + b % 10) as u8])[j]);
                assert(dec_digits(a)[j] == dec_digits(b)[j]);
            }
        }
        lemma_dec_digits_injective(a / 10, b / 10);
        assert(dec_digits(a)[dec_digits(a).len() - 1] == dec_digits(b)[dec_digits(b).len() - 1]);
        assert(dec_digits(a)[dec_digits(a).len() - 1] == (48 + a % 10) as u8);
        assert(dec_digits(b)[dec_digits(b).len() - 1] == (48 + b % 10) as u8);
        assert(48 + a % 10 < 256 && 48 + b % 10 < 256);
        assert(a % 10 == b % 10);
        vstd::arithmetic::div_mod::lemma_fundamental_div_mod(a as int, 10);
        vstd::arithmetic::div_mod::lemma_fundamental_div_mod(b as int, 10);
    }
}

/// A strictly longer digit string with the same digits in front stands for
/// a strictly larger number.
pub proof fn lemma_digits_prefix_value(e: nat, a: nat, d: u8, rest: Seq<u8>)
    requires
        dec_digits(e) == dec_digits(a) + seq![d] + rest,
        48 <= d <= 57,
    ensures
        e >= a * 10 + (d - 48),
    decreases rest.len(),
{
    if rest.len() == 0 {
        assert(dec_digits(e).len() >= 2);
        assert(e >= 10) by {
            if e < 10 {
                assert(dec_digits(e).len() == 1);
            }
        }
        assert(dec_digits(e) == dec_digits(e / 10) + seq![(48 + e % 10) as u8]);
        assert(dec_digits(e / 10) =~= dec_digits(a)) by {
            assert forall|j: int| 0 <= j < dec_digits(e / 10).len() implies dec_digits(e / 10)[j]
                == dec_digits(a)[j] by {
                assert(dec_digits(e)[j] == (dec_digits(a) + seq![d] + rest)[j]);
            }
        }
        lemma_dec_digits_injective(e / 10, a);
        assert(dec_digits(e)[dec_digits(e).len() - 1] == d);
        assert(e % 10 == d - 48);
        assert(e == (e / 10) * 10 + e % 10);
    } else {
        assert(dec_digits(e).len() >= 3);
        assert(e >= 10) by {
            if e < 10 {
                assert(dec_digits(e).len() == 1);
            }
        }
        assert(dec_digits(e) == dec_digits(e / 10) + seq![(48 + e % 10) as u8]);
        assert(dec_digits(e / 10) =~= dec_digits(a) + seq![d] + rest.drop_last()) by {
            assert forall|j: int| 0 <= j < dec_digits(e / 10).len() implies dec_digits(e / 10)[j]
                == (dec_digits(a) + seq![d] + rest.drop_last())[j] by {
                assert(dec_digits(e)[j] == (dec_digits(a) + seq![d] + rest)[j]);
            }
        }
        lemma_digits_prefix_value(e / 10, a, d, rest.drop_last());
        assert(e >= 10 * (e / 10) >= 0) by {
            assert(e == (e / 10) * 10 + e % 10);
        }
        assert(10 * (e / 10) >= 10 * (a * 10 + (d - 48))) by (nonlinear_arith)
            requires
                e / 10 >= a * 10 + (d - 48),
        {}
        assert(10 * (a * 10 + (d - 48)) >= a * 10 + (d - 48)) by (nonlinear_arith)
            requires
                0 <= a,
                48 <= d,
        {}
    }
}

/// One scan over an escaped string segment: stops at the first unescaped
/// quote, undoing the escapes; fails on a dangling or unknown escape, a
/// raw control byte, or a missing terminator.
#[verifier::opaque]
pub open spec fn scan_sub(v: Seq<u8>, i: int) -> Option<(Seq<u8>, int)>
    decreases v.len() - i when 0 <= i <= v.len()
{
    if i < 0 || i >= v.len() {
        None
    } else if v[i] == 34 {
        Some((Seq::empty(), i))
    } else if v[i] == 92 {
        if i + 1 < v.len() && esc_pair_ok(v[i + 1]) {
            match scan_sub(v, i + 2) {
                Some((s, j)) => Some((seq![esc_unpair(v[i + 1])] + s, j)),
                None => None,
            }
        } else if i + 5 < v.len() && v[i + 1] == 117 && v[i + 2] == 48 && v[i + 3] == 48
            && hex_val(v[i + 4]) < 16 && hex_val(v[i + 5]) < 16 && uescape_ok(
            hex_val(v[i + 4]) * 16 + hex_val(v[i + 5]),
        ) {
            match scan_sub(v, i + 6) {
                Some((s, j)) => Some(
                    (seq![(hex_val(v[i + 4]) * 16 + hex_val(v[i + 5])) as u8] + s, j),
                ),
                None => None,
            }
        } else {
            None
        }
    } else if v[i] < 32 {
        None
    } else {
        match scan_sub(v, i + 1) {
            Some((s, j)) => Some((seq![v[i]] + s, j)),
            None => None,
        }
    }
}

pub proof fn lemma_hex_roundtrip(n: int)
    requires
        0 <= n < 16,
    ensures
        hex_val(hex_digit(n)) == n,
{
}

pub proof fn lemma_hex_inverse(b: u8)
    requires
        hex_val(b) < 16,
    ensures
        hex_digit(hex_val(b)) == b,
{
}

/// On input that lays out `json_escape(s)` and then a quote, the scan
/// recovers exactly `s` and stops at that quote.
pub proof fn lemma_scan_of_escape(s: Seq<u8>, v: Seq<u8>, i: int)
    requires
        0 <= i,
        i + json_escape(s).len() < v.len(),
        v.subrange(i, i + json_escape(s).len()) == json_escape(s),
        v[i + json_escape(s).len()] == 34,
    ensures
        scan_sub(v, i) == Some((s, i + json_escape(s).len())),
    decreases s.len(),
{
    reveal(scan_sub);
    reveal(json_escape);
    if s.len() == 0 {
        assert(v[i] == 34);
    } else {
        let e0 = esc_byte(s[0]);
        let tail = s.drop_first();
        assert(json_escape(s) == e0 + json_escape(tail));
        assert forall|j: int| 0 <= j < json_escape(s).len() implies v[i + j] == json_escape(s)[j]
            by {
            assert(v.subrange(i, i + json_escape(s).len())[j] == v[i + j]);
        }
        let i2 = i + e0.len();
        assert(v.subrange(i2, i2 + json_escape(tail).len()) =~= json_escape(tail)) by {
            assert forall|j: int| 0 <= j < json_escape(tail).len() implies v.subrange(
                i2,
                i2 + json_escape(tail).len(),
            )[j] == json_escape(tail)[j] by {
                assert(v[i2 + j] == json_escape(s)[e0.len() + j]);
            }
        }
        lemma_scan_of_escape(tail, v, i2);
        assert(json_escape(s).len() == e0.len() + json_escape(tail).len());
        let sr = v.subrange(i, i + json_escape(s).len());
        if s[0] == 34 || s[0] == 92 || ctrl_short(s[0]) {
            assert(sr[0] == v[i] && sr[1] == v[i + 1]);
            assert(json_escape(s)[0] == e0[0] && json_escape(s)[1] == e0[1]);
            assert(v[i] == 92 && v[i + 1] == e0[1]);
            assert(esc_pair_ok(v[i + 1]) && esc_unpair(v[i + 1]) == s[0]);
            assert(i + 1 < v.len());
            assert(scan_sub(v, i + 2) == Some((tail, i + json_escape(s).len() as int)));
            assert(scan_sub(v, i) == Some(
                (seq![esc_unpair(v[i + 1])] + tail, i + json_escape(s).len() as int),
            ));
            assert(seq![s[0]] + tail =~= s);
        } else if s[0] < 32 {
            assert(sr[0] == v[i] && sr[1] == v[i + 1] && sr[2] == v[i + 2] && sr[3] == v[i + 3]
                && sr[4] == v[i + 4] && sr[5] == v[i + 5]);
            assert(json_escape(s)[0] == e0[0] && json_escape(s)[1] == e0[1] && json_escape(s)[2]
                == e0[2] && json_escape(s)[3] == e0[3] && json_escape(s)[4] == e0[4]
                && json_escape(s)[5] == e0[5]);
            assert(v[i] == 92 && v[i + 1] == 117 && v[i + 2] == 48 && v[i + 3] == 48);
            assert(v[i + 4] == hex_digit(s[0] as int / 16) && v[i + 5] == hex_digit(
                s[0] as int % 16,
            ));
            lemma_hex_roundtrip(s[0] as int / 16);
            lemma_hex_roundtrip(s[0] as int % 16);
            assert(hex_val(v[i + 4]) * 16 + hex_val(v[i + 5]) == s[0]);
            assert(uescape_ok(s[0] as int));
            assert(!esc_pair_ok(v[i + 1]));
            assert(i + 5 < v.len());
            assert(scan_sub(v, i + 6) == Some((tail, i + json_escape(s).len() as int)));
            assert(scan_sub(v, i) == Some((seq![s[0]] + tail, i + json_escape(s).len() as int)));
            assert(seq![s[0]] + tail =~= s);
        } else {
            assert(sr[0] == v[i]);
            assert(json_escape(s)[0] == e0[0]);
            assert(v[i] == s[0]);
            assert(v[i] != 34 && v[i] != 92);
            assert(scan_sub(v, i + 1) == Some((tail, i + json_escape(s).len() as int)));
            assert(scan_sub(v, i) == Some((seq![v[i]] + tail, i + json_escape(s).len() as int)));
            assert(seq![s[0]] + tail =~= s);
        }
    }
}

/// A successful scan really did read an escaped string: the consumed bytes
/// are `json_escape` of the result, and the stop byte is a quote.
pub proof fn lemma_scan_sound(v: Seq<u8>, i: int)
    requires
        0 <= i <= v.len(),
        scan_sub(v, i) is Some,
    ensures
        ({
            let (s, j) = scan_sub(v, i)->Some_0;
            &&& i <= j < v.len()
            &&& v[j] == 34
            &&& v.subrange(i, j) == json_escape(s)
        }),
    decreases v.len() - i,
{
    reveal(scan_sub);
    reveal(json_escape);
    let (s, j) = scan_sub(v, i)->Some_0;
    if v[i] == 34 {
        assert(v.subrange(i, i) =~= json_escape(Seq::empty()));
    } else if v[i] == 92 {
        if i + 1 < v.len() && esc_pair_ok(v[i + 1]) {
            let x = esc_unpair(v[i + 1]);
            let (s2, _) = scan_sub(v, i + 2)->Some_0;
            lemma_scan_sound(v, i + 2);
            assert(esc_byte(x) =~= seq![92u8, v[i + 1]]);
            assert(json_escape(seq![x] + s2) == esc_byte(x) + json_escape(s2)) by {
                assert((seq![x] + s2).drop_first() =~= s2);
                assert((seq![x] + s2)[0] == x);
            }
            assert(v.subrange(i, j) =~= esc_byte(x) + json_escape(s2));
        } else {
            let hv = hex_val(v[i + 4]);
            let lv = hex_val(v[i + 5]);
            let x = (hv * 16 + lv) as u8;
            let (s2, _) = scan_sub(v, i + 6)->Some_0;
            lemma_scan_sound(v, i + 6);
            vstd::arithmetic::div_mod::lemma_fundamental_div_mod_converse(
                hv * 16 + lv, 16, hv, lv,
            );
            lemma_hex_inverse(v[i + 4]);
            lemma_hex_inverse(v[i + 5]);
            assert(esc_byte(x) =~= seq![92u8, 117, 48, 48, v[i + 4], v[i + 5]]);
            assert(json_escape(seq![x] + s2) == esc_byte(x) + json_escape(s2)) by {
                assert((seq![x] + s2).drop_first() =~= s2);
                assert((seq![x] + s2)[0] == x);
            }
            assert(v.subrange(i, j) =~= esc_byte(x) + json_escape(s2));
        }
    } else {
        let (s2, _) = scan_sub(v, i + 1)->Some_0;
        lemma_scan_sound(v, i + 1);
        assert(json_escape(seq![v[i]] + s2) == esc_byte(v[i]) + json_escape(s2)) by {
            assert((seq![v[i]] + s2).drop_first() =~= s2);
            assert((seq![v[i]] + s2)[0] == v[i]);
        }
        assert(v[i] >= 32 && v[i] != 34 && v[i] != 92);
        assert(esc_byte(v[i]) =~= seq![v[i]]);
        assert(v.subrange(i, j) =~= esc_byte(v[i]) + json_escape(s2));
    }
}

/// Everything the canonical layout fixes about a serialized claims tuple:
/// where each region lies and what it holds.
#[verifier::rlimit(100)]
pub proof fn lemma_canonical_structure(v: Seq<u8>, s: Seq<u8>, role: UserRole, prem: bool, exp: nat)
    requires
        v == claims_json(s, role, prem, exp),
    ensures
        v.len() >= 8,
        v.subrange(0, 8) == lit_sub(),
        scan_sub(v, 8) == Some((s, 8 + json_escape(s).len() as int)),
        ({
            let p = 8 + json_escape(s).len() as int;
            let q = p + 10 + role_bytes(role).len();
            let w = q + 15 + bool_bytes(prem).len();
            let x = w + 7;
            let xe = x + dec_digits(exp).len();
            &&& v.subrange(p, p + 10) == lit_role()
            &&& v.subrange(p + 10, q) == role_bytes(role)
            &&& v.subrange(q, q + 15) == lit_prem()
            &&& v.subrange(q + 15, w) == bool_bytes(prem)
            &&& v.subrange(w, x) == lit_exp()
            &&& v.subrange(x, xe) == dec_digits(exp)
            &&& xe + 1 == v.len()
            &&& v[xe] == 125
        }),
{
    reveal(claims_json);
    let esc = json_escape(s);
    let p = 8 + esc.len() as int;
    let q = p + 10 + role_bytes(role).len();
    let w = q + 15 + bool_bytes(prem).len();
    let x = w + 7;
    let xe = x + dec_digits(exp).len();
    assert(v.len() == xe + 1);
    assert(v.subrange(0, 8) =~= lit_sub());
    assert(v.subrange(8, p) =~= esc);
    assert(v.subrange(p, p + 10) =~= lit_role());
    assert(v.subrange(p + 10, q) =~= role_bytes(role));
    assert(v.subrange(q, q + 15) =~= lit_prem());
    assert(v.subrange(q + 15, w) =~= bool_bytes(prem));
    assert(v.subrange(w, x) =~= lit_exp());
    assert(v.subrange(x, xe) =~= dec_digits(exp));
    assert(v[xe] == 125);
    assert(v[p] == 34);
    lemma_scan_of_escape(s, v, 8);
}

/// The canonical serialization is injective: equal payloads carry equal
/// claims tuples.
#[verifier::rlimit(100)]
#[verifier::spinoff_prover]
pub proof fn lemma_claims_json_injective(
    s1: Seq<u8>,
    r1: UserRole,
    p1: bool,
    e1: nat,
    s2: Seq<u8>,
    r2: UserRole,
    p2: bool,
    e2: nat,
)
    requires
        claims_json(s1, r1, p1, e1) == claims_json(s2, r2, p2, e2),
    ensures
        s1 == s2 && r1 == r2 && p1 == p2 && e1 == e2,
{
    let v = claims_json(s1, r1, p1, e1);
    lemma_canonical_fixed(v, s1, r1, p1, e1);
    lemma_canonical_fixed(v, s2, r2, p2, e2);
    assert(s1 == s2 && json_escape(s1).len() == json_escape(s2).len());
    let p = 8 + json_escape(s1).len() as int;
    assert(r1 == r2) by {
        if r1 != r2 {
            assert(v[p + 10] == 85 || v[p + 10] == 65);
            assert(false);
        }
    }
    let q = p + 10 + role_bytes(r1).len() as int;
    assert(p1 == p2) by {
        if p1 != p2 {
            assert(v[q + 15] == 116 || v[q + 15] == 102);
            assert(false);
        }
    }
    let x = q + 15 + bool_bytes(p1).len() as int + 7;
    assert(dec_digits(e1) =~= dec_digits(e2)) by {
        assert(digits_region(v, x, e1) && digits_region(v, x, e2));
        assert(dec_digits(e1).len() == dec_digits(e2).len());
        assert(v.subrange(x, x + dec_digits(e1).len() as int) == dec_digits(e1));
        assert(v.subrange(x, x + dec_digits(e2).len() as int) == dec_digits(e2));
    }
    lemma_dec_digits_injective(e1, e2);
}

fn is_digit(b: u8) -> (r: bool)
    ensures
        r == (48 <= b <= 57),
{
    48 <= b && b <= 57
}

fn push_lit_sub(out: &mut Vec<u8>)
    ensures
        final(out)@ == old(out)@ + lit_sub(),
{
    out.push(123);
    out.push(34);
    out.push(115);
    out.push(117);
    out.push(98);
    out.push(34);
    out.push(58);
    out.push(34);
    proof {
        assert(final(out)@ =~= old(out)@ + lit_sub());
    }
}

fn push_lit_role(out: &mut Vec<u8>)
    ensures
        final(out)@ == old(out)@ + lit_role(),
{
    out.push(34);
    out.push(44);
    out.push(34);
    out.push(114);
    out.push(111);
    out.push(108);
    out.push(101);
    out.push(34);
    out.push(58);
    out.push(34);
    proof {
        assert(final(out)@ =~= old(out)@ + lit_role());
    }
}

fn push_role(out: &mut Vec<u8>, role: UserRole)
    ensures
        final(out)@ == old(out)@ + role_bytes(role),
{
    match role {
        UserRole::User => {
            out.push(85);
            out.push(115);
            out.push(101);
            out.push(114);
        },
        UserRole::Admin => {
            out.push(65);
            out.push(100);
            out.push(109);
            out.push(105);
            out.push(110);
        },
    }
    proof {
        assert(final(out)@ =~= old(out)@ + role_bytes(role));
    }
}

fn push_lit_prem(out: &mut Vec<u8>)
    ensures
        final(out)@ == old(out)@ + lit_prem(),
{
    out.push(34);
    out.push(44);
    out.push(34);
    out.push(105);
    out.push(115);
    out.push(95);
    out.push(112);
    out.push(114);
    out.push(101);
    out.push(109);
    out.push(105);
    out.push(117);
    out.push(109);
    out.push(34);
    out.push(58);
    proof {
        assert(final(out)@ =~= old(out)@ + lit_prem());
    }
}

fn push_bool(out: &mut Vec<u8>, b: bool)
    ensures
        final(out)@ == old(out)@ + bool_bytes(b),
{
    if b {
        out.push(116);
        out.push(114);
        out.push(117);
        out.push(101);
    } else {
        out.push(102);
        out.push(97);
        out.push(108);
        out.push(115);
        out.push(101);
    }
    proof {
        assert(final(out)@ =~= old(out)@ + bool_bytes(b));
    }
}

fn push_lit_exp(out: &mut Vec<u8>)
    ensures
        final(out)@ == old(out)@ + lit_exp(),
{
    out.push(44);
    out.push(34);
    out.push(101);
    out.push(120);
    out.push(112);
    out.push(34);
    out.push(58);
    proof {
        assert(final(out)@ =~= old(out)@ + lit_exp());
    }
}

/// Serialize a claims tuple (subject already UTF-8 bytes) canonically.
#[verifier::rlimit(100)]
pub fn claims_json_bytes(sub: &Vec<u8>, role: UserRole, prem: bool, exp: usize) -> (r: Vec<u8>)
    ensures
        r@ == claims_json(sub@, role, prem, exp as nat),
{
    let mut out: Vec<u8> = Vec::new();
    push_lit_sub(&mut out);
    proof {
        reveal(json_escape);
        assert(out@ =~= lit_sub());
        assert(json_escape(sub@.subrange(0, 0)) =~= Seq::<u8>::empty());
    }
    let mut i: usize = 0;
    while i < sub.len()
        invariant
            i <= sub.len(),
            out@ == lit_sub() + json_escape(sub@.subrange(0, i as int)),
        decreases sub.len() - i,
    {
        let b = sub[i];
        if b == 34 || b == 92 {
            out.push(92);
            out.push(b);
        } else if b == 8 {
            out.push(92);
            out.push(98);
        } else if b == 9 {
            out.push(92);
            out.push(116);
        } else if b == 10 {
            out.push(92);
            out.push(110);
        } else if b == 12 {
            out.push(92);
            out.push(102);
        } else if b == 13 {
            out.push(92);
            out.push(114);
        } else if b < 32 {
            out.push(92);
            out.push(117);
            out.push(48);
            out.push(48);
            out.push(hex_digit_byte(b / 16));
            out.push(hex_digit_byte(b % 16));
        } else {
            out.push(b);
        }
        proof {
            reveal(json_escape);
            let pre = sub@.subrange(0, i as int);
            let one = seq![sub@[i as int]];
            lemma_escape_concat(pre, one);
            assert(pre + one =~= sub@.subrange(0, i + 1));
            assert(json_escape(one) =~= esc_byte(sub@[i as int])) by {
                assert(one[0] == sub@[i as int]);
                assert(one.drop_first() =~= Seq::<u8>::empty());
                assert(json_escape(one) == esc_byte(one[0]) + json_escape(one.drop_first()));
                assert(json_escape(Seq::<u8>::empty()) =~= Seq::<u8>::empty());
            }
            assert(out@ =~= lit_sub() + json_escape(sub@.subrange(0, i + 1)));
        }
        i = i + 1;
    }
    proof {
        assert(sub@.subrange(0, sub@.len() as int) =~= sub@);
    }
    push_lit_role(&mut out);
    push_role(&mut out, role);
    push_lit_prem(&mut out);
    push_bool(&mut out, prem);
    push_lit_exp(&mut out);
    let ghost head = out@;
    push_digits(&mut out, exp);
    out.push(125);
    proof {
        assert(out@ =~= head + dec_digits(exp as nat) + seq![125u8]);
        assert(out@ =~= claims_json(sub@, role, prem, exp as nat)) by {
            reveal(claims_json);
        }
    }
    out
}

fn push_digits(out: &mut Vec<u8>, n: usize)
    ensures
        final(out)@ == old(out)@ + dec_digits(n as nat),
    decreases n,
{
    if n < 10 {
        out.push(48 + (n as u8));
        proof {
            assert(final(out)@ =~= old(out)@ + dec_digits(n as nat));
        }
    } else {
        push_digits(out, n / 10);
        out.push(48 + ((n % 10) as u8));
        proof {
            assert(dec_digits(n as nat) == dec_digits((n as nat) / 10) + seq![
                (48 + (n as nat) % 10) as u8,
            ]);
            assert(final(out)@ =~= old(out)@ + dec_digits(n as nat));
        }
    }
}

/// Parse a canonical claims payload; `None` exactly when no claims tuple
/// (with an expiry a `usize` can hold) serializes to the input.
#[verifier::rlimit(100)]
pub fn parse_claims_json(v: &Vec<u8>) -> (r: Option<(Vec<u8>, UserRole, bool, usize)>)
    ensures
        match r {
            Some(t) => v@ == claims_json(t.0@, t.1, t.2, t.3 as nat),
            None => forall|s: Seq<u8>, role: UserRole, prem: bool, exp: nat|
                exp <= usize::MAX ==> v@ != claims_json(s, role, prem, exp),
        },
{
    // literal head
    if v.len() < 8 || v[0] != 123 || v[1] != 34 || v[2] != 115 || v[3] != 117 || v[4] != 98 || v[5]
        != 34 || v[6] != 58 || v[7] != 34 {
        proof {
            assert forall|s: Seq<u8>, role: UserRole, prem: bool, exp: nat|
                exp <= usize::MAX implies v@ != claims_json(s, role, prem, exp) by {
                if v@ == claims_json(s, role, prem, exp) {
                    lemma_canonical_fixed(v@, s, role, prem, exp);
                    assert(forall|j: int| 0 <= j < 8 ==> v@[j] == #[trigger] lit_sub()[j]) by {
                        assert(forall|j: int|
                            0 <= j < 8 ==> v@.subrange(0, 8)[j] == #[trigger] lit_sub()[j]);
                    }
                    assert(false);
                }
            }
        }
        return None;
    }
    // subject
    let scanned = scan_sub_exec(v, 8);
    proof {
        if scanned is None {
            assert forall|s: Seq<u8>, role: UserRole, prem: bool, exp: nat|
                exp <= usize::MAX implies v@ != claims_json(s, role, prem, exp) by {
                if v@ == claims_json(s, role, prem, exp) {
                    lemma_canonical_fixed(v@, s, role, prem, exp);
                    assert(false);
                }
            }
        }
    }
    let (sub, p) = match scanned {
        Some(x) => x,
        None => {
            return None;
        },
    };
    proof {
        lemma_scan_sound(v@, 8);
        // the claims fixed by the input: if the input is canonical at all,
        // the scan already pins the subject and the quote position.
        assert forall|s: Seq<u8>, role: UserRole, prem: bool, exp: nat|
            v@ == claims_json(s, role, prem, exp) implies s == sub@ && 8 + json_escape(s).len()
            == p as int by {
            lemma_canonical_fixed(v@, s, role, prem, exp);
        }
    }
    let shaped = parse_shape(v, p);
    proof {
        if shaped is None {
            assert forall|s: Seq<u8>, ro: UserRole, pr: bool, exp: nat|
                exp <= usize::MAX implies v@ != claims_json(s, ro, pr, exp) by {
                if v@ == claims_json(s, ro, pr, exp) {
                    assert(false);
                }
            }
        }
    }
    let (role, prem, x) = match shaped {
        Some(t) => t,
        None => {
            return None;
        },
    };
    proof {
        assert forall|s: Seq<u8>, ro: UserRole, pr: bool, exp: nat|
            v@ == claims_json(s, ro, pr, exp) implies ro == role && pr == prem && digits_region(
            v@,
            x as int,
            exp,
        ) by {}
    }
    if x >= v.len() || !is_digit(v[x]) {
        proof {
            assert forall|s: Seq<u8>, ro: UserRole, pr: bool, exp: nat|
                exp <= usize::MAX implies v@ != claims_json(s, ro, pr, exp) by {
                if v@ == claims_json(s, ro, pr, exp) {
                    assert(digits_region(v@, x as int, exp));
                    lemma_seq_at(v@, x as int, dec_digits(exp), 0);
                    lemma_dec_digits_are_digits(exp);
                    assert(false);
                }
            }
        }
        return None;
    }
    let (acc, y) = match scan_digits(v, x) {
        Some(t) => t,
        None => {
            proof {
                assert forall|s: Seq<u8>, ro: UserRole, pr: bool, exp: nat|
                    exp <= usize::MAX implies v@ != claims_json(s, ro, pr, exp) by {
                    if v@ == claims_json(s, ro, pr, exp) {
                        assert(digits_region(v@, x as int, exp));
                        assert(false);
                    }
                }
            }
            return None;
        },
    };
    // terminator
    if !(y < v.len() && v[y] == 125 && y + 1 == v.len()) {
        proof {
            assert forall|s: Seq<u8>, ro: UserRole, pr: bool, exp: nat|
                exp <= usize::MAX implies v@ != claims_json(s, ro, pr, exp) by {
                if v@ == claims_json(s, ro, pr, exp) {
                    assert(digits_region(v@, x as int, exp));
                    lemma_run_ends(v@, x as int, y as int, acc as nat, exp);
                    assert(false);
                }
            }
        }
        return None;
    }
    proof {
        assert forall|s: Seq<u8>, ro: UserRole, pr: bool, exp: nat|
            v@ == claims_json(s, ro, pr, exp) implies exp == acc as nat by {
            assert(digits_region(v@, x as int, exp));
            lemma_run_ends(v@, x as int, y as int, acc as nat, exp);
            lemma_dec_digits_injective(exp, acc as nat);
        }
        // assemble: the checked regions tile the whole input
        assert(v@.subrange(0, 8) =~= lit_sub());
        let q = p + 10 + role_bytes(role).len() as int;
        let w = q + 15 + bool_bytes(prem).len() as int;
        let sj = claims_json(sub@, role, prem, acc as nat);
        assert(v@ =~= sj) by {
            lemma_canonical_parts(v@, sub@, role, prem, acc as nat, p as int, q, w, x as int,
                y as int);
        }
    }
    Some((sub, role, prem, acc))
}

/// Parse the fixed middle of the layout, from the quote that ends the
/// subject: the role literal and value, the premium literal and value,
/// and the expiry literal; returns where the digits start.
#[verifier::rlimit(100)]
#[verifier::spinoff_prover]
fn parse_shape(v: &Vec<u8>, p: usize) -> (r: Option<(UserRole, bool, usize)>)
    requires
        p < v@.len(),
    ensures
        match r {
            Some(t) => ({
                let role = t.0;
                let prem = t.1;
                let x = t.2 as int;
                let q = p + 10 + role_bytes(role).len() as int;
                let w = q + 15 + bool_bytes(prem).len() as int;
                &&& w + 7 == x <= v@.len()
                &&& (forall|j: int| 0 <= j < 10 ==> v@[p + j] == #[trigger] lit_role()[j])
                &&& (forall|j: int|
                    0 <= j < role_bytes(role).len() ==> v@[p + 10 + j] == #[trigger] role_bytes(
                        role,
                    )[j])
                &&& (forall|j: int| 0 <= j < 15 ==> v@[q + j] == #[trigger] lit_prem()[j])
                &&& (forall|j: int|
                    0 <= j < bool_bytes(prem).len() ==> v@[q + 15 + j] == #[trigger] bool_bytes(
                        prem,
                    )[j])
                &&& (forall|j: int| 0 <= j < 7 ==> v@[w + j] == #[trigger] lit_exp()[j])
                &&& forall|s: Seq<u8>, ro: UserRole, pr: bool, exp: nat|
                    v@ == claims_json(s, ro, pr, exp) && 8 + json_escape(s).len() == p as int
                        ==> ro == role && pr == prem && digits_region(v@, x, exp)
            }),
            None => forall|s: Seq<u8>, ro: UserRole, pr: bool, exp: nat|
                8 + json_escape(s).len() == p as int ==> v@ != claims_json(s, ro, pr, exp),
        },
{
    if !(v.len() - p >= 10 && v[p] == 34 && v[p + 1] == 44 && v[p + 2] == 34 && v[p + 3] == 114
        && v[p + 4] == 111 && v[p + 5] == 108 && v[p + 6] == 101 && v[p + 7] == 34 && v[p + 8]
        == 58 && v[p + 9] == 34) {
        proof {
            assert forall|s: Seq<u8>, ro: UserRole, pr: bool, exp: nat|
                8 + json_escape(s).len() == p as int implies v@ != claims_json(s, ro, pr, exp) by {
                if v@ == claims_json(s, ro, pr, exp) {
                    lemma_canonical_fixed(v@, s, ro, pr, exp);
                    assert(false);
                }
            }
        }
        return None;
    }
    let (role, q) = if v.len() - p >= 14 && v[p + 10] == 85 && v[p + 11] == 115 && v[p + 12] == 101
        && v[p + 13] == 114 {
        (UserRole::User, p + 14)
    } else if v.len() - p >= 15 && v[p + 10] == 65 && v[p + 11] == 100 && v[p + 12] == 109 && v[p
        + 13] == 105 && v[p + 14] == 110 {
        (UserRole::Admin, p + 15)
    } else {
        proof {
            assert forall|s: Seq<u8>, ro: UserRole, pr: bool, exp: nat|
                8 + json_escape(s).len() == p as int implies v@ != claims_json(s, ro, pr, exp) by {
                if v@ == claims_json(s, ro, pr, exp) {
                    lemma_canonical_fixed(v@, s, ro, pr, exp);
                    assert(false);
                }
            }
        }
        return None;
    };
    if !(v.len() - q >= 15 && v[q] == 34 && v[q + 1] == 44 && v[q + 2] == 34 && v[q + 3] == 105
        && v[q + 4] == 115 && v[q + 5] == 95 && v[q + 6] == 112 && v[q + 7] == 114 && v[q + 8]
        == 101 && v[q + 9] == 109 && v[q + 10] == 105 && v[q + 11] == 117 && v[q + 12] == 109 && v[q
        + 13] == 34 && v[q + 14] == 58) {
        proof {
            assert forall|s: Seq<u8>, ro: UserRole, pr: bool, exp: nat|
                8 + json_escape(s).len() == p as int implies v@ != claims_json(s, ro, pr, exp) by {
                if v@ == claims_json(s, ro, pr, exp) {
                    lemma_canonical_fixed(v@, s, ro, pr, exp);
                    assert(false);
                }
            }
        }
        return None;
    }
    let (prem, w) = if v.len() - q >= 19 && v[q + 15] == 116 && v[q + 16] == 114 && v[q + 17]
        == 117 && v[q + 18] == 101 {
        (true, q + 19)
    } else if v.len() - q >= 20 && v[q + 15] == 102 && v[q + 16] == 97 && v[q + 17] == 108 && v[q
        + 18] == 115 && v[q + 19] == 101 {
        (false, q + 20)
    } else {
        proof {
            assert forall|s: Seq<u8>, ro: UserRole, pr: bool, exp: nat|
                8 + json_escape(s).len() == p as int implies v@ != claims_json(s, ro, pr, exp) by {
                if v@ == claims_json(s, ro, pr, exp) {
                    lemma_canonical_fixed(v@, s, ro, pr, exp);
                    assert(false);
                }
            }
        }
        return None;
    };
    if !(v.len() - w >= 7 && v[w] == 44 && v[w + 1] == 34 && v[w + 2] == 101 && v[w + 3] == 120
        && v[w + 4] == 112 && v[w + 5] == 34 && v[w + 6] == 58) {
        proof {
            assert forall|s: Seq<u8>, ro: UserRole, pr: bool, exp: nat|
                8 + json_escape(s).len() == p as int implies v@ != claims_json(s, ro, pr, exp) by {
                if v@ == claims_json(s, ro, pr, exp) {
                    lemma_canonical_fixed(v@, s, ro, pr, exp);
                    assert(false);
                }
            }
        }
        return None;
    }
    let x = w + 7;
    proof {
        assert forall|s: Seq<u8>, ro: UserRole, pr: bool, exp: nat|
            v@ == claims_json(s, ro, pr, exp) && 8 + json_escape(s).len() == p as int implies ro
            == role && pr == prem && digits_region(v@, x as int, exp) by {
            lemma_canonical_fixed(v@, s, ro, pr, exp);
        }
    }
    Some((role, prem, x))
}

/// Read the canonical decimal run that starts at `x`: its value and the
/// index just past it. `None` exactly when no expiry that a `usize` can
/// hold has its digit region here.
#[verifier::rlimit(100)]
fn scan_digits(v: &Vec<u8>, x: usize) -> (r: Option<(usize, usize)>)
    requires
        x < v@.len(),
        48 <= v@[x as int] <= 57,
    ensures
        match r {
            Some(t) => {
                &&& x < t.1 <= v@.len()
                &&& dec_digits(t.0 as nat) == v@.subrange(x as int, t.1 as int)
                &&& t.1 == v@.len() || !(48 <= v@[t.1 as int] <= 57)
            },
            None => forall|exp: nat|
                exp <= usize::MAX ==> !digits_region(v@, x as int, exp),
        },
{
    let vlen: usize = v.len();
    let mut acc: usize = (v[x] - 48) as usize;
    let mut y: usize = x + 1;
    proof {
        assert(dec_digits(acc as nat) =~= v@.subrange(x as int, y as int));
    }
    if v[x] == 48 {
        // a canonical zero is a single digit
        if y < v.len() && is_digit(v[y]) {
            proof {
                assert forall|exp: nat|
                    exp <= usize::MAX implies !digits_region(v@, x as int, exp) by {
                    if digits_region(v@, x as int, exp) {
                        lemma_seq_at(v@, x as int, dec_digits(exp), 0);
                        lemma_dec_digits_first(exp);
                        assert(exp < 10);
                        assert(dec_digits(exp).len() == 1);
                        assert(v@[x + 1] == 125);
                        assert(false);
                    }
                }
            }
            return None;
        }
        return Some((acc, y));
    }
    while y < v.len() && is_digit(v[y])
        invariant
            x < y <= v@.len(),
            acc >= 1,
            dec_digits(acc as nat) == v@.subrange(x as int, y as int),
        decreases v@.len() - y,
    {
        let d = v[y];
        let dval = (d - 48) as usize;
        if acc > (usize::MAX - dval) / 10 {
            proof {
                let m = (usize::MAX - dval) as nat;
                assert(m == (m / 10) * 10 + m % 10);
                assert((acc as nat) * 10 >= (m / 10 + 1) * 10) by (nonlinear_arith)
                    requires
                        acc as nat >= m / 10 + 1,
                {}
                assert((m / 10 + 1) * 10 == (m / 10) * 10 + 10);
                assert((acc as nat) * 10 + (dval as nat) > usize::MAX);
                assert(dval as int == v@[y as int] - 48);
                assert forall|exp: nat|
                    exp <= usize::MAX implies !digits_region(v@, x as int, exp) by {
                    if digits_region(v@, x as int, exp) {
                        lemma_overflow_contra(v@, x as int, y as int, acc as nat, exp);
                        assert(false);
                    }
                }
            }
            return None;
        }
        proof {
            assert(acc * 10 <= usize::MAX - dval) by (nonlinear_arith)
                requires
                    acc <= (usize::MAX - dval) / 10,
                    acc >= 0,
                    dval <= usize::MAX,
            {}
        }
        let new_acc: usize = acc * 10 + dval;
        proof {
            let na = new_acc as nat;
            assert(na >= 10);
            assert(na / 10 == acc as nat && na % 10 == dval as nat) by (nonlinear_arith)
                requires
                    na == (acc as nat) * 10 + (dval as nat),
                    dval < 10,
            {}
            assert(dec_digits(na) == dec_digits(acc as nat) + seq![(48 + na % 10) as u8]);
            assert(dec_digits(na) =~= v@.subrange(x as int, y + 1));
        }
        acc = new_acc;
        y = y + 1;
    }
    Some((acc, y))
}

/// Every byte the canonical layout pins, flattened: where each literal
/// byte sits, relative to the scan position, for a canonical input.
#[verifier::rlimit(100)]
#[verifier::spinoff_prover]
proof fn lemma_canonical_fixed(v: Seq<u8>, s: Seq<u8>, role: UserRole, prem: bool, exp: nat)
    requires
        v == claims_json(s, role, prem, exp),
    ensures
        ({
            let p = 8 + json_escape(s).len() as int;
            let q = p + 10 + role_bytes(role).len() as int;
            let w = q + 15 + bool_bytes(prem).len() as int;
            let x = w + 7;
            let n = dec_digits(exp).len() as int;
            &&& v.len() == x + n + 1
            &&& v.subrange(0, 8) == lit_sub()
            &&& scan_sub(v, 8) == Some((s, p))
            &&& v[p] == 34 && v[p + 1] == 44 && v[p + 2] == 34 && v[p + 3] == 114 && v[p + 4]
                == 111 && v[p + 5] == 108 && v[p + 6] == 101 && v[p + 7] == 34 && v[p + 8] == 58
                && v[p + 9] == 34
            &&& role is User ==> v[p + 10] == 85 && v[p + 11] == 115 && v[p + 12] == 101 && v[p
                + 13] == 114
            &&& role is Admin ==> v[p + 10] == 65 && v[p + 11] == 100 && v[p + 12] == 109 && v[p
                + 13] == 105 && v[p + 14] == 110
            &&& v[q] == 34 && v[q + 1] == 44 && v[q + 2] == 34 && v[q + 3] == 105 && v[q + 4]
                == 115 && v[q + 5] == 95 && v[q + 6] == 112 && v[q + 7] == 114 && v[q + 8] == 101
                && v[q + 9] == 109 && v[q + 10] == 105 && v[q + 11] == 117 && v[q + 12] == 109
                && v[q + 13] == 34 && v[q + 14] == 58
            &&& prem ==> v[q + 15] == 116 && v[q + 16] == 114 && v[q + 17] == 117 && v[q + 18]
                == 101
            &&& !prem ==> v[q + 15] == 102 && v[q + 16] == 97 && v[q + 17] == 108 && v[q + 18]
                == 115 && v[q + 19] == 101
            &&& v[w] == 44 && v[w + 1] == 34 && v[w + 2] == 101 && v[w + 3] == 120 && v[w + 4]
                == 112 && v[w + 5] == 34 && v[w + 6] == 58
            &&& digits_region(v, x, exp)
            &&& 48 <= v[x] <= 57
            &&& exp >= 10 ==> v[x] != 48
            &&& exp < 10 ==> n == 1 && v[x + 1] == 125
        }),
{
    lemma_canonical_structure(v, s, role, prem, exp);
    let p = 8 + json_escape(s).len() as int;
    let q = p + 10 + role_bytes(role).len() as int;
    let w = q + 15 + bool_bytes(prem).len() as int;
    let x = w + 7;
    seq_at_all(v, p, lit_role());
    seq_at_all(v, q, lit_prem());
    seq_at_all(v, w, lit_exp());
    seq_at_all(v, p + 10, role_bytes(role));
    seq_at_all(v, q + 15, bool_bytes(prem));
    seq_at_all(v, x, dec_digits(exp));
    lemma_dec_digits_are_digits(exp);
    lemma_dec_digits_first(exp);
    assert(v[x + 0] == dec_digits(exp)[0]);
    assert(48 <= dec_digits(exp)[0] <= 57);
}

/// All bytes of an equal subrange, read out at once.
proof fn seq_at_all(v: Seq<u8>, a: int, w: Seq<u8>)
    requires
        0 <= a,
        a + w.len() <= v.len(),
        v.subrange(a, a + w.len() as int) == w,
    ensures
        forall|k: int| 0 <= k < w.len() ==> v[a + k] == #[trigger] w[k],
{
    assert forall|k: int| 0 <= k < w.len() implies v[a + k] == #[trigger] w[k] by {
        assert(v.subrange(a, a + w.len() as int)[k] == v[a + k]);
    }
}

/// Reading one byte out of an equal subrange.
proof fn lemma_seq_at(v: Seq<u8>, a: int, w: Seq<u8>, k: int)
    requires
        0 <= a,
        a + w.len() <= v.len(),
        v.subrange(a, a + w.len() as int) == w,
        0 <= k < w.len(),
    ensures
        v[a + k] == w[k],
{
    assert(v.subrange(a, a + w.len() as int)[k] == v[a + k]);
}

/// The expiry region of a canonical layout at `at`: its digits, then the
/// closing brace ending the input.
pub open spec fn digits_region(v: Seq<u8>, at: int, exp: nat) -> bool {
    &&& 0 <= at
    &&& at + dec_digits(exp).len() + 1 == v.len()
    &&& v.subrange(at, at + dec_digits(exp).len() as int) == dec_digits(exp)
    &&& v[at + dec_digits(exp).len()] == 125
}

/// If the scanned digits so far are a strict prefix of the expiry digits,
/// one more digit would push past `usize::MAX`.
proof fn lemma_overflow_contra(v: Seq<u8>, x: int, y: int, acc: nat, exp: nat)
    requires
        digits_region(v, x, exp),
        x < y < v.len(),
        dec_digits(acc) == v.subrange(x, y),
        48 <= v[y] <= 57,
        acc * 10 + (v[y] - 48) > usize::MAX,
    ensures
        exp > usize::MAX,
{
    let n = dec_digits(exp).len() as int;
    lemma_dec_digits_are_digits(exp);
    lemma_dec_digits_are_digits(acc);
    assert(dec_digits(acc).len() == y - x);
    // y lies strictly inside the digit run: the byte after the run is 125.
    assert(y - x < n) by {
        if y - x >= n {
            assert(v[x + n] == 125);
            if x + n < y {
                assert(dec_digits(acc)[n] == v.subrange(x, y)[n]);
                assert(v.subrange(x, y)[n] == v[x + n]);
                assert(48 <= dec_digits(acc)[n] <= 57);
                assert(false);
            } else {
                assert(x + n == y);
                assert(false);
            }
        }
    }
    let rest = dec_digits(exp).subrange(y - x + 1, n);
    assert(dec_digits(exp) =~= dec_digits(acc) + seq![v[y]] + rest) by {
        assert forall|j: int| 0 <= j < y - x implies dec_digits(exp)[j] == dec_digits(acc)[j] by {
            assert(dec_digits(exp)[j] == v.subrange(x, x + n)[j]);
            assert(v.subrange(x, x + n)[j] == v[x + j]);
            assert(dec_digits(acc)[j] == v.subrange(x, y)[j]);
            assert(v.subrange(x, y)[j] == v[x + j]);
        }
        assert(dec_digits(exp)[y - x] == v.subrange(x, x + n)[y - x]);
        assert(v.subrange(x, x + n)[y - x] == v[x + (y - x)]);
    }
    lemma_digits_prefix_value(exp, acc, v[y], rest);
    assert(exp >= acc * 10 + (v[y] - 48));
}

/// When the digit scan stops (next byte is no digit, or the input ends),
/// the scanned digits are the whole expiry run, so the stop byte is the
/// closing brace at the very end.
proof fn lemma_run_ends(v: Seq<u8>, x: int, y: int, acc: nat, exp: nat)
    requires
        digits_region(v, x, exp),
        x < y <= v.len(),
        dec_digits(acc) == v.subrange(x, y),
        y == v.len() || !(48 <= v[y] <= 57),
    ensures
        y - x == dec_digits(exp).len(),
        dec_digits(exp) == dec_digits(acc),
        y + 1 == v.len(),
        v[y] == 125,
{
    let n = dec_digits(exp).len() as int;
    lemma_dec_digits_are_digits(exp);
    lemma_dec_digits_are_digits(acc);
    assert(dec_digits(acc).len() == y - x);
    if y - x < n {
        assert(dec_digits(exp)[y - x] == v.subrange(x, x + n)[y - x]);
        assert(v.subrange(x, x + n)[y - x] == v[x + (y - x)]);
        assert(48 <= dec_digits(exp)[y - x] <= 57);
        assert(x + n == v.len() - 1);
        assert(y < v.len());
        assert(false);
    }
    if y - x > n {
        assert(dec_digits(acc)[n] == v.subrange(x, y)[n]);
        assert(v.subrange(x, y)[n] == v[x + n]);
        assert(48 <= dec_digits(acc)[n] <= 57);
        assert(v[x + n] == 125);
        assert(false);
    }
    assert(dec_digits(exp) =~= v.subrange(x, y)) by {
        assert(v.subrange(x, x + n) =~= v.subrange(x, y));
    }
}

/// The checked regions, laid end to end, are exactly the canonical
/// serialization.
proof fn lemma_canonical_parts(
    v: Seq<u8>,
    s: Seq<u8>,
    role: UserRole,
    prem: bool,
    exp: nat,
    p: int,
    q: int,
    w: int,
    x: int,
    y: int,
)
    requires
        v.len() == y + 1,
        8 <= p,
        v.subrange(0, 8) == lit_sub(),
        v.subrange(8, p) == json_escape(s),
        p + 10 + role_bytes(role).len() == q,
        q <= v.len(),
        forall|j: int| 0 <= j < 10 ==> v[p + j] == #[trigger] lit_role()[j],
        forall|j: int| 0 <= j < role_bytes(role).len() ==> v[p + 10 + j] == #[trigger] role_bytes(
            role,
        )[j],
        q + 15 + bool_bytes(prem).len() == w,
        w <= v.len(),
        forall|j: int| 0 <= j < 15 ==> v[q + j] == #[trigger] lit_prem()[j],
        forall|j: int| 0 <= j < bool_bytes(prem).len() ==> v[q + 15 + j] == #[trigger] bool_bytes(
            prem,
        )[j],
        w + 7 == x,
        x <= v.len(),
        forall|j: int| 0 <= j < 7 ==> v[w + j] == #[trigger] lit_exp()[j],
        x < y,
        v.subrange(x, y) == dec_digits(exp),
        v[y] == 125,
    ensures
        v == claims_json(s, role, prem, exp),
{
    assert(v =~= claims_json(s, role, prem, exp)) by {
        reveal(claims_json);
        assert(claims_json(s, role, prem, exp).len() == y + 1);
        assert forall|j: int| 0 <= j < v.len() implies v[j] == claims_json(s, role, prem, exp)[j]
            by {
            let c = claims_json(s, role, prem, exp);
            if j < 8 {
                assert(v.subrange(0, 8)[j] == v[j]);
            } else if j < p {
                assert(v.subrange(8, p)[j - 8] == v[j]);
            } else if j < p + 10 {
            } else if j < q {
            } else if j < q + 15 {
            } else if j < w {
            } else if j < x {
            } else if j < y {
                assert(v.subrange(x, y)[j - x] == v[j]);
            } else {
            }
        }
    }
}

fn hex_val_byte(b: u8) -> (r: u8)
    ensures
        r as int == hex_val(b),
        r <= 16,
{
    if 48 <= b && b <= 57 {
        b - 48
    } else if 97 <= b && b <= 102 {
        b - 97 + 10
    } else {
        16
    }
}

fn hex_digit_byte(n: u8) -> (r: u8)
    requires
        n < 16,
    ensures
        r == hex_digit(n as int),
{
    if n < 10 {
        48 + n
    } else {
        87 + n
    }
}

/// Executable form of [`scan_sub`].
fn scan_sub_exec(v: &Vec<u8>, i: usize) -> (r: Option<(Vec<u8>, usize)>)
    requires
        i <= v@.len(),
    ensures
        match r {
            Some(t) => scan_sub(v@, i as int) == Some((t.0@, t.1 as int)) && i <= t.1 < v@.len(),
            None => scan_sub(v@, i as int) is None,
        },
    decreases v@.len() - i,
{
    proof {
        reveal(scan_sub);
    }
    if i >= v.len() {
        return None;
    }
    let b = v[i];
    if b == 34 {
        Some((Vec::new(), i))
    } else if b == 92 {
        if i + 1 < v.len() && (v[i + 1] == 34 || v[i + 1] == 92 || v[i + 1] == 98 || v[i + 1]
            == 116 || v[i + 1] == 110 || v[i + 1] == 102 || v[i + 1] == 114) {
            let c = v[i + 1];
            let unescaped: u8 = if c == 34 || c == 92 {
                c
            } else if c == 98 {
                8
            } else if c == 116 {
                9
            } else if c == 110 {
                10
            } else if c == 102 {
                12
            } else {
                13
            };
            match scan_sub_exec(v, i + 2) {
                Some(t) => {
                    let out = prepend_byte(unescaped, t.0);
                    Some((out, t.1))
                },
                None => None,
            }
        } else if v.len() - i > 5 && v[i + 1] == 117 && v[i + 2] == 48 && v[i + 3] == 48 {
            let hv = hex_val_byte(v[i + 4]);
            let lv = hex_val_byte(v[i + 5]);
            if hv < 16 && lv < 16 {
                let value: u8 = hv * 16 + lv;
                if value < 32 && value != 8 && value != 9 && value != 10 && value != 12 && value
                    != 13 {
                    match scan_sub_exec(v, i + 6) {
                        Some(t) => {
                            let out = prepend_byte(value, t.0);
                            Some((out, t.1))
                        },
                        None => None,
                    }
                } else {
                    None
                }
            } else {
                None
            }
        } else {
            None
        }
    } else if b < 32 {
        None
    } else {
        match scan_sub_exec(v, i + 1) {
            Some(t) => {
                let out = prepend_byte(b, t.0);
                Some((out, t.1))
            },
            None => None,
        }
    }
}

fn prepend_byte(b: u8, rest: Vec<u8>) -> (r: Vec<u8>)
    ensures
        r@ == seq![b] + rest@,
{
    let mut out: Vec<u8> = Vec::new();
    out.push(b);
    proof {
        assert(out@ =~= seq![b] + rest@.subrange(0, 0));
    }
    let mut k: usize = 0;
    while k < rest.len()
        invariant
            k <= rest.len(),
            out@ == seq![b] + rest@.subrange(0, k as int),
        decreases rest.len() - k,
    {
        out.push(rest[k]);
        proof {
            assert(seq![b] + rest@.subrange(0, k as int) + seq![rest@[k as int]] =~= seq![b]
                + rest@.subrange(0, k + 1));
        }
        k = k + 1;
    }
    proof {
        assert(rest@.subrange(0, rest@.len() as int) =~= rest@);
    }
    out
}


} // verus!
