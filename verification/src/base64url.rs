//! URL-safe base64 without padding: the wire alphabet of the token segments.
//!
//! `b64_encode` is the specification of the encoding; the executable
//! encoder produces exactly it, and the decoder accepts exactly its image.
use vstd::prelude::*;

verus! {

/// The base64url alphabet: digit value `n` (0..64) to its ASCII byte.
pub open spec fn b64_digit(n: int) -> u8 {
    if 0 <= n < 26 {
        (65 + n) as u8  // 'A'..'Z'
    } else if 26 <= n < 52 {
        (97 + n - 26) as u8  // 'a'..'z'
    } else if 52 <= n < 62 {
        (48 + n - 52) as u8  // '0'..'9'
    } else if n == 62 {
        45u8  // '-'
    } else {
        95u8  // '_'
    }
}

/// Value of an alphabet byte; 64 when the byte is not in the alphabet.
pub open spec fn b64_val(b: u8) -> int {
    if 65 <= b <= 90 {
        b - 65
    } else if 97 <= b <= 122 {
        b - 97 + 26
    } else if 48 <= b <= 57 {
        b - 48 + 52
    } else if b == 45 {
        62
    } else if b == 95 {
        63
    } else {
        64
    }
}

pub open spec fn is_b64_byte(b: u8) -> bool {
    b64_val(b) < 64
}

/// Four digits for a full group of three bytes.
pub open spec fn b64_group(b0: u8, b1: u8, b2: u8) -> Seq<u8> {
    seq![
        b64_digit(b0 as int / 4),
        b64_digit((b0 % 4) * 16 + b1 / 16),
        b64_digit((b1 % 16) * 4 + b2 / 64),
        b64_digit(b2 as int % 64),
    ]
}

/// Two digits for a final single byte.
pub open spec fn b64_tail1(b0: u8) -> Seq<u8> {
    seq![b64_digit(b0 as int / 4), b64_digit((b0 % 4) * 16)]
}

/// Three digits for a final pair of bytes.
pub open spec fn b64_tail2(b0: u8, b1: u8) -> Seq<u8> {
    seq![b64_digit(b0 as int / 4), b64_digit((b0 % 4) * 16 + b1 / 16), b64_digit((b1 % 16) * 4)]
}

/// The canonical unpadded base64url encoding of a byte sequence.
pub open spec fn b64_encode(s: Seq<u8>) -> Seq<u8>
    decreases s.len(),
{
    if s.len() == 0 {
        Seq::empty()
    } else if s.len() == 1 {
        b64_tail1(s[0])
    } else if s.len() == 2 {
        b64_tail2(s[0], s[1])
    } else {
        b64_group(s[0], s[1], s[2]) + b64_encode(s.subrange(3, s.len() as int))
    }
}

pub proof fn lemma_val_of_digit(n: int)
    requires
        0 <= n < 64,
    ensures
        b64_val(b64_digit(n)) == n,
        is_b64_byte(b64_digit(n)),
{
}

pub proof fn lemma_digit_of_val(b: u8)
    requires
        is_b64_byte(b),
    ensures
        b64_digit(b64_val(b)) == b,
{
}

/// Every byte of an encoding lies in the alphabet.
pub proof fn lemma_encode_all_digits(s: Seq<u8>)
    ensures
        forall|j: int| 0 <= j < b64_encode(s).len() ==> is_b64_byte(#[trigger] b64_encode(s)[j]),
    decreases s.len(),
{
    if s.len() == 0 {
    } else if s.len() == 1 {
        lemma_val_of_digit(s[0] as int / 4);
        lemma_val_of_digit((s[0] % 4) * 16);
    } else if s.len() == 2 {
        lemma_val_of_digit(s[0] as int / 4);
        lemma_val_of_digit((s[0] % 4) * 16 + s[1] / 16);
        lemma_val_of_digit((s[1] % 16) * 4);
    } else {
        lemma_val_of_digit(s[0] as int / 4);
        lemma_val_of_digit((s[0] % 4) * 16 + s[1] / 16);
        lemma_val_of_digit((s[1] % 16) * 4 + s[2] / 64);
        lemma_val_of_digit(s[2] as int % 64);
        lemma_encode_all_digits(s.subrange(3, s.len() as int));
        assert forall|j: int| 0 <= j < b64_encode(s).len() implies is_b64_byte(
            #[trigger] b64_encode(s)[j],
        ) by {
            if j >= 4 {
                assert(b64_encode(s)[j] == b64_encode(s.subrange(3, s.len() as int))[j - 4]);
            }
        }
    }
}

/// Length of an encoding: 3k bytes give 4k digits, a tail of 1 gives 2 more,
/// a tail of 2 gives 3 more.
pub proof fn lemma_encode_len(s: Seq<u8>)
    ensures
        s.len() % 3 == 0 ==> b64_encode(s).len() == 4 * (s.len() / 3),
        s.len() % 3 == 1 ==> b64_encode(s).len() == 4 * (s.len() / 3) + 2,
        s.len() % 3 == 2 ==> b64_encode(s).len() == 4 * (s.len() / 3) + 3,
    decreases s.len(),
{
    if s.len() >= 3 {
        lemma_encode_len(s.subrange(3, s.len() as int));
    }
}

/// An encoding never has length 1 more than a multiple of 4.
pub proof fn lemma_encode_len_mod(s: Seq<u8>)
    ensures
        b64_encode(s).len() % 4 != 1,
{
    lemma_encode_len(s);
}

/// Encoding distributes over concatenation at group boundaries.
pub proof fn lemma_encode_concat(a: Seq<u8>, b: Seq<u8>)
    requires
        a.len() % 3 == 0,
    ensures
        b64_encode(a + b) == b64_encode(a) + b64_encode(b),
    decreases a.len(),
{
    if a.len() == 0 {
        assert(a + b =~= b);
        assert(b64_encode(a) + b64_encode(b) =~= b64_encode(b));
    } else {
        let ab = a + b;
        assert(ab.len() >= 3);
        assert(ab[0] == a[0] && ab[1] == a[1] && ab[2] == a[2]);
        let a2 = a.subrange(3, a.len() as int);
        assert(ab.subrange(3, ab.len() as int) =~= a2 + b);
        lemma_encode_concat(a2, b);
        assert(b64_encode(a) == b64_group(a[0], a[1], a[2]) + b64_encode(a2));
        assert(b64_encode(ab) =~= b64_encode(a) + b64_encode(b));
    }
}


/// Exact quotient/remainder identities behind the 6-bit regrouping.
proof fn lemma_regroup(d0: u8, d1: u8, d2: u8, d3: u8)
    requires
        d0 < 64,
        d1 < 64,
        d2 < 64,
        d3 < 64,
    ensures
        (d0 * 4 + d1 / 16) / 4 == d0,
        (d0 * 4 + d1 / 16) % 4 == d1 / 16,
        ((d1 % 16) * 16 + d2 / 4) / 16 == d1 % 16,
        ((d1 % 16) * 16 + d2 / 4) % 16 == d2 / 4,
        ((d2 % 4) * 64 + d3) / 64 == d2 % 4,
        ((d2 % 4) * 64 + d3) % 64 == d3,
        (d1 / 16) * 16 + d1 % 16 == d1,
        (d2 / 4) * 4 + d2 % 4 == d2,
{
    vstd::arithmetic::div_mod::lemma_fundamental_div_mod(d1 as int, 16);
    vstd::arithmetic::div_mod::lemma_fundamental_div_mod(d2 as int, 4);
    vstd::arithmetic::div_mod::lemma_fundamental_div_mod_converse(
        d0 * 4 + d1 as int / 16, 4, d0 as int, d1 as int / 16,
    );
    vstd::arithmetic::div_mod::lemma_fundamental_div_mod_converse(
        (d1 as int % 16) * 16 + d2 as int / 4, 16, d1 as int % 16, d2 as int / 4,
    );
    vstd::arithmetic::div_mod::lemma_fundamental_div_mod_converse(
        (d2 as int % 4) * 64 + d3 as int, 64, d2 as int % 4, d3 as int,
    );
}

/// Exact quotient/remainder identities behind splitting three bytes into
/// four digit values.
proof fn lemma_split_bytes(b0: u8, b1: u8, b2: u8)
    ensures
        b0 / 4 < 64,
        (b0 % 4) * 16 + b1 / 16 < 64,
        (b1 % 16) * 4 + b2 / 64 < 64,
        b2 % 64 < 64,
        ((b0 % 4) * 16 + b1 / 16) / 16 == b0 % 4,
        ((b0 % 4) * 16 + b1 / 16) % 16 == b1 / 16,
        ((b1 % 16) * 4 + b2 / 64) / 4 == b1 % 16,
        ((b1 % 16) * 4 + b2 / 64) % 4 == b2 / 64,
        (b0 / 4) * 4 + b0 % 4 == b0,
        (b1 / 16) * 16 + b1 % 16 == b1,
        (b2 / 64) * 64 + b2 % 64 == b2,
{
    vstd::arithmetic::div_mod::lemma_fundamental_div_mod(b0 as int, 4);
    vstd::arithmetic::div_mod::lemma_fundamental_div_mod(b1 as int, 16);
    vstd::arithmetic::div_mod::lemma_fundamental_div_mod(b2 as int, 64);
    vstd::arithmetic::div_mod::lemma_fundamental_div_mod_converse(
        (b0 as int % 4) * 16 + b1 as int / 16, 16, b0 as int % 4, b1 as int / 16,
    );
    vstd::arithmetic::div_mod::lemma_fundamental_div_mod_converse(
        (b1 as int % 16) * 4 + b2 as int / 64, 4, b1 as int % 16, b2 as int / 64,
    );
}

fn b64_digit_byte(n: u8) -> (r: u8)
    requires
        n < 64,
    ensures
        r == b64_digit(n as int),
{
    if n < 26 {
        65 + n
    } else if n < 52 {
        97 + (n - 26)
    } else if n < 62 {
        48 + (n - 52)
    } else if n == 62 {
        45
    } else {
        95
    }
}

fn b64_val_byte(b: u8) -> (r: u8)
    ensures
        r as int == b64_val(b),
        r <= 64,
{
    if 65 <= b && b <= 90 {
        b - 65
    } else if 97 <= b && b <= 122 {
        b - 97 + 26
    } else if 48 <= b && b <= 57 {
        b - 48 + 52
    } else if b == 45 {
        62
    } else if b == 95 {
        63
    } else {
        64
    }
}

/// Encode bytes as unpadded base64url.
pub fn base64url_encode(s: &Vec<u8>) -> (r: Vec<u8>)
    ensures
        r@ == b64_encode(s@),
{
    let mut out: Vec<u8> = Vec::new();
    let mut i: usize = 0;
    while s.len() - i >= 3
        invariant
            i % 3 == 0,
            i <= s.len(),
            out@ == b64_encode(s@.subrange(0, i as int)),
        decreases s.len() - i,
    {
        let b0 = s[i];
        let b1 = s[i + 1];
        let b2 = s[i + 2];
        out.push(b64_digit_byte(b0 / 4));
        out.push(b64_digit_byte((b0 % 4) * 16 + b1 / 16));
        out.push(b64_digit_byte((b1 % 16) * 4 + b2 / 64));
        out.push(b64_digit_byte(b2 % 64));
        proof {
            let pre = s@.subrange(0, i as int);
            let grp = s@.subrange(i as int, i + 3);
            lemma_encode_concat(pre, grp);
            assert(pre + grp =~= s@.subrange(0, i + 3));
            assert(b64_encode(grp) =~= b64_group(s@[i as int], s@[i + 1], s@[i + 2]) + b64_encode(
                grp.subrange(3, 3),
            ));
            assert(b64_encode(grp.subrange(3, 3)) =~= Seq::<u8>::empty());
            assert(out@ =~= b64_encode(s@.subrange(0, i + 3)));
        }
        i = i + 3;
    }
    proof {
        let pre = s@.subrange(0, i as int);
        let tail = s@.subrange(i as int, s@.len() as int);
        lemma_encode_concat(pre, tail);
        assert(pre + tail =~= s@);
    }
    if s.len() - i == 1 {
        let b0 = s[i];
        out.push(b64_digit_byte(b0 / 4));
        out.push(b64_digit_byte((b0 % 4) * 16));
        proof {
            let tail = s@.subrange(i as int, s@.len() as int);
            assert(tail.len() == 1);
            assert(tail[0] == s@[i as int]);
            assert(out@ =~= b64_encode(s@.subrange(0, i as int)) + b64_tail1(s@[i as int]));
        }
    } else if s.len() - i == 2 {
        let b0 = s[i];
        let b1 = s[i + 1];
        out.push(b64_digit_byte(b0 / 4));
        out.push(b64_digit_byte((b0 % 4) * 16 + b1 / 16));
        out.push(b64_digit_byte((b1 % 16) * 4));
        proof {
            let tail = s@.subrange(i as int, s@.len() as int);
            assert(tail.len() == 2);
            assert(tail[0] == s@[i as int] && tail[1] == s@[i + 1]);
            assert(out@ =~= b64_encode(s@.subrange(0, i as int)) + b64_tail2(
                s@[i as int],
                s@[i + 1],
            ));
        }
    } else {
        proof {
            assert(s@.subrange(i as int, s@.len() as int).len() == 0);
            assert(out@ =~= b64_encode(s@));
        }
    }
    out
}

/// Decode unpadded base64url; `None` exactly when no byte sequence encodes
/// to the input.
pub fn base64url_decode(v: &Vec<u8>) -> (r: Option<Vec<u8>>)
    ensures
        match r {
            Some(b) => v@ == b64_encode(b@),
            None => forall|b: Seq<u8>| v@ != b64_encode(b),
        },
{
    if v.len() % 4 == 1 {
        proof {
            assert forall|b: Seq<u8>| v@ != b64_encode(b) by {
                lemma_encode_len_mod(b);
            }
        }
        return None;
    }
    let mut out: Vec<u8> = Vec::new();
    let mut i: usize = 0;
    let full: usize = (v.len() / 4) * 4;
    while full - i >= 4
        invariant
            i % 4 == 0,
            i <= full,
            full == (v@.len() / 4) * 4,
            full <= v@.len(),
            out@.len() % 3 == 0,
            b64_encode(out@) == v@.subrange(0, i as int),
        decreases full - i,
    {
        let d0 = b64_val_byte(v[i]);
        let d1 = b64_val_byte(v[i + 1]);
        let d2 = b64_val_byte(v[i + 2]);
        let d3 = b64_val_byte(v[i + 3]);
        if d0 == 64 || d1 == 64 || d2 == 64 || d3 == 64 {
            proof {
                let j: int = if d0 == 64 {
                    i as int
                } else if d1 == 64 {
                    i + 1
                } else if d2 == 64 {
                    i + 2
                } else {
                    i + 3
                };
                assert(!is_b64_byte(v@[j]));
                assert forall|b: Seq<u8>| v@ != b64_encode(b) by {
                    if v@ == b64_encode(b) {
                        lemma_encode_all_digits(b);
                        assert(is_b64_byte(b64_encode(b)[j]));
                        assert(false);
                    }
                }
            }
            return None;
        }
        let y0 = d0 * 4 + d1 / 16;
        let y1 = (d1 % 16) * 16 + d2 / 4;
        let y2 = (d2 % 4) * 64 + d3;
        let ghost pre = out@;
        out.push(y0);
        out.push(y1);
        out.push(y2);
        proof {
            let grp = seq![y0, y1, y2];
            assert(out@ =~= pre + grp);
            lemma_encode_concat(pre, grp);
            lemma_digit_of_val(v@[i as int]);
            lemma_digit_of_val(v@[i + 1]);
            lemma_digit_of_val(v@[i + 2]);
            lemma_digit_of_val(v@[i + 3]);
            assert(b64_encode(grp) =~= b64_group(y0, y1, y2) + b64_encode(grp.subrange(3, 3)));
            assert(b64_encode(grp.subrange(3, 3)) =~= Seq::<u8>::empty());
            lemma_regroup(d0, d1, d2, d3);
            assert(y0 / 4 == d0 && (y0 % 4) * 16 + y1 / 16 == d1 && (y1 % 16) * 4 + y2 / 64 == d2
                && y2 % 64 == d3);
            assert(b64_encode(grp) =~= v@.subrange(i as int, i + 4));
            assert(b64_encode(out@) =~= v@.subrange(0, i + 4)) by {
                assert(v@.subrange(0, i as int) + v@.subrange(i as int, i + 4) =~= v@.subrange(
                    0,
                    i + 4,
                ));
            }
        }
        i = i + 4;
    }
    let rem = v.len() - full;
    if rem == 0 {
        proof {
            assert(v@.subrange(0, i as int) =~= v@);
        }
        Some(out)
    } else if rem == 2 {
        let d0 = b64_val_byte(v[i]);
        let d1 = b64_val_byte(v[i + 1]);
        if d0 == 64 || d1 == 64 || d1 % 16 != 0 {
            proof {
                assert forall|b: Seq<u8>| v@ != b64_encode(b) by {
                    if v@ == b64_encode(b) {
                        lemma_tail_shape(b, v@, out@, i as int);
                        assert(false);
                    }
                }
            }
            return None;
        }
        let y0 = d0 * 4 + d1 / 16;
        let ghost pre = out@;
        out.push(y0);
        proof {
            let tl = seq![y0];
            assert(out@ =~= pre + tl);
            lemma_encode_concat(pre, tl);
            lemma_digit_of_val(v@[i as int]);
            lemma_digit_of_val(v@[i + 1]);
            lemma_regroup(d0, d1, 0, 0);
            assert(y0 / 4 == d0 && (y0 % 4) * 16 == d1);
            assert(b64_encode(tl) =~= v@.subrange(i as int, i + 2));
            assert(b64_encode(out@) =~= v@) by {
                assert(v@.subrange(0, i as int) + v@.subrange(i as int, i + 2) =~= v@);
            }
        }
        Some(out)
    } else {
        let d0 = b64_val_byte(v[i]);
        let d1 = b64_val_byte(v[i + 1]);
        let d2 = b64_val_byte(v[i + 2]);
        if d0 == 64 || d1 == 64 || d2 == 64 || d2 % 4 != 0 {
            proof {
                assert forall|b: Seq<u8>| v@ != b64_encode(b) by {
                    if v@ == b64_encode(b) {
                        lemma_tail_shape(b, v@, out@, i as int);
                        assert(false);
                    }
                }
            }
            return None;
        }
        let y0 = d0 * 4 + d1 / 16;
        let y1 = (d1 % 16) * 16 + d2 / 4;
        let ghost pre = out@;
        out.push(y0);
        out.push(y1);
        proof {
            let tl = seq![y0, y1];
            assert(out@ =~= pre + tl);
            lemma_encode_concat(pre, tl);
            lemma_digit_of_val(v@[i as int]);
            lemma_digit_of_val(v@[i + 1]);
            lemma_digit_of_val(v@[i + 2]);
            lemma_regroup(d0, d1, d2, 0);
            assert(y0 / 4 == d0 && (y0 % 4) * 16 + y1 / 16 == d1 && (y1 % 16) * 4 == d2);
            assert(b64_encode(tl) =~= v@.subrange(i as int, i + 3));
            assert(b64_encode(out@) =~= v@) by {
                assert(v@.subrange(0, i as int) + v@.subrange(i as int, i + 3) =~= v@);
            }
        }
        Some(out)
    }
}

/// If an encoding of `b` equals `v`, and `v`'s first `i` digits (a multiple
/// of 4) encode `pre`, then the remaining digits of `v` are the encoding of
/// the rest of `b`; the final partial group then has the canonical shape
/// (valid digits, zero trailing bits).
proof fn lemma_tail_shape(b: Seq<u8>, v: Seq<u8>, pre: Seq<u8>, i: int)
    requires
        v == b64_encode(b),
        0 <= i <= v.len(),
        i % 4 == 0,
        pre.len() % 3 == 0,
        b64_encode(pre) == v.subrange(0, i),
        v.len() - i == 2 || v.len() - i == 3,
    ensures
        v.len() - i == 2 ==> {
            &&& is_b64_byte(v[i])
            &&& is_b64_byte(v[i + 1])
            &&& b64_val(v[i + 1]) % 16 == 0
        },
        v.len() - i == 3 ==> {
            &&& is_b64_byte(v[i])
            &&& is_b64_byte(v[i + 1])
            &&& is_b64_byte(v[i + 2])
            &&& b64_val(v[i + 2]) % 4 == 0
        },
{
    lemma_encode_len(b);
    lemma_encode_len(pre);
    // pre's encoding is a prefix of b's, so pre is a prefix of b of length 3*(i/4).
    let k = pre.len() as int;
    let bk = b.subrange(0, k);
    lemma_encode_prefix(b, pre);
    let tail = b.subrange(k, b.len() as int);
    lemma_encode_concat(b.subrange(0, k), tail);
    assert(b.subrange(0, k) + tail =~= b);
    assert(b64_encode(b.subrange(0, k)) + b64_encode(tail) == v);
    assert(b64_encode(tail) =~= v.subrange(i, v.len() as int));
    if v.len() - i == 2 {
        assert(tail.len() == 1) by {
            lemma_encode_len(tail);
        }
        lemma_val_of_digit(tail[0] as int / 4);
        lemma_val_of_digit((tail[0] % 4) * 16);
        assert(v[i] == b64_digit(tail[0] as int / 4));
        assert(v[i + 1] == b64_digit((tail[0] % 4) * 16));
    } else {
        assert(tail.len() == 2) by {
            lemma_encode_len(tail);
        }
        lemma_val_of_digit(tail[0] as int / 4);
        lemma_val_of_digit((tail[0] % 4) * 16 + tail[1] / 16);
        lemma_val_of_digit((tail[1] % 16) * 4);
        assert(v[i] == b64_digit(tail[0] as int / 4));
        assert(v[i + 1] == b64_digit((tail[0] % 4) * 16 + tail[1] / 16));
        assert(v[i + 2] == b64_digit((tail[1] % 16) * 4));
    }
}

/// If `b64_encode(pre)` is a prefix of `b64_encode(b)` with `pre.len() % 3
/// == 0`, then `pre` is a prefix of `b`.
proof fn lemma_encode_prefix(b: Seq<u8>, pre: Seq<u8>)
    requires
        pre.len() % 3 == 0,
        b64_encode(pre).len() <= b64_encode(b).len(),
        b64_encode(pre) == b64_encode(b).subrange(0, b64_encode(pre).len() as int),
    ensures
        pre.len() <= b.len(),
        b.subrange(0, pre.len() as int) == pre,
    decreases pre.len(),
{
    lemma_encode_len(pre);
    lemma_encode_len(b);
    if pre.len() == 0 {
        assert(b.subrange(0, 0) =~= pre);
    } else {
        // both have a full leading group with equal digits
        assert(pre.len() >= 3);
        assert(b64_encode(pre).len() >= 4);
        assert(b.len() >= 3) by {
            if b.len() < 3 {
                lemma_encode_len(b);
            }
        }
        let ep = b64_encode(pre);
        let eb = b64_encode(b);
        assert(ep[0] == eb[0] && ep[1] == eb[1] && ep[2] == eb[2] && ep[3] == eb[3]);
        lemma_group_digits_eq(pre[0], pre[1], pre[2], b[0], b[1], b[2]);
        let pre2 = pre.subrange(3, pre.len() as int);
        let b2 = b.subrange(3, b.len() as int);
        assert(b64_encode(pre2) =~= b64_encode(b2).subrange(0, b64_encode(pre2).len() as int))
            by {
            assert(ep =~= b64_group(pre[0], pre[1], pre[2]) + b64_encode(pre2));
            assert(eb =~= b64_group(b[0], b[1], b[2]) + b64_encode(b2));
            assert forall|j: int| 0 <= j < b64_encode(pre2).len() implies b64_encode(pre2)[j]
                == b64_encode(b2)[j] by {
                assert(ep[j + 4] == eb[j + 4]);
            }
        }
        lemma_encode_prefix(b2, pre2);
        assert(b.subrange(0, pre.len() as int) =~= pre) by {
            assert forall|j: int| 0 <= j < pre.len() implies b[j] == pre[j] by {
                if j >= 3 {
                    assert(b2.subrange(0, pre2.len() as int)[j - 3] == pre2[j - 3]);
                }
            }
        }
    }
}

/// Equal digit groups come from equal byte triples.
proof fn lemma_group_digits_eq(a0: u8, a1: u8, a2: u8, c0: u8, c1: u8, c2: u8)
    requires
        b64_group(a0, a1, a2) == b64_group(c0, c1, c2),
    ensures
        a0 == c0 && a1 == c1 && a2 == c2,
{
    let ga = b64_group(a0, a1, a2);
    let gc = b64_group(c0, c1, c2);
    assert(ga[0] == gc[0] && ga[1] == gc[1] && ga[2] == gc[2] && ga[3] == gc[3]);
    lemma_split_bytes(a0, a1, a2);
    lemma_split_bytes(c0, c1, c2);
    lemma_val_of_digit(a0 as int / 4);
    lemma_val_of_digit((a0 % 4) * 16 + a1 / 16);
    lemma_val_of_digit((a1 % 16) * 4 + a2 / 64);
    lemma_val_of_digit(a2 as int % 64);
    lemma_val_of_digit(c0 as int / 4);
    lemma_val_of_digit((c0 % 4) * 16 + c1 / 16);
    lemma_val_of_digit((c1 % 16) * 4 + c2 / 64);
    lemma_val_of_digit(c2 as int % 64);
}

/// The encoding is injective.
pub proof fn lemma_encode_injective(a: Seq<u8>, b: Seq<u8>)
    requires
        b64_encode(a) == b64_encode(b),
    ensures
        a == b,
    decreases a.len(),
{
    lemma_encode_len(a);
    lemma_encode_len(b);
    if a.len() == 0 {
        assert(a =~= b);
    } else if a.len() == 1 {
        assert(b.len() == 1);
        lemma_split_bytes(a[0], 0, 0);
        lemma_split_bytes(b[0], 0, 0);
        lemma_val_of_digit(a[0] as int / 4);
        lemma_val_of_digit((a[0] % 4) * 16);
        lemma_val_of_digit(b[0] as int / 4);
        lemma_val_of_digit((b[0] % 4) * 16);
        assert(b64_encode(a)[0] == b64_encode(b)[0] && b64_encode(a)[1] == b64_encode(b)[1]);
        assert(a =~= b);
    } else if a.len() == 2 {
        assert(b.len() == 2);
        lemma_split_bytes(a[0], a[1], 0);
        lemma_split_bytes(b[0], b[1], 0);
        lemma_val_of_digit(a[0] as int / 4);
        lemma_val_of_digit((a[0] % 4) * 16 + a[1] / 16);
        lemma_val_of_digit((a[1] % 16) * 4);
        lemma_val_of_digit(b[0] as int / 4);
        lemma_val_of_digit((b[0] % 4) * 16 + b[1] / 16);
        lemma_val_of_digit((b[1] % 16) * 4);
        assert(b64_encode(a)[0] == b64_encode(b)[0] && b64_encode(a)[1] == b64_encode(b)[1]
            && b64_encode(a)[2] == b64_encode(b)[2]);
        assert(a =~= b);
    } else {
        assert(b.len() >= 3);
        let ea = b64_encode(a);
        let eb = b64_encode(b);
        assert(ea[0] == eb[0] && ea[1] == eb[1] && ea[2] == eb[2] && ea[3] == eb[3]);
        lemma_group_digits_eq(a[0], a[1], a[2], b[0], b[1], b[2]);
        let a2 = a.subrange(3, a.len() as int);
        let b2 = b.subrange(3, b.len() as int);
        assert(b64_encode(a2) =~= b64_encode(b2)) by {
            assert(ea =~= b64_group(a[0], a[1], a[2]) + b64_encode(a2));
            assert(eb =~= b64_group(b[0], b[1], b[2]) + b64_encode(b2));
            lemma_encode_len(a2);
            lemma_encode_len(b2);
            assert forall|j: int| 0 <= j < b64_encode(a2).len() implies b64_encode(a2)[j]
                == b64_encode(b2)[j] by {
                assert(ea[j + 4] == eb[j + 4]);
            }
        }
        lemma_encode_injective(a2, b2);
        assert(a =~= b) by {
            assert forall|j: int| 0 <= j < a.len() implies a[j] == b[j] by {
                if j >= 3 {
                    assert(a2[j - 3] == b2[j - 3]);
                }
            }
        }
    }
}

} // verus!
