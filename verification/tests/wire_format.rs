use rust_backend::base64url::{base64url_decode, base64url_encode};
use rust_backend::claims_codec::{claims_json_bytes, parse_claims_json};
use rust_backend::models::UserRole;

#[test]
fn base64url_known_vectors() {
    assert_eq!(base64url_encode(&b"Man".to_vec()), b"TWFu".to_vec());
    assert_eq!(base64url_encode(&b"Ma".to_vec()), b"TWE".to_vec());
    assert_eq!(base64url_encode(&b"M".to_vec()), b"TQ".to_vec());
    assert_eq!(base64url_encode(&vec![]), Vec::<u8>::new());
    // url-safe alphabet, no padding
    assert_eq!(base64url_encode(&vec![0xFF, 0xFE]), b"__4".to_vec());
}

#[test]
fn base64url_round_trip_and_rejection() {
    let data = vec![0u8, 1, 2, 250, 251, 252, 253, 254, 255, 42];
    for n in 0..=data.len() {
        let prefix: Vec<u8> = data[..n].to_vec();
        let encoded = base64url_encode(&prefix);
        assert_eq!(base64url_decode(&encoded), Some(prefix));
    }
    assert!(base64url_decode(&b"A".to_vec()).is_none()); // bad length
    assert!(base64url_decode(&b"A&CD".to_vec()).is_none()); // bad digit
    assert!(base64url_decode(&b"TQ==".to_vec()).is_none()); // padding refused
    assert!(base64url_decode(&b"TR".to_vec()).is_none()); // trailing bits
}

#[test]
fn claims_payload_is_canonical_json() {
    let sub = b"u1".to_vec();
    let bytes = claims_json_bytes(&sub, UserRole::User, false, 1700003600);
    assert_eq!(
        String::from_utf8(bytes).unwrap(),
        "{\"sub\":\"u1\",\"role\":\"User\",\"is_premium\":false,\"exp\":1700003600}"
    );
    let bytes = claims_json_bytes(&b"a\"b\\c".to_vec(), UserRole::Admin, true, 0);
    assert_eq!(
        String::from_utf8(bytes).unwrap(),
        "{\"sub\":\"a\\\"b\\\\c\",\"role\":\"Admin\",\"is_premium\":true,\"exp\":0}"
    );
}

#[test]
fn claims_payload_escapes_control_characters() {
    // quote, backslash, the five short escapes, \u00xx for the rest of
    // the control range: the exact bytes common JSON serializers write
    let sub = vec![1u8, 8, 9, 10, 12, 13, 31, b'x'];
    let bytes = claims_json_bytes(&sub, UserRole::User, false, 7);
    assert_eq!(
        String::from_utf8(bytes.clone()).unwrap(),
        "{\"sub\":\"\\u0001\\b\\t\\n\\f\\r\\u001fx\",\"role\":\"User\",\"is_premium\":false,\"exp\":7}"
    );
    let (got_sub, _, _, _) = parse_claims_json(&bytes).unwrap();
    assert_eq!(got_sub, sub);
}

#[test]
fn claims_payload_round_trips() {
    let sub = b"some-user-id".to_vec();
    let bytes = claims_json_bytes(&sub, UserRole::Admin, true, 123456);
    let (got_sub, role, prem, exp) = parse_claims_json(&bytes).unwrap();
    assert_eq!(got_sub, sub);
    assert!(matches!(role, UserRole::Admin));
    assert!(prem);
    assert_eq!(exp, 123456);
}

#[test]
fn claims_payload_parse_is_all_or_nothing() {
    for bad in [
        &b""[..],
        &b"{}"[..],
        &b"{\"sub\":\"u1\"}"[..],
        &b"{\"sub\":\"u1\",\"role\":\"Root\",\"is_premium\":false,\"exp\":1}"[..],
        &b"{\"sub\":\"u1\",\"role\":\"User\",\"is_premium\":false,\"exp\":01}"[..],
        &b"{\"sub\":\"u1\",\"role\":\"User\",\"is_premium\":false,\"exp\":1} "[..],
        &b"{\"sub\":\"u1\",\"role\":\"User\",\"is_premium\":false,\"exp\":99999999999999999999999999}"[..],
        // a raw control byte inside the subject is not canonical
        &b"{\"sub\":\"\x01\",\"role\":\"User\",\"is_premium\":false,\"exp\":1}"[..],
        // neither is a \u escape outside the control range
        &b"{\"sub\":\"\\u0041\",\"role\":\"User\",\"is_premium\":false,\"exp\":1}"[..],
    ] {
        assert!(parse_claims_json(&bad.to_vec()).is_none());
    }
}
