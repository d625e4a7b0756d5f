use dsmr_to_zaptec::error::zaptec::{TokenResponseError, ZaptecError};
use dsmr_to_zaptec::zaptec::{
    installation_id_of, parse_installation_id, parse_token_body, parse_token_response, ZaptecToken,
};

fn response_error(r: Result<(&str, u64), ZaptecError>) -> TokenResponseError {
    match r {
        Err(ZaptecError::TokenResponse(e)) => e,
        Err(ZaptecError::TokenRequest(e)) => panic!("unexpected request error {:?}", e),
        Ok(v) => panic!("unexpected success {:?}", v),
    }
}

#[test]
fn token_response_typical() {
    let body = "{\"access_token\":\"abc.def-123\",\"token_type\":\"Bearer\",\"expires_in\":86400}";
    let (token, expires_in) = parse_token_response(body).unwrap();
    assert_eq!(token, "abc.def-123");
    assert_eq!(expires_in, 86400);
}

#[test]
fn token_response_with_spaces() {
    let body = "{ \"access_token\":\"tok\" , \"expires_in\": 3600 }";
    let (token, expires_in) = parse_token_response(body).unwrap();
    assert_eq!(token, "tok");
    assert_eq!(expires_in, 3600);
}

#[test]
fn token_response_unicode_whitespace_is_trimmed() {
    let body = "{\u{a0}\"access_token\":\"tok\u{2003}\"\u{3000},\"expires_in\":7}";
    let (token, expires_in) = parse_token_response(body).unwrap();
    assert_eq!(token, "tok");
    assert_eq!(expires_in, 7);
}

#[test]
fn token_response_without_token() {
    let body = "{\"token\":\"x\",\"expires_in\":5}";
    assert_eq!(response_error(parse_token_response(body)), TokenResponseError::NoTokenLine);
}

#[test]
fn token_response_without_lifetime() {
    let body = "{\"access_token\":\"x\",\"token_type\":\"Bearer\"}";
    assert_eq!(response_error(parse_token_response(body)), TokenResponseError::NoExpiresLine);
}

#[test]
fn token_response_lifetime_before_token_is_not_seen() {
    let body = "{\"expires_in\":5,\"access_token\":\"x\"}";
    assert_eq!(response_error(parse_token_response(body)), TokenResponseError::NoExpiresLine);
}

#[test]
fn token_response_malformed_lifetime() {
    for body in [
        "{\"access_token\":\"x\",\"expires_in\":five}",
        "{\"access_token\":\"x\",\"expires_in\":}",
        "{\"access_token\":\"x\",\"expires_in\":-5}",
        "{\"access_token\":\"x\",\"expires_in\":+}",
        "{\"access_token\":\"x\",\"expires_in\":18446744073709551616}",
        "{\"access_token\":\"x\",\"expires_in\":1 2}",
    ] {
        assert_eq!(
            response_error(parse_token_response(body)),
            TokenResponseError::MalformedExpiresLine,
            "{}",
            body
        );
    }
}

#[test]
fn token_response_lifetime_bounds() {
    let (_, n) = parse_token_response("{\"access_token\":\"x\",\"expires_in\":18446744073709551615}").unwrap();
    assert_eq!(n, u64::MAX);
    let (_, n) = parse_token_response("{\"access_token\":\"x\",\"expires_in\":+42}").unwrap();
    assert_eq!(n, 42);
    let (_, n) = parse_token_response("{\"access_token\":\"x\",\"expires_in\":0007}").unwrap();
    assert_eq!(n, 7);
}

#[test]
fn token_response_empty_body() {
    assert_eq!(response_error(parse_token_response("")), TokenResponseError::NoTokenLine);
    assert_eq!(response_error(parse_token_response("{}")), TokenResponseError::NoTokenLine);
}

#[test]
fn token_response_strips_repeated_braces_and_quotes() {
    let body = "{{\"access_token\":\"tok\"\"\",\"expires_in\":9}}";
    let (token, expires_in) = parse_token_response(body).unwrap();
    assert_eq!(token, "tok");
    assert_eq!(expires_in, 9);
}

#[test]
fn token_response_roundtrip_example() {
    let token = "eyJhbGciOiJIUzI1NiJ9.payload.sig";
    let n: u64 = 1234567;
    let body = format!("{{\"access_token\":\"{}\",\"expires_in\":{}}}", token, n);
    let (t, m) = parse_token_response(&body).unwrap();
    assert_eq!(t, token);
    assert_eq!(m, n);
    let (t, m) = parse_token_body(body.as_bytes()).unwrap();
    assert_eq!(t, token);
    assert_eq!(m, n);
}

#[test]
fn token_body_not_utf8() {
    let body: &[u8] = &[b'{', 0xff, 0xfe, b'}'];
    assert_eq!(response_error(parse_token_body(body)), TokenResponseError::NotAString);
}

#[test]
fn installation_id_typical() {
    let body = "{\"Pages\":1,\"Data\":[{\"Id\":\"0d1e2f3a-aaaa-bbbb-cccc-123456789abc\",\"Name\":\"Home\"}]}";
    assert_eq!(installation_id_of(body), "0d1e2f3a-aaaa-bbbb-cccc-123456789abc");
    assert_eq!(
        parse_installation_id(body.as_bytes()).unwrap(),
        "0d1e2f3a-aaaa-bbbb-cccc-123456789abc"
    );
}

#[test]
fn installation_id_without_prefix() {
    assert_eq!(installation_id_of("abc\"def"), "abc");
    assert_eq!(installation_id_of("no quote here"), "no quote here");
    assert_eq!(installation_id_of(""), "");
}

#[test]
fn installation_id_not_utf8() {
    match parse_installation_id(&[0xc3, 0x28]) {
        Err(ZaptecError::TokenResponse(TokenResponseError::NotAString)) => {}
        other => panic!("unexpected {:?}", other),
    }
}

#[test]
fn error_conversions() {
    assert!(matches!(
        ZaptecError::from(TokenResponseError::NoExpiresLine),
        ZaptecError::TokenResponse(TokenResponseError::NoExpiresLine)
    ));
    let int_error = "x".parse::<u64>().unwrap_err();
    assert!(matches!(
        ZaptecError::from(int_error),
        ZaptecError::TokenResponse(TokenResponseError::MalformedExpiresLine)
    ));
    let utf8_error = std::str::from_utf8(&[0xffu8]).unwrap_err();
    assert!(matches!(
        ZaptecError::from(utf8_error),
        ZaptecError::TokenResponse(TokenResponseError::NotAString)
    ));
    assert!(matches!(
        ZaptecError::from(reqwless::Error::Dns),
        ZaptecError::TokenRequest(reqwless::Error::Dns)
    ));
}

#[test]
fn token_expiry_exact() {
    let token = ZaptecToken::new_at("tok", 10, 5).unwrap();
    assert_eq!(token.access_token(), "tok");
    assert_eq!(token.expiration_ticks(), 5 + 10 * embassy_time::TICK_HZ);
}

#[test]
fn token_expiry_overflow() {
    assert!(ZaptecToken::new_at("tok", 1, u64::MAX).is_none());
    assert!(ZaptecToken::new_at("tok", u64::MAX, 0).is_none());
    assert!(ZaptecToken::new("tok", u64::MAX).is_none());
}

#[test]
fn token_from_clock() {
    let token = ZaptecToken::new("tok", 60).unwrap();
    assert_eq!(token.access_token(), "tok");
    assert!(token.expiration_ticks() >= 60 * embassy_time::TICK_HZ);
}

#[test]
fn auth_header_fits() {
    let token = ZaptecToken::new_at("abc", 1, 0).unwrap();
    let mut buf = [0u8; 16];
    assert!(token.auth_header_is_utf8(&buf));
    let header = token.auth_header(&mut buf);
    assert_eq!(header, "Bearer abc\0\0\0\0\0\0");
    assert_eq!(&buf[..10], b"Bearer abc");
}

#[test]
fn auth_header_truncated() {
    let token = ZaptecToken::new_at("abcdef", 1, 0).unwrap();
    let mut buf = [b'x'; 4];
    let header = token.auth_header(&mut buf);
    assert_eq!(header, "Bear");
    let mut buf = [b'z'; 12];
    let header = token.auth_header(&mut buf);
    assert_eq!(header, "Bearer abcde");
}

#[test]
fn auth_header_keeps_tail() {
    let token = ZaptecToken::new_at("t", 1, 0).unwrap();
    let mut buf = *b"..........";
    assert_eq!(token.auth_header(&mut buf), "Bearer t..");
}

#[test]
fn auth_header_split_character_is_refused() {
    let token = ZaptecToken::new_at("é", 1, 0).unwrap();
    let buf = [0u8; 8];
    assert!(!token.auth_header_is_utf8(&buf));
    let mut buf = [0u8; 9];
    assert!(token.auth_header_is_utf8(&buf));
    assert_eq!(token.auth_header(&mut buf), "Bearer é");
}

#[test]
fn token_with_no_lifetime_always_fits() {
    let token = ZaptecToken::new("tok", 0).unwrap();
    assert_eq!(token.access_token(), "tok");
    let token = ZaptecToken::new_at("tok", 0, u64::MAX).unwrap();
    assert_eq!(token.expiration_ticks(), u64::MAX);
}

#[test]
fn extra_trailing_field_changes_nothing() {
    let short = "{\"access_token\":\"tok\",\"expires_in\":60}";
    let long = "{\"access_token\":\"tok\",\"expires_in\":60,\"scope\":\"all\"}";
    assert_eq!(parse_token_response(short).unwrap(), parse_token_response(long).unwrap());
    let short = "{\"access_token\":\"tok\"}";
    let long = "{\"access_token\":\"tok\",\"scope\":\"all\"}";
    assert_eq!(response_error(parse_token_response(short)), response_error(parse_token_response(long)));
}
