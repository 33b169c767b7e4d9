use tunly::jws::{parse_claims, token_decode, token_encode, write_claims, Claims};

fn claims() -> Claims {
    Claims {
        sub: String::from("SID123"),
        ip: String::from("1.2.3.4"),
        exp: 1700000300,
        jti: String::from("JTI456"),
    }
}

#[test]
fn claims_serialize_exactly() {
    let json = write_claims(&claims());
    assert_eq!(
        json,
        "{\"sub\":\"SID123\",\"ip\":\"1.2.3.4\",\"exp\":1700000300,\"jti\":\"JTI456\"}"
    );
}

#[test]
fn claims_round_trip() {
    let json = write_claims(&claims());
    let back = parse_claims(&json).expect("claims parse back");
    assert_eq!(back.sub, "SID123");
    assert_eq!(back.ip, "1.2.3.4");
    assert_eq!(back.exp, 1700000300);
    assert_eq!(back.jti, "JTI456");
}

#[test]
fn claims_with_quotes_and_backslashes_round_trip() {
    let tricky = Claims {
        sub: String::from("a\"b\\c"),
        ip: String::from("::1"),
        exp: 7,
        jti: String::from("j"),
    };
    let json = write_claims(&tricky);
    let back = parse_claims(&json).expect("tricky parse back");
    assert_eq!(back.sub, "a\"b\\c");
    assert_eq!(back.ip, "::1");
    assert_eq!(back.exp, 7);
    assert_eq!(back.jti, "j");
}

#[test]
fn malformed_claims_rejected() {
    assert!(parse_claims("").is_none());
    assert!(parse_claims("{}").is_none());
    assert!(parse_claims("{\"sub\":\"x\"}").is_none());
    assert!(parse_claims("{\"sub\":\"x\",\"ip\":\"i\",\"exp\":nope,\"jti\":\"j\"}").is_none());
    // Trailing garbage after the closing brace is refused.
    let mut good = write_claims(&claims());
    good.push(' ');
    assert!(parse_claims(&good).is_none());
}

#[test]
fn token_round_trip_with_real_mac() {
    let secret = vec![b's'; 32];
    let token = token_encode(&secret, &claims());
    let back = token_decode(&secret, &token).expect("valid token decodes");
    assert_eq!(back.sub, "SID123");
    assert_eq!(back.ip, "1.2.3.4");
    assert_eq!(back.exp, 1700000300);
    assert_eq!(back.jti, "JTI456");
}

#[test]
fn token_with_wrong_secret_rejected() {
    let token = token_encode(&vec![b's'; 32], &claims());
    assert!(token_decode(&vec![b'x'; 32], &token).is_none());
}

#[test]
fn tampered_token_rejected() {
    let secret = vec![b's'; 32];
    let token = token_encode(&secret, &claims());
    let mut tampered = token.clone();
    tampered.push('A');
    assert!(token_decode(&secret, &tampered).is_none());
    assert!(token_decode(&secret, "not.a.token").is_none());
    assert!(token_decode(&secret, "").is_none());
}
