use tunly::agent::{
    backoff_secs, build_ws_url, error_envelope, host_header_for, make_response_envelope,
    parse_token_config, plan_upstream_request, public_url, token_body_is_json,
};
use tunly::codec::decompress_body;
use tunly::generate_session_id;
use tunly::protocol::ProxyRequest;

#[test]
fn backoff_doubles_then_caps() {
    assert_eq!(backoff_secs(0), 1);
    assert_eq!(backoff_secs(1), 2);
    assert_eq!(backoff_secs(2), 4);
    assert_eq!(backoff_secs(3), 8);
    assert_eq!(backoff_secs(4), 15);
    assert_eq!(backoff_secs(100), 15);
}

#[test]
fn urls_are_assembled() {
    assert_eq!(
        build_ws_url(true, "app.tunly.online", "/ws", "SID"),
        "wss://app.tunly.online/ws?sid=SID"
    );
    assert_eq!(build_ws_url(false, "h:8080", "ws", "S"), "ws://h:8080/ws?sid=S");
    assert_eq!(public_url(true, "h", "S"), "https://h/s/S/");
    assert_eq!(public_url(false, "h", "S"), "http://h/s/S/");
}

#[test]
fn session_ids_are_22_url_safe_chars() {
    let a = generate_session_id();
    let b = generate_session_id();
    assert_eq!(a.len(), 22);
    assert_eq!(b.len(), 22);
    assert_ne!(a, b);
    assert!(a.chars().all(|c| c.is_ascii_alphanumeric() || c == '-' || c == '_'));
}

#[test]
fn host_header_uses_local_port() {
    assert_eq!(host_header_for("http://127.0.0.1:3000"), "localhost:3000");
    assert_eq!(host_header_for("http://127.0.0.1"), "localhost:80");
    assert_eq!(host_header_for("https://box:8443"), "localhost:8443");
}

fn env(uri: &str, headers: Vec<(String, String)>, body_b64: &str) -> ProxyRequest {
    ProxyRequest {
        id: 9,
        method: String::from("POST"),
        uri: String::from(uri),
        headers,
        body_b64: String::from(body_b64),
        is_compressed: false,
    }
}

#[test]
fn upstream_plan_joins_url_and_rewrites_host() {
    let headers = vec![
        (String::from("Host"), String::from("public.example")),
        (String::from("Connection"), String::from("close")),
        (String::from("Accept"), String::from("*/*")),
    ];
    // "aGk=" is the plain base64 of "hi".
    let plan = plan_upstream_request("http://127.0.0.1:3000", &env("/a?b=c", headers, "aGk="));
    assert_eq!(plan.method, "POST");
    assert_eq!(plan.url, "http://127.0.0.1:3000/a?b=c");
    assert_eq!(
        plan.headers,
        vec![
            (String::from("host"), String::from("localhost:3000")),
            (String::from("Accept"), String::from("*/*")),
        ]
    );
    assert_eq!(plan.body, b"hi");
}

#[test]
fn upstream_plan_handles_relative_uri() {
    let plan = plan_upstream_request("http://127.0.0.1:3000/", &env("rel", Vec::new(), ""));
    assert_eq!(plan.url, "http://127.0.0.1:3000/rel");
}

#[test]
fn response_envelope_round_trips_body() {
    let headers = vec![
        (String::from("transfer-encoding"), String::from("chunked")),
        (String::from("x-foo"), String::from("bar")),
    ];
    let body = b"The quick brown fox jumps over the lazy dog.".repeat(40);
    let envl = make_response_envelope(4, 200, &headers, &body);
    assert_eq!(envl.id, 4);
    assert_eq!(envl.status, 200);
    assert_eq!(envl.headers, vec![(String::from("x-foo"), String::from("bar"))]);
    assert_eq!(decompress_body(&envl.body_b64, envl.is_compressed), body);
}

#[test]
fn error_envelope_is_plain_text_502() {
    let envl = error_envelope(7, b"upstream error: connection refused");
    assert_eq!(envl.id, 7);
    assert_eq!(envl.status, 502);
    assert_eq!(envl.headers, vec![(String::from("content-type"), String::from("text/plain"))]);
    assert_eq!(
        decompress_body(&envl.body_b64, envl.is_compressed),
        b"upstream error: connection refused"
    );
}

#[test]
fn token_body_json_detection() {
    assert!(token_body_is_json("application/json; charset=utf-8", ""));
    assert!(token_body_is_json("text/plain", "  {\"token\":\"t\"}"));
    assert!(!token_body_is_json("text/plain", "bare-token"));
    assert!(!token_body_is_json("", ""));
}

#[test]
fn token_config_parsing() {
    assert_eq!(parse_token_config("token: abc"), Some(String::from("abc")));
    assert_eq!(parse_token_config("token=\"xyz\""), Some(String::from("xyz")));
    assert_eq!(parse_token_config("token abc"), Some(String::from("abc")));
    assert_eq!(
        parse_token_config("# comment\n\nTOKEN: spaced  \nrest"),
        Some(String::from("spaced"))
    );
    // A tolerated misspelling still matches the prefix.
    assert_eq!(parse_token_config("tokenn: typo"), Some(String::from("typo")));
    assert_eq!(parse_token_config("# token: commented"), None);
    assert_eq!(parse_token_config("secret: abc"), None);
    assert_eq!(parse_token_config(""), None);
}
