use tunly::credentials::AuthMode;
use tunly::gateway::{
    build_gateway_response, AppState, IssueOutcome, ProxyPrepared, UpgradeOutcome,
};
use tunly::agent::make_response_envelope;
use tunly::protocol::AccessLogEntry;

fn ephemeral_state() -> AppState {
    AppState::new(AuthMode::Ephemeral, vec![b's'; 32], false, None)
}

fn bearer(token: &str) -> String {
    let mut h = String::from("Bearer ");
    h.push_str(token);
    h
}

fn issue(state: &mut AppState, ip: &str, now: u64) -> (String, String) {
    match state.issue_token(ip, "", now) {
        IssueOutcome::Issued(tr) => {
            assert_eq!(tr.expires_in, 300);
            (tr.token, tr.session)
        }
        _ => panic!("expected issuance to succeed"),
    }
}

#[test]
fn happy_path_issue_upgrade_proxy() {
    let mut state = ephemeral_state();
    let now = 1000;
    let (token, sid) = issue(&mut state, "1.2.3.4", now);

    let d = state.validate_upgrade(Some(&sid), Some(&bearer(&token)), None, "1.2.3.4", now);
    assert!(matches!(d, UpgradeOutcome::Accept));
    state.session_opened(&sid, now);
    assert_eq!(state.sessions.active_sessions(), 1);

    let headers = vec![(String::from("accept"), String::from("*/*"))];
    let prepared = state.prepare_proxy_request(
        "5.6.7.8", &sid, "GET", "hello", Some("x=1"), &headers, b"", now,
    );
    let env = match prepared {
        ProxyPrepared::Prepared(env) => env,
        _ => panic!("expected a prepared envelope"),
    };
    assert_eq!(env.uri, "/hello?x=1");
    assert_eq!(env.method, "GET");

    // The agent answers 204 with one header and an empty body.
    let resp_headers = vec![(String::from("x-foo"), String::from("bar"))];
    let resp = make_response_envelope(env.id, 204, &resp_headers, b"");

    assert_eq!(state.complete_proxy_response(&sid, resp.id, now), Some(true));

    let out = build_gateway_response(&sid, &resp);
    assert_eq!(out.status, 204);
    assert!(out.headers.contains(&(String::from("x-foo"), String::from("bar"))));
    assert!(out.headers.contains(&(String::from("cache-control"), String::from("no-store"))));
    let mut cookie = String::from("tunly_sid=");
    cookie.push_str(&sid);
    cookie.push_str("; Path=/; Max-Age=600; HttpOnly; SameSite=Lax");
    assert!(out.headers.contains(&(String::from("set-cookie"), cookie)));
    assert!(out.body.is_empty());
}

#[test]
fn replayed_credential_is_rejected() {
    let mut state = ephemeral_state();
    let now = 1000;
    let (token, sid) = issue(&mut state, "1.2.3.4", now);
    let first = state.validate_upgrade(Some(&sid), Some(&bearer(&token)), None, "1.2.3.4", now);
    assert!(matches!(first, UpgradeOutcome::Accept));
    let second = state.validate_upgrade(Some(&sid), Some(&bearer(&token)), None, "1.2.3.4", now);
    assert!(matches!(second, UpgradeOutcome::Invalid));
}

#[test]
fn binding_mismatch_rejected_and_credential_kept() {
    let mut state = ephemeral_state();
    let now = 1000;
    let (token, sid) = issue(&mut state, "1.2.3.4", now);
    // Wrong address: rejected, and the credential is not consumed.
    let wrong = state.validate_upgrade(Some(&sid), Some(&bearer(&token)), None, "9.9.9.9", now);
    assert!(matches!(wrong, UpgradeOutcome::Invalid));
    assert_eq!(state.issued_tokens.entries.len(), 1);
    // Wrong session id: also rejected.
    let wrong_sid = state.validate_upgrade(Some("other"), Some(&bearer(&token)), None, "1.2.3.4", now);
    assert!(matches!(wrong_sid, UpgradeOutcome::Invalid));
    // The untouched credential still validates from the right address.
    let right = state.validate_upgrade(Some(&sid), Some(&bearer(&token)), None, "1.2.3.4", now);
    assert!(matches!(right, UpgradeOutcome::Accept));
}

#[test]
fn expired_credential_rejected() {
    let mut state = ephemeral_state();
    let (token, sid) = issue(&mut state, "1.2.3.4", 0);
    let d = state.validate_upgrade(Some(&sid), Some(&bearer(&token)), None, "1.2.3.4", 301);
    assert!(matches!(d, UpgradeOutcome::Invalid));
}

#[test]
fn missing_sid_and_missing_token() {
    let mut state = ephemeral_state();
    assert!(matches!(
        state.validate_upgrade(None, Some("Bearer x"), None, "1.2.3.4", 0),
        UpgradeOutcome::MissingSid
    ));
    assert!(matches!(
        state.validate_upgrade(Some(""), Some("Bearer x"), None, "1.2.3.4", 0),
        UpgradeOutcome::MissingSid
    ));
    assert!(matches!(
        state.validate_upgrade(Some("sid"), None, None, "1.2.3.4", 0),
        UpgradeOutcome::MissingToken
    ));
    // Query tokens are refused unless the operator allows them.
    assert!(matches!(
        state.validate_upgrade(Some("sid"), None, Some("tok"), "1.2.3.4", 0),
        UpgradeOutcome::MissingToken
    ));
}

#[test]
fn fixed_mode_compares_token_and_disables_issuance() {
    let mut state = AppState::new(
        AuthMode::Fixed(String::from("fixedtok")),
        vec![0u8; 32],
        false,
        None,
    );
    assert!(matches!(state.issue_token("1.2.3.4", "", 0), IssueOutcome::Forbidden));
    let ok = state.validate_upgrade(Some("sid"), Some("Bearer fixedtok"), None, "1.2.3.4", 0);
    assert!(matches!(ok, UpgradeOutcome::Accept));
    let bad = state.validate_upgrade(Some("sid"), Some("Bearer wrong"), None, "1.2.3.4", 0);
    assert!(matches!(bad, UpgradeOutcome::Invalid));
}

#[test]
fn internal_key_gates_issuance() {
    let mut state = AppState::new(
        AuthMode::Ephemeral,
        vec![b's'; 32],
        false,
        Some(String::from("opskey")),
    );
    assert!(matches!(state.issue_token("1.2.3.4", "", 0), IssueOutcome::Unauthorized));
    assert!(matches!(state.issue_token("1.2.3.4", "wrong", 0), IssueOutcome::Unauthorized));
    assert!(matches!(state.issue_token("1.2.3.4", "opskey", 0), IssueOutcome::Issued(_)));
}

#[test]
fn issuance_rate_limit_ten_per_minute() {
    let mut state = ephemeral_state();
    for _ in 0..10 {
        assert!(matches!(state.issue_token("1.2.3.4", "", 100), IssueOutcome::Issued(_)));
    }
    match state.issue_token("1.2.3.4", "", 100) {
        IssueOutcome::RateLimited { retry_after } => assert_eq!(retry_after, 60),
        _ => panic!("expected the eleventh issuance to be rate limited"),
    }
    // Another address is unaffected.
    assert!(matches!(state.issue_token("8.8.8.8", "", 100), IssueOutcome::Issued(_)));
    // After the window rolls over, the first address may issue again.
    assert!(matches!(state.issue_token("1.2.3.4", "", 161), IssueOutcome::Issued(_)));
}

#[test]
fn proxy_rate_limit_120_per_minute() {
    let mut state = ephemeral_state();
    let headers = Vec::new();
    for _ in 0..120 {
        let r = state.prepare_proxy_request("A", "SID", "GET", "", None, &headers, b"", 5);
        assert!(matches!(r, ProxyPrepared::NoSession));
    }
    match state.prepare_proxy_request("A", "SID", "GET", "", None, &headers, b"", 5) {
        ProxyPrepared::RateLimited { retry_after } => assert_eq!(retry_after, 60),
        _ => panic!("expected request 121 to be rate limited"),
    }
}

#[test]
fn oversize_body_rejected_with_no_slot() {
    let mut state = ephemeral_state();
    state.session_opened("SID", 0);
    let body = vec![0u8; 2_200_000];
    let r = state.prepare_proxy_request("A", "SID", "POST", "x", None, &Vec::new(), &body, 0);
    assert!(matches!(r, ProxyPrepared::Oversize));
    // No completion slot was recorded.
    assert_eq!(state.abandon_pending("SID", 1), Some(false));
}

#[test]
fn timeout_removes_pending_slot() {
    let mut state = ephemeral_state();
    state.session_opened("SID", 0);
    let env = match state.prepare_proxy_request("A", "SID", "GET", "slow", None, &Vec::new(), b"", 0)
    {
        ProxyPrepared::Prepared(env) => env,
        _ => panic!("expected a prepared envelope"),
    };
    // The 30 s await lapses: the handler abandons its slot.
    assert_eq!(state.abandon_pending("SID", env.id), Some(true));
    // The slot is gone: a late response is not delivered.
    assert_eq!(state.complete_proxy_response("SID", env.id, 31), Some(false));
}

#[test]
fn completion_is_delivered_at_most_once() {
    let mut state = ephemeral_state();
    state.session_opened("SID", 0);
    let env = match state.prepare_proxy_request("A", "SID", "GET", "", None, &Vec::new(), b"", 0) {
        ProxyPrepared::Prepared(env) => env,
        _ => panic!("expected a prepared envelope"),
    };
    assert_eq!(state.complete_proxy_response("SID", env.id, 1), Some(true));
    assert_eq!(state.complete_proxy_response("SID", env.id, 2), Some(false));
}

#[test]
fn idle_sessions_are_swept() {
    let mut state = ephemeral_state();
    state.session_opened("OLD", 0);
    state.session_opened("FRESH", 0);
    // FRESH stays active; OLD goes idle.
    assert_eq!(state.complete_proxy_response("FRESH", 1, 500), Some(false));
    state.gc_sweep(600);
    assert_eq!(state.sessions.active_sessions(), 1);
    assert!(!state.session_closed("OLD"));
    assert!(state.session_closed("FRESH"));
}

#[test]
fn session_teardown_is_idempotent() {
    let mut state = ephemeral_state();
    state.session_opened("SID", 0);
    assert!(state.session_closed("SID"));
    assert!(!state.session_closed("SID"));
    let r = state.prepare_proxy_request("A", "SID", "GET", "", None, &Vec::new(), b"", 0);
    assert!(matches!(r, ProxyPrepared::NoSession));
}

#[test]
fn expired_credentials_are_swept() {
    let mut state = ephemeral_state();
    let (_, _) = issue(&mut state, "1.2.3.4", 0);
    assert_eq!(state.issued_tokens.entries.len(), 1);
    state.gc_sweep(301);
    assert_eq!(state.issued_tokens.entries.len(), 0);
}

#[test]
fn access_log_is_a_bounded_ring() {
    let mut state = ephemeral_state();
    state.session_opened("SID", 0);
    for i in 0..55u16 {
        let e = AccessLogEntry {
            method: String::from("GET"),
            uri: format!("/{}", i),
            status: 200,
            dur_ms: 1,
        };
        assert!(state.log_access("SID", e));
    }
    let log = &state.sessions.sessions[0].access_log;
    assert_eq!(log.len(), 50);
    assert_eq!(log[0].uri, "/5");
    assert_eq!(log[49].uri, "/54");
}

#[test]
fn location_header_is_rewritten_in_responses() {
    let resp = make_response_envelope(
        1,
        302,
        &vec![(String::from("location"), String::from("/foo"))],
        b"",
    );
    let out = build_gateway_response("SID", &resp);
    assert!(out.headers.contains(&(String::from("location"), String::from("/s/SID/foo"))));

    let resp2 = make_response_envelope(
        2,
        301,
        &vec![(String::from("Location"), String::from("https://origin.example/bar?q=1"))],
        b"",
    );
    let out2 = build_gateway_response("SID", &resp2);
    assert!(out2.headers.contains(&(String::from("Location"), String::from("/s/SID/bar?q=1"))));
}
