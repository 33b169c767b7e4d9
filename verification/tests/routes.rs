use tunly::routes::{cookie_value, escape_html, extract_real_ip, next_asset_redirect, sid_from_referer};

#[test]
fn escape_html_basics() {
    assert_eq!(escape_html("a<b>&c"), "a&lt;b&gt;&amp;c");
    assert_eq!(escape_html("plain"), "plain");
    assert_eq!(escape_html(""), "");
}

#[test]
fn sid_from_referer_cases() {
    assert_eq!(sid_from_referer("https://host/s/abc123/page"), Some(String::from("abc123")));
    assert_eq!(sid_from_referer("https://host/s/abc123"), Some(String::from("abc123")));
    assert_eq!(sid_from_referer("https://host/other"), None);
    assert_eq!(sid_from_referer("https://host/s//x"), None);
}

#[test]
fn cookie_value_cases() {
    assert_eq!(
        cookie_value("a=1; tunly_sid=XYZ; b=2", "tunly_sid"),
        Some(String::from("XYZ"))
    );
    assert_eq!(cookie_value("tunly_sid=first; tunly_sid=second", "tunly_sid"),
        Some(String::from("first")));
    assert_eq!(cookie_value("a=1; b=2", "tunly_sid"), None);
    assert_eq!(cookie_value("", "tunly_sid"), None);
}

#[test]
fn extract_real_ip_prefers_forwarding_header() {
    assert_eq!(extract_real_ip(Some("1.2.3.4, 10.0.0.1"), "9.9.9.9"), "1.2.3.4");
    assert_eq!(extract_real_ip(Some(" 1.2.3.4 "), "9.9.9.9"), "1.2.3.4");
    assert_eq!(extract_real_ip(None, "9.9.9.9"), "9.9.9.9");
}

#[test]
fn next_asset_redirect_prefers_referer() {
    let r = next_asset_redirect(
        Some("https://host/s/REF/page"),
        Some("tunly_sid=COOKIE"),
        "static/chunk.js",
        Some("v=1"),
    );
    assert_eq!(r, Some(String::from("/s/REF/_next/static/chunk.js?v=1")));
}

#[test]
fn next_asset_redirect_falls_back_to_cookie() {
    let r = next_asset_redirect(None, Some("tunly_sid=COOKIE"), "app.css", None);
    assert_eq!(r, Some(String::from("/s/COOKIE/_next/app.css")));
}

#[test]
fn next_asset_redirect_without_session_context() {
    assert_eq!(next_asset_redirect(None, None, "x.js", None), None);
    assert_eq!(next_asset_redirect(Some("https://host/plain"), Some("other=1"), "x.js", None), None);
}

#[test]
fn session_log_page_renders_rows_newest_first() {
    let entries = vec![
        tunly::protocol::AccessLogEntry {
            method: String::from("GET"),
            uri: String::from("/old"),
            status: 200,
            dur_ms: 3,
        },
        tunly::protocol::AccessLogEntry {
            method: String::from("<POST>"),
            uri: String::from("/new?a=1&b=2"),
            status: 404,
            dur_ms: 12,
        },
    ];
    let page = tunly::routes::render_session_log("SID", &entries);
    assert!(page.starts_with("<!doctype html>"));
    assert!(page.contains("<h1>Session <code>SID</code></h1>"));
    let newest = page.find("&lt;POST&gt;").expect("newest row present");
    let oldest = page.find("<td>GET</td>").expect("oldest row present");
    assert!(newest < oldest, "newest entry must come first");
    assert!(page.contains("<td>404</td><td>12 ms</td>"));
    assert!(page.contains("/new?a=1&amp;b=2"));
    assert!(page.ends_with("</tbody></table>"));
}
