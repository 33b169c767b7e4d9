use tunly::headers::{filter_headers, is_hop_by_hop};

fn h(k: &str, v: &str) -> (String, String) {
    (String::from(k), String::from(v))
}

#[test]
fn hop_by_hop_names() {
    assert!(is_hop_by_hop("connection"));
    assert!(is_hop_by_hop("Connection"));
    assert!(is_hop_by_hop("KEEP-ALIVE"));
    assert!(is_hop_by_hop("proxy-authenticate"));
    assert!(is_hop_by_hop("Proxy-Authorization"));
    assert!(is_hop_by_hop("TE"));
    assert!(is_hop_by_hop("trailers"));
    assert!(is_hop_by_hop("Transfer-Encoding"));
    assert!(is_hop_by_hop("upgrade"));
    assert!(!is_hop_by_hop("content-type"));
    assert!(!is_hop_by_hop("host"));
    assert!(!is_hop_by_hop("trailer"));
    assert!(!is_hop_by_hop("connections"));
}

#[test]
fn filter_strips_and_keeps_order() {
    let input = vec![
        h("Host", "example.org"),
        h("Connection", "keep-alive"),
        h("Accept", "*/*"),
        h("Upgrade", "websocket"),
        h("X-Custom", "1"),
    ];
    let out = filter_headers(&input);
    let expect = vec![h("Host", "example.org"), h("Accept", "*/*"), h("X-Custom", "1")];
    assert_eq!(out, expect);
}

#[test]
fn filter_is_idempotent_on_values() {
    let input = vec![h("te", "trailers"), h("a", "1"), h("keep-alive", "30"), h("b", "2")];
    let once = filter_headers(&input);
    let twice = filter_headers(&once);
    assert_eq!(once, twice);
}

#[test]
fn filter_of_empty_is_empty() {
    let out = filter_headers(&Vec::new());
    assert!(out.is_empty());
}
