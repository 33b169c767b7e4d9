use tunly::rewrite::{build_upstream_uri, rewrite_location};

#[test]
fn absolute_path_is_confined() {
    assert_eq!(rewrite_location("SID", "/foo"), "/s/SID/foo");
    assert_eq!(rewrite_location("SID", "/a/b?c=d"), "/s/SID/a/b?c=d");
}

#[test]
fn already_confined_value_is_fixed_point() {
    assert_eq!(rewrite_location("SID", "/s/SID/foo"), "/s/SID/foo");
    let twice = rewrite_location("SID", &rewrite_location("SID", "/foo"));
    assert_eq!(twice, "/s/SID/foo");
}

#[test]
fn absolute_url_loses_scheme_and_host() {
    assert_eq!(
        rewrite_location("SID", "https://origin.example/bar?q=1"),
        "/s/SID/bar?q=1"
    );
    assert_eq!(rewrite_location("SID", "http://h/x"), "/s/SID/x");
    assert_eq!(rewrite_location("SID", "HTTPS://H/x"), "/s/SID/x");
}

#[test]
fn bare_scheme_and_relative_values_pass_through() {
    assert_eq!(rewrite_location("SID", "https://no-path.example"), "https://no-path.example");
    assert_eq!(rewrite_location("SID", "relative/path"), "relative/path");
    assert_eq!(rewrite_location("SID", ""), "");
    assert_eq!(rewrite_location("SID", "ftp://h/x"), "ftp://h/x");
}

#[test]
fn multiple_leading_slashes_are_collapsed() {
    assert_eq!(rewrite_location("SID", "//foo"), "/s/SID/foo");
}

#[test]
fn upstream_uri_shapes() {
    assert_eq!(build_upstream_uri("", None), "/");
    assert_eq!(build_upstream_uri("", Some("x=1")), "/?x=1");
    assert_eq!(build_upstream_uri("hello", Some("x=1")), "/hello?x=1");
    assert_eq!(build_upstream_uri("/deep/path", None), "/deep/path");
    assert_eq!(build_upstream_uri("///triple", None), "/triple");
}
