use feedview::url::{domain, make_absolute, prefix, scheme, url_path};

#[test]
fn test_domain() {
    assert_eq!(domain("example.com"), "example.com");
    assert_eq!(domain("https://example.com"), "example.com");
    assert_eq!(domain("http://example.com/foo"), "example.com");
    assert_eq!(domain("https://example.com/foo/bar"), "example.com");
}

#[test]
fn test_prefix() {
    assert_eq!(prefix("https://example.com"), "https://example.com");
    assert_eq!(prefix("https://example.com/test"), "https://example.com/test");
    assert_eq!(prefix("http://example.com#foo"), "http://example.com");
    assert_eq!(prefix("http://example.com/test#foo"), "http://example.com/test");
    assert_eq!(prefix("https://example.com#foo#bar"), "https://example.com");
    assert_eq!(prefix("https://example.com/test/2#foo#bar"), "https://example.com/test/2");
}

#[test]
fn test_scheme() {
    assert_eq!(scheme("http://example.com"), "http");
    assert_eq!(scheme("https://example.com/x"), "https");
    assert_eq!(scheme("example.com"), "https");
}

#[test]
fn make_absolute_keeps_absolute_urls() {
    assert_eq!(
        make_absolute("https://example.com/feed.xml", "https://other.net/post"),
        "https://other.net/post"
    );
}

#[test]
fn make_absolute_resolves_root_relative() {
    assert_eq!(
        make_absolute("https://example.com/feed.xml", "/post/1"),
        "https://example.com/post/1"
    );
}

#[test]
fn make_absolute_resolves_path_relative_against_domain_root() {
    // The base's own path is discarded: relative links resolve against
    // the domain root, not the base's directory.
    assert_eq!(
        make_absolute("http://example.com/deep/feed.xml", "post/2"),
        "http://example.com/post/2"
    );
}

#[test]
fn url_path_strips_scheme_and_domain() {
    assert_eq!(url_path("https://example.com/foobar"), Some(String::from("/foobar")));
    assert_eq!(url_path("http://example.com/a/b#f"), Some(String::from("/a/b#f")));
    assert_eq!(url_path("https://example.com"), None);
    assert_eq!(url_path("example.com/foo"), None);
}
