use feedview::extract::{
    summary, summary_from_html_body, summary_from_html_summary, ContentKind, RawContent, RawText,
};

#[test]
fn summary_from_html_summary_return_first_text() {
    let summary = summary_from_html_summary(
        r#"
        <div>
            <p>First paragraph.</p>
            <p>Second paragraph.</p>
        </div>
    "#,
    );

    assert_eq!(summary, Some(String::from("First paragraph.")));
}

#[test]
fn summary_from_html_summary_none_matching() {
    let summary = summary_from_html_summary(
        r#"
        <div>
            <img title="foo">
        </div>
    "#,
    );

    assert_eq!(summary, None);
}

#[test]
fn summary_from_html_summary_unescape() {
    let summary = summary_from_html_summary(
        r#"
        <div>
            &lt;foo&gt;
        </div>
    "#,
    );

    assert_eq!(summary, Some(String::from("<foo>")));
}

#[test]
fn summary_from_html_body_matching_link() {
    let summary = summary_from_html_body(
        "https://example.com",
        r#"
        <div>
            <a title="Test title" href="https://example.com">First paragraph.</a>
        </div>
    "#,
    );

    assert_eq!(summary, Some(String::from("Test title")));
}

#[test]
fn summary_from_html_body_matching_link_full_url() {
    let summary = summary_from_html_body(
        "https://example.com/foobar",
        r#"
        <div>
            <a title="Test title" href="https://example.com/foobar">First paragraph.</a>
        </div>
    "#,
    );

    assert_eq!(summary, Some(String::from("Test title")));
}

#[test]
fn summary_from_html_body_matching_link_path_only() {
    let summary = summary_from_html_body(
        "https://example.com/foobar",
        r#"
        <div>
            <a title="Test title" href="/foobar">First paragraph.</a>
        </div>
    "#,
    );

    assert_eq!(summary, Some(String::from("Test title")));
}

#[test]
fn summary_from_html_body_wrong_url() {
    let summary = summary_from_html_body(
        "https://example.com",
        r#"
        <div>
            <a title="Test title" href="https://example.net">First paragraph.</a>
        </div>
    "#,
    );

    assert_eq!(summary, None);
}

#[test]
fn summary_from_html_body_improperly_escaped_url() {
    let summary = summary_from_html_body(
        "https://example.com?foo&bar",
        r#"
        <div>
            <a title="Test title 2" href="https://example.com?foo&bar">First paragraph.</a>
        </div>
    "#,
    );

    assert_eq!(summary, Some(String::from("Test title 2")));
}

#[test]
fn summary_from_html_summary_numeric_entities() {
    let summary = summary_from_html_summary("<p>&#65;&#x42;</p>");
    assert_eq!(summary, Some(String::from("AB")));
}

#[test]
fn summary_prefers_plain_summary_verbatim() {
    let s = summary(
        "https://example.com/x",
        Some(RawText { kind: ContentKind::Plain, content: String::from("  raw text  ") }),
        None,
    );
    assert_eq!(s, Some(String::from("  raw text  ")));
}

#[test]
fn summary_uses_plain_content_body_when_no_summary() {
    let s = summary(
        "https://example.com/x",
        None,
        Some(RawContent { kind: ContentKind::Plain, body: Some(String::from("body text")) }),
    );
    assert_eq!(s, Some(String::from("body text")));
}

#[test]
fn summary_nothing_without_summary_or_body() {
    let s = summary(
        "https://example.com/x",
        None,
        Some(RawContent { kind: ContentKind::Html, body: None }),
    );
    assert_eq!(s, None);
    assert_eq!(summary("https://example.com/x", None, None), None);
}

#[test]
fn summary_from_html_body_titleless_match_keeps_scanning() {
    // The first anchor matches but has no title; a later matching
    // anchor with a title wins.
    let s = summary_from_html_body(
        "https://example.com/a",
        r#"<a href="/a">x</a><a title="Late title" href="/a">y</a>"#,
    );
    assert_eq!(s, Some(String::from("Late title")));
}

#[test]
fn summary_from_html_body_symmetric_absolute_link() {
    // The target is root-relative; the anchor carries an absolute URL
    // whose path-and-beyond equals it.
    let s = summary_from_html_body(
        "/foobar",
        r#"
        <div>
            <a title="Test title" href="https://example.com/foobar">First paragraph.</a>
        </div>
    "#,
    );
    assert_eq!(s, Some(String::from("Test title")));
}

#[test]
fn summary_from_html_body_symmetric_wrong_path() {
    let s = summary_from_html_body(
        "/foobar",
        r#"<a title="Test title" href="https://example.com/other">x</a>"#,
    );
    assert_eq!(s, None);
}
