use feedview::err::{parse_query, GetError, ResponseError};

#[test]
fn body_text_joins_the_cause_chain() {
    let mut e = ResponseError::new(String::from("failed to fetch https://a.example/feed.xml"));
    e.push_cause(String::from("connection refused"));
    e.push_cause(String::from("no route to host"));
    assert_eq!(
        e.body_text(),
        "Error: failed to fetch https://a.example/feed.xml -> connection refused -> no route to host"
    );
}

#[test]
fn body_text_without_causes() {
    let e = ResponseError::new(String::from("no URLs provided in query string"));
    assert_eq!(e.body_text(), "Error: no URLs provided in query string");
}

#[test]
fn get_error_messages() {
    assert_eq!(GetError::NoUrls.message(), "no URLs provided in query string");
    let e = GetError::FailedToFetch {
        url: String::from("https://a.example/feed.xml"),
        cause: String::from("x"),
    };
    assert_eq!(e.message(), "failed to fetch https://a.example/feed.xml");
}

#[test]
fn parse_query_rejects_missing_query() {
    assert!(matches!(parse_query(None), Err(GetError::NoUrls)));
}

#[test]
fn parse_query_splits_on_ampersand() {
    let urls = parse_query(Some(String::from(
        "https://a.example/feed.xml&https://b.example/feed.xml",
    )))
    .unwrap();
    assert_eq!(
        urls,
        vec![
            String::from("https://a.example/feed.xml"),
            String::from("https://b.example/feed.xml"),
        ]
    );
}

#[test]
fn parse_query_empty_string_gives_one_empty_segment() {
    let urls = parse_query(Some(String::new())).unwrap();
    assert_eq!(urls, vec![String::new()]);
}
