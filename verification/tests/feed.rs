use feedview::extract::{ContentKind, RawText};
use feedview::feed::{build_feed, FeedError, RawEntry, RawFeed};

fn entry(published: Option<i64>, links: Vec<&str>, title: Option<&str>) -> RawEntry {
    RawEntry {
        published,
        updated: None,
        links: links.into_iter().map(String::from).collect(),
        title: title.map(String::from),
        thumbnail_url: None,
        summary: None,
        content: None,
    }
}

#[test]
fn build_feed_rejects_missing_feed_title() {
    let raw = RawFeed { title: None, logo_url: None, entries: vec![] };
    let r = build_feed(String::from("https://a.example/feed.xml"), raw);
    assert!(matches!(r, Err(FeedError::MissingFeedTitle)));
}

#[test]
fn build_feed_rejects_entry_without_timestamp() {
    let raw = RawFeed {
        title: Some(String::from("A")),
        logo_url: None,
        entries: vec![entry(None, vec!["/x"], Some("t"))],
    };
    let r = build_feed(String::from("https://a.example/feed.xml"), raw);
    assert!(matches!(r, Err(FeedError::MissingTimestamp)));
}

#[test]
fn build_feed_rejects_entry_without_link() {
    let raw = RawFeed {
        title: Some(String::from("A")),
        logo_url: None,
        entries: vec![entry(Some(1), vec![], Some("t"))],
    };
    let r = build_feed(String::from("https://a.example/feed.xml"), raw);
    assert!(matches!(r, Err(FeedError::MissingLink)));
}

#[test]
fn build_feed_rejects_entry_without_title() {
    let raw = RawFeed {
        title: Some(String::from("A")),
        logo_url: None,
        entries: vec![entry(Some(1), vec!["/x"], None)],
    };
    let r = build_feed(String::from("https://a.example/feed.xml"), raw);
    assert!(matches!(r, Err(FeedError::MissingTitle)));
}

#[test]
fn build_feed_one_bad_entry_fails_the_whole_feed() {
    let raw = RawFeed {
        title: Some(String::from("A")),
        logo_url: None,
        entries: vec![entry(Some(1), vec!["/ok"], Some("good")), entry(Some(2), vec![], Some("bad"))],
    };
    let r = build_feed(String::from("https://a.example/feed.xml"), raw);
    assert!(matches!(r, Err(FeedError::MissingLink)));
}

#[test]
fn build_feed_builds_items() {
    let mut first = entry(Some(5), vec!["/post/1", "/ignored"], Some("First"));
    first.updated = Some(9);
    first.thumbnail_url = Some(String::from("/thumb.png"));
    first.summary = Some(RawText { kind: ContentKind::Plain, content: String::from("sum") });
    let mut second = entry(None, vec!["https://b.example/abs"], Some("Second"));
    second.updated = Some(7);
    let raw = RawFeed {
        title: Some(String::from("A feed")),
        logo_url: Some(String::from("https://a.example/logo.png")),
        entries: vec![first, second],
    };
    let (feed, items) = build_feed(String::from("https://a.example/feed.xml"), raw).unwrap();
    assert_eq!(feed.url, "https://a.example/feed.xml");
    assert_eq!(feed.title, "A feed");
    assert_eq!(feed.logo_url, Some(String::from("https://a.example/logo.png")));
    assert_eq!(items.len(), 2);
    // published preferred over updated; first link, resolved absolute
    assert_eq!(items[0].timestamp, 5);
    assert_eq!(items[0].href, "https://a.example/post/1");
    assert_eq!(items[0].title, "First");
    assert_eq!(items[0].thumbnail_url, Some(String::from("https://a.example/thumb.png")));
    assert_eq!(items[0].summary, Some(String::from("sum")));
    // updated used when published is absent; absolute link unchanged
    assert_eq!(items[1].timestamp, 7);
    assert_eq!(items[1].href, "https://b.example/abs");
}
