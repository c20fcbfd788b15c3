use feedview::feed::{Feed, Item};
use feedview::pipeline::{DayBucket, DisplayEntry};
use feedview::render::{date_text, render, render_page, uint_string};

fn entry(href: &str, title: &str, count: usize, highlighted: bool) -> DisplayEntry {
    DisplayEntry {
        feed: Feed {
            url: String::from("https://a.example/feed.xml"),
            title: String::from("A feed"),
            logo_url: None,
        },
        item: Item {
            timestamp: 0,
            href: String::from(href),
            title: String::from(title),
            thumbnail_url: None,
            summary: None,
        },
        count,
        highlighted,
    }
}

#[test]
fn uint_string_writes_decimal() {
    assert_eq!(uint_string(0), "0");
    assert_eq!(uint_string(7), "7");
    assert_eq!(uint_string(42), "42");
    assert_eq!(uint_string(1000), "1000");
    assert_eq!(uint_string(u64::MAX), "18446744073709551615");
}

#[test]
fn date_text_is_iso() {
    assert_eq!(date_text(0), "1970-01-01");
    assert_eq!(date_text(-1), "1969-12-31");
    assert_eq!(date_text(11016), "2000-02-29");
    assert_eq!(date_text(20301), "2025-08-01");
}

#[test]
fn render_carries_nonce_twice_and_lists_entries() {
    let buckets = vec![DayBucket {
        day: 20301,
        entries: vec![
            entry("https://site.example/rel", "Release", 2, false),
            entry("https://rare.example/x", "Rare", 1, true),
        ],
    }];
    let html = render(&buckets, "THENONCE");
    assert!(html.contains("style-src 'nonce-THENONCE'"));
    assert!(html.contains("<style nonce=\"THENONCE\">"));
    assert!(html.contains("<h1>2025-08-01</h1>"));
    assert!(html.contains(
        "<li><a class=\"\" href=\"https://site.example/rel\">Release</a> (2x)</li>"
    ));
    assert!(html.contains(
        "<li><a class=\"highlight\" href=\"https://rare.example/x\">Rare</a></li>"
    ));
}

#[test]
fn render_shows_thumbnail_and_summary() {
    let mut e = entry("https://site.example/rel", "Release", 1, false);
    e.item.thumbnail_url = Some(String::from("https://site.example/t.png"));
    e.item.summary = Some(String::from("short text"));
    let buckets = vec![DayBucket { day: 0, entries: vec![e] }];
    let html = render(&buckets, "N");
    assert!(html.contains(
        "<img src=\"https://site.example/t.png\" title=\"A feed\"/> "
    ));
    assert!(html.contains("<span class=\"spacer\">&nbsp;</spacer>"));
    assert!(html.contains("<sup>\u{2514} short text</sup>"));
}

#[test]
fn render_falls_back_to_feed_logo() {
    let mut e = entry("https://site.example/rel", "Release", 1, false);
    e.feed.logo_url = Some(String::from("https://a.example/logo.png"));
    let buckets = vec![DayBucket { day: 0, entries: vec![e] }];
    let html = render(&buckets, "N");
    assert!(html.contains(
        "<img src=\"https://a.example/logo.png\" title=\"A feed\"/> "
    ));
}

#[test]
fn render_page_embeds_some_nonce() {
    let buckets = vec![DayBucket { day: 0, entries: vec![] }];
    let html = render_page(&buckets);
    assert!(html.contains("style-src 'nonce-"));
    assert!(html.contains("<h1>1970-01-01</h1>"));
    // the nonce is sixteen random bytes in padded URL-safe base64:
    // twenty-four characters of that alphabet, used identically twice
    let start = html.find("style-src 'nonce-").unwrap() + "style-src 'nonce-".len();
    let nonce = &html[start..html[start..].find('\'').unwrap() + start];
    assert_eq!(nonce.len(), 24);
    assert!(nonce
        .chars()
        .all(|c| c.is_ascii_alphanumeric() || c == '-' || c == '_' || c == '='));
    assert!(html.contains(&format!("<style nonce=\"{nonce}\">")));
}
