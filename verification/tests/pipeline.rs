use feedview::feed::{Feed, Item};
use feedview::pipeline::{
    aggregate, assign_days, bucket_days, drop_homepage_links, highlight, sort_items, DatedItem,
    FeedItems, SourcedItem,
};

fn feed(url: &str, title: &str) -> Feed {
    Feed { url: String::from(url), title: String::from(title), logo_url: None }
}

fn item(timestamp: i64, href: &str, title: &str) -> Item {
    Item {
        timestamp,
        href: String::from(href),
        title: String::from(title),
        thumbnail_url: None,
        summary: None,
    }
}

fn dated(day: i64, feed_url: &str, timestamp: i64, href: &str, title: &str) -> DatedItem {
    DatedItem { day, feed: feed(feed_url, "F"), item: item(timestamp, href, title) }
}

#[test]
fn sort_is_newest_first() {
    let v = vec![
        SourcedItem { feed: feed("https://a.example/f", "A"), item: item(10, "https://x/1", "1") },
        SourcedItem { feed: feed("https://a.example/f", "A"), item: item(30, "https://x/2", "2") },
        SourcedItem { feed: feed("https://a.example/f", "A"), item: item(20, "https://x/3", "3") },
    ];
    let r = sort_items(v);
    let ts: Vec<i64> = r.iter().map(|p| p.item.timestamp).collect();
    assert_eq!(ts, vec![30, 20, 10]);
}

#[test]
fn homepage_links_are_dropped() {
    let v = vec![
        // fragment-stripped href is a prefix of the feed URL: dropped
        SourcedItem {
            feed: feed("https://a.example/feed", "A"),
            item: item(10, "https://a.example#event", "noise"),
        },
        SourcedItem {
            feed: feed("https://a.example/feed", "A"),
            item: item(20, "https://a.example/post", "keep"),
        },
    ];
    let r = drop_homepage_links(v);
    assert_eq!(r.len(), 1);
    assert_eq!(r[0].item.title, "keep");
}

#[test]
fn buckets_split_days_and_deduplicate() {
    // newest first, two days; the second day repeats one link
    let v = vec![
        dated(20302, "https://a.example/f", 500, "https://s.example/new", "newest"),
        dated(20301, "https://b.example/f", 400, "https://s.example/p#2", "later"),
        dated(20301, "https://b.example/f", 300, "https://s.example/p#1", "earlier"),
        dated(20301, "https://c.example/f", 200, "https://t.example/q", "other"),
    ];
    let buckets = bucket_days(v);
    assert_eq!(buckets.len(), 2);
    assert_eq!(buckets[0].day, 20302);
    assert_eq!(buckets[1].day, 20301);
    assert_eq!(buckets[0].entries.len(), 1);
    assert_eq!(buckets[1].entries.len(), 2);
    // repeat link collapsed: count 2, the stored item is the most
    // recently processed (the older) occurrence
    assert_eq!(buckets[1].entries[0].count, 2);
    assert_eq!(buckets[1].entries[0].item.title, "earlier");
    assert_eq!(buckets[1].entries[1].count, 1);
}

#[test]
fn highlight_marks_rare_domains_only() {
    let v = vec![
        dated(20301, "https://f.example/f", 700, "https://big.example/1", "b1"),
        dated(20301, "https://f.example/f", 600, "https://big.example/2", "b2"),
        dated(20301, "https://f.example/f", 500, "https://big.example/3", "b3"),
        dated(20301, "https://f.example/f", 400, "https://mid.example/1", "m1"),
        dated(20301, "https://f.example/f", 300, "https://mid.example/2", "m2"),
        dated(20301, "https://f.example/f", 200, "https://rare.example/1", "r1"),
    ];
    let buckets = highlight(bucket_days(v));
    assert_eq!(buckets.len(), 1);
    let flags: Vec<(String, bool)> = buckets[0]
        .entries
        .iter()
        .map(|e| (e.item.title.clone(), e.highlighted))
        .collect();
    // big.example has 3 entries: not fewer than 3, never highlighted;
    // mid.example (2) and rare.example (1) are under-represented
    assert_eq!(
        flags,
        vec![
            (String::from("b1"), false),
            (String::from("b2"), false),
            (String::from("b3"), false),
            (String::from("m1"), true),
            (String::from("m2"), true),
            (String::from("r1"), true),
        ]
    );
}

#[test]
fn highlight_needs_a_more_common_domain() {
    // every domain appears once: none is under-represented
    let v = vec![
        dated(20301, "https://f.example/f", 700, "https://a.example/1", "a"),
        dated(20301, "https://f.example/f", 600, "https://b.example/1", "b"),
    ];
    let buckets = highlight(bucket_days(v));
    assert!(buckets[0].entries.iter().all(|e| !e.highlighted));
}

#[test]
fn end_to_end_two_feeds_one_entry() {
    // Feed A's item is dated 2025-08-01T07:00:00Z and carries a
    // fragment; feed B's item, two hours later, links the same URL
    // without the fragment. Both fall on day 20301 (2025-08-01 UTC).
    let a_ts: i64 = 1_754_031_600_000_000;
    let b_ts: i64 = 1_754_038_800_000_000;
    let stream = vec![
        SourcedItem {
            feed: feed("https://a.example/feed.xml", "A"),
            item: item(a_ts, "https://site.example/rel#section", "Release"),
        },
        SourcedItem {
            feed: feed("https://b.example/feed.xml", "B"),
            item: item(b_ts, "https://site.example/rel", "Post"),
        },
    ];
    let sorted = sort_items(stream);
    let kept = drop_homepage_links(sorted);
    assert_eq!(kept.len(), 2);
    let datedv: Vec<DatedItem> =
        kept.into_iter().map(|p| DatedItem { day: 20301, feed: p.feed, item: p.item }).collect();
    let buckets = highlight(bucket_days(datedv));
    assert_eq!(buckets.len(), 1);
    assert_eq!(buckets[0].day, 20301);
    assert_eq!(buckets[0].entries.len(), 1);
    let entry = &buckets[0].entries[0];
    assert_eq!(entry.count, 2);
    // the stored item is the most recently processed duplicate: the
    // older one, feed A's "Release"
    assert_eq!(entry.item.title, "Release");
    assert_eq!(entry.item.href, "https://site.example/rel#section");
    assert_eq!(entry.item.timestamp, a_ts);
}

#[test]
fn aggregate_collapses_duplicates_whatever_the_zone() {
    let a_ts: i64 = 1_754_031_600_000_000;
    let b_ts: i64 = 1_754_038_800_000_000;
    let feeds = vec![
        FeedItems {
            feed: feed("https://a.example/feed.xml", "A"),
            items: vec![item(a_ts, "https://site.example/rel#section", "Release")],
        },
        FeedItems {
            feed: feed("https://b.example/feed.xml", "B"),
            items: vec![item(b_ts, "https://site.example/rel", "Post")],
        },
    ];
    let buckets = aggregate(feeds);
    let total: usize = buckets.iter().flat_map(|b| b.entries.iter()).map(|e| e.count).sum();
    assert_eq!(total, 2);
    assert!(buckets.len() <= 2);
}

#[test]
fn assign_days_keeps_items() {
    let v = vec![SourcedItem {
        feed: feed("https://a.example/f", "A"),
        item: item(1_754_031_600_000_000, "https://x/1", "1"),
    }];
    let r = assign_days(v);
    assert_eq!(r.len(), 1);
    assert_eq!(r[0].item.title, "1");
}
