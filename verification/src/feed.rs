//! Feeds, items, and the validation that turns a parsed feed document
//! into them.
//!
//! A fetched document arrives as a `RawFeed` of plain values. Building
//! rejects a feed without a title, and any entry without a timestamp,
//! a link, or a title: one invalid entry invalidates the whole feed.
//! A valid entry's link and thumbnail are resolved absolute against
//! the feed's request URL, and its summary comes from the extractor.

use vstd::prelude::*;
use crate::extract::{spec_summary, summary, RawContent, RawText};
use crate::url::{make_absolute, spec_make_absolute};

verus! {

/// One syndication source: its request URL, title and logo.
pub struct Feed {
    pub url: String,
    pub title: String,
    pub logo_url: Option<String>,
}

/// The view of a feed: its fields as character sequences.
pub ghost struct GFeed {
    pub url: Seq<char>,
    pub title: Seq<char>,
    pub logo_url: Option<Seq<char>>,
}

impl View for Feed {
    type V = GFeed;

    open spec fn view(&self) -> GFeed {
        GFeed {
            url: self.url@,
            title: self.title@,
            logo_url: match self.logo_url {
                None => None,
                Some(u) => Some(u@),
            },
        }
    }
}

/// One entry of a feed: a dated absolute link with title, optional
/// thumbnail and optional summary. The timestamp counts microseconds
/// since the Unix epoch, UTC.
pub struct Item {
    pub timestamp: i64,
    pub href: String,
    pub title: String,
    pub thumbnail_url: Option<String>,
    pub summary: Option<String>,
}

/// The view of an item.
pub ghost struct GItem {
    pub timestamp: int,
    pub href: Seq<char>,
    pub title: Seq<char>,
    pub thumbnail_url: Option<Seq<char>>,
    pub summary: Option<Seq<char>>,
}

impl View for Item {
    type V = GItem;

    open spec fn view(&self) -> GItem {
        GItem {
            timestamp: self.timestamp as int,
            href: self.href@,
            title: self.title@,
            thumbnail_url: match self.thumbnail_url {
                None => None,
                Some(u) => Some(u@),
            },
            summary: match self.summary {
                None => None,
                Some(s) => Some(s@),
            },
        }
    }
}

/// Why a fetched feed was rejected.
#[derive(PartialEq, Eq, Structural, Clone, Copy, Debug)]
pub enum FeedError {
    /// An entry has neither a published nor an updated timestamp.
    MissingTimestamp,
    /// An entry has no link.
    MissingLink,
    /// An entry has no title.
    MissingTitle,
    /// The feed itself has no title.
    MissingFeedTitle,
}

/// A parsed feed document, before validation: every field optional.
pub struct RawFeed {
    pub title: Option<String>,
    pub logo_url: Option<String>,
    pub entries: Vec<RawEntry>,
}

/// A parsed feed entry, before validation.
pub struct RawEntry {
    pub published: Option<i64>,
    pub updated: Option<i64>,
    pub links: Vec<String>,
    pub title: Option<String>,
    pub thumbnail_url: Option<String>,
    pub summary: Option<RawText>,
    pub content: Option<RawContent>,
}

/// What building an item from a raw entry yields: the published
/// timestamp when present, else the updated one; the first link,
/// resolved absolute against the feed URL; the thumbnail likewise;
/// the summary from the extractor, handed the unresolved link.
pub open spec fn spec_build_item(feed_url: Seq<char>, e: RawEntry) -> Result<GItem, FeedError> {
    if e.published is None && e.updated is None {
        Err(FeedError::MissingTimestamp)
    } else if e.links@.len() == 0 {
        Err(FeedError::MissingLink)
    } else if e.title is None {
        Err(FeedError::MissingTitle)
    } else {
        let ts = if e.published is Some {
            e.published->Some_0
        } else {
            e.updated->Some_0
        };
        let raw_href = e.links@[0]@;
        Ok(
            GItem {
                timestamp: ts as int,
                href: spec_make_absolute(feed_url, raw_href),
                title: e.title->Some_0@,
                thumbnail_url: match e.thumbnail_url {
                    None => None,
                    Some(t) => Some(spec_make_absolute(feed_url, t@)),
                },
                summary: spec_summary(raw_href, e.summary, e.content),
            },
        )
    }
}

/// Builds one item from a raw entry.
pub fn build_item(feed_url: &str, e: RawEntry) -> (r: Result<Item, FeedError>)
    ensures
        r matches Ok(it) ==> spec_build_item(feed_url@, e) == Ok::<GItem, FeedError>(it@),
        r matches Err(er) ==> spec_build_item(feed_url@, e) == Err::<GItem, FeedError>(er),
{
    let timestamp: i64 = match (e.published, e.updated) {
        (Some(p), _) => p,
        (None, Some(u)) => u,
        (None, None) => {
            return Err(FeedError::MissingTimestamp);
        },
    };
    let mut links = e.links;
    if links.len() == 0 {
        return Err(FeedError::MissingLink);
    }
    let raw_href = links.remove(0);
    let title = match e.title {
        Some(t) => t,
        None => {
            return Err(FeedError::MissingTitle);
        },
    };
    let href = make_absolute(feed_url, raw_href.as_str());
    let thumbnail_url = match e.thumbnail_url {
        None => None,
        Some(t) => Some(make_absolute(feed_url, t.as_str())),
    };
    let summary = summary(raw_href.as_str(), e.summary, e.content);
    Ok(Item { timestamp, href, title, thumbnail_url, summary })
}

/// The views of a list of items.
pub open spec fn items_view(items: Seq<Item>) -> Seq<GItem> {
    items.map_values(|it: Item| it@)
}

/// What building all entries yields: the items in order, or the first
/// entry's error.
pub open spec fn spec_build_items(feed_url: Seq<char>, es: Seq<RawEntry>) -> Result<
    Seq<GItem>,
    FeedError,
>
    decreases es.len(),
{
    if es.len() == 0 {
        Ok(Seq::empty())
    } else {
        match spec_build_item(feed_url, es[0]) {
            Err(er) => Err(er),
            Ok(it) => match spec_build_items(feed_url, es.drop_first()) {
                Err(er) => Err(er),
                Ok(rest) => Ok(seq![it] + rest),
            },
        }
    }
}

/// What building the whole feed yields: the feed identity and its
/// items, or the first error found; a missing feed title is reported
/// before any entry is looked at.
pub open spec fn spec_build_feed(url: Seq<char>, raw: RawFeed) -> Result<
    (GFeed, Seq<GItem>),
    FeedError,
> {
    if raw.title is None {
        Err(FeedError::MissingFeedTitle)
    } else {
        match spec_build_items(url, raw.entries@) {
            Err(er) => Err(er),
            Ok(items) => Ok(
                (
                    GFeed {
                        url: url,
                        title: raw.title->Some_0@,
                        logo_url: match raw.logo_url {
                            None => None,
                            Some(u) => Some(u@),
                        },
                    },
                    items,
                ),
            ),
        }
    }
}

/// Validates a parsed feed document and builds the feed and its items.
pub fn build_feed(url: String, raw: RawFeed) -> (r: Result<(Feed, Vec<Item>), FeedError>)
    ensures
        r matches Ok(p) ==> spec_build_feed(url@, raw) == Ok::<_, FeedError>(
            (p.0@, items_view(p.1@)),
        ),
        r matches Err(er) ==> spec_build_feed(url@, raw) == Err::<(GFeed, Seq<GItem>), _>(er),
{
    let title = match raw.title {
        Some(t) => t,
        None => {
            return Err(FeedError::MissingFeedTitle);
        },
    };
    let mut entries = raw.entries;
    let ghost all = entries@;
    let mut items: Vec<Item> = Vec::new();
    proof {
        assert(items_view(items@) =~= Seq::<GItem>::empty());
        assert(all.skip(0) =~= all);
    }
    while entries.len() > 0
        invariant
            raw.title is Some,
            all == raw.entries@,
            entries@ == all.skip(all.len() - entries@.len()),
            entries@.len() <= all.len(),
            ({
                let i = all.len() - entries@.len();
                spec_build_items(url@, all) == (match spec_build_items(url@, all.skip(i)) {
                    Err(er) => Err::<Seq<GItem>, FeedError>(er),
                    Ok(rest) => Ok(items_view(items@) + rest),
                })
            }),
        decreases entries@.len(),
    {
        let ghost i = all.len() - entries@.len();
        let ghost items_before = items@;
        let e = entries.remove(0);
        proof {
            assert(e == all.skip(i)[0]);
            assert(entries@ =~= all.skip(i + 1));
        }
        match build_item(url.as_str(), e) {
            Err(er) => {
                proof {
                    assert(spec_build_items(url@, all) == Err::<Seq<GItem>, FeedError>(er));
                }
                return Err(er);
            },
            Ok(it) => {
                proof {
                    assert(all.skip(i).drop_first() =~= all.skip(i + 1));
                    assert(items_view(items_before.push(it)) =~= items_view(items_before).push(
                        it@,
                    ));
                    if spec_build_items(url@, all.skip(i + 1)) is Ok {
                        let rest = spec_build_items(url@, all.skip(i + 1))->Ok_0;
                        assert(items_view(items_before).push(it@) + rest =~= items_view(
                            items_before,
                        ) + (seq![it@] + rest));
                    }
                }
                items.push(it);
            },
        }
    }
    proof {
        assert(all.skip(all.len() as int) =~= Seq::<RawEntry>::empty());
        assert(items_view(items@) + Seq::<GItem>::empty() =~= items_view(items@));
    }
    let feed = Feed { url, title, logo_url: raw.logo_url };
    Ok((feed, items))
}

} // verus!
