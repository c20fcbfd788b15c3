//! The aggregation pipeline: flatten fetched feeds into one stream,
//! sort it newest first, drop homepage noise links, bucket by local
//! calendar day with per-day deduplication, and highlight entries
//! from under-represented domains.

use vstd::prelude::*;
use vstd::seq_lib::group_to_multiset_ensures;
use vstd::multiset::Multiset;
use crate::feed::{items_view, Feed, GFeed, GItem, Item};
use crate::time::{local_day, spec_day_of};
use crate::url::{prefix, spec_prefix, spec_starts_with, starts_with};
use crate::chars::chars_of;

verus! {

/// One fetched feed with its items: the fan-in result for one URL.
pub struct FeedItems {
    pub feed: Feed,
    pub items: Vec<Item>,
}

/// The view of a fetched feed.
#[verifier::ext_equal]
pub ghost struct GFeedItems {
    pub feed: GFeed,
    pub items: Seq<GItem>,
}

impl View for FeedItems {
    type V = GFeedItems;

    open spec fn view(&self) -> GFeedItems {
        GFeedItems { feed: self.feed@, items: items_view(self.items@) }
    }
}

/// One item together with the feed it came from.
pub struct SourcedItem {
    pub feed: Feed,
    pub item: Item,
}

/// The view of a sourced item.
#[verifier::ext_equal]
pub ghost struct GSourced {
    pub feed: GFeed,
    pub item: GItem,
}

impl View for SourcedItem {
    type V = GSourced;

    open spec fn view(&self) -> GSourced {
        GSourced { feed: self.feed@, item: self.item@ }
    }
}

/// The views of a list of fetched feeds.
pub open spec fn fi_view(s: Seq<FeedItems>) -> Seq<GFeedItems> {
    s.map_values(|f: FeedItems| f@)
}

/// The views of a list of sourced items.
pub open spec fn sourced_view(s: Seq<SourcedItem>) -> Seq<GSourced> {
    s.map_values(|p: SourcedItem| p@)
}

/// A copy of a feed, field by field.
pub fn clone_feed(f: &Feed) -> (r: Feed)
    ensures
        r@ == f@,
{
    Feed {
        url: f.url.clone(),
        title: f.title.clone(),
        logo_url: match &f.logo_url {
            None => None,
            Some(u) => Some(u.clone()),
        },
    }
}

/// The items of one feed, each paired with that feed.
pub open spec fn spec_pairs_of(fi: GFeedItems) -> Seq<GSourced> {
    fi.items.map_values(|it: GItem| GSourced { feed: fi.feed, item: it })
}

/// Every feed's items in one stream, feeds in order, each feed's
/// items in order.
pub open spec fn spec_flatten(fs: Seq<GFeedItems>) -> Seq<GSourced>
    decreases fs.len(),
{
    if fs.len() == 0 {
        Seq::empty()
    } else {
        spec_pairs_of(fs[0]) + spec_flatten(fs.drop_first())
    }
}

/// Combines every feed's items into one stream.
pub fn flatten(feeds: Vec<FeedItems>) -> (r: Vec<SourcedItem>)
    ensures
        sourced_view(r@) == spec_flatten(fi_view(feeds@)),
{
    let ghost all = fi_view(feeds@);
    let mut feeds = feeds;
    let mut out: Vec<SourcedItem> = Vec::new();
    proof {
        assert(sourced_view(out@) =~= Seq::<GSourced>::empty());
        assert(fi_view(feeds@).skip(0) =~= fi_view(feeds@));
        assert(Seq::<GSourced>::empty() + spec_flatten(all) =~= spec_flatten(all));
    }
    while feeds.len() > 0
        invariant
            fi_view(feeds@) == all.skip(all.len() - feeds@.len()),
            feeds@.len() <= all.len(),
            spec_flatten(all) == sourced_view(out@) + spec_flatten(fi_view(feeds@)),
        decreases feeds@.len(),
    {
        let ghost i = all.len() - feeds@.len();
        let fi = feeds.remove(0);
        proof {
            assert(fi_view(feeds@.insert(0, fi))[0] == fi@);
            assert(fi@ == all.skip(i)[0]);
            assert(fi_view(feeds@) =~= all.skip(i).drop_first());
            assert(all.skip(i).drop_first() =~= all.skip(i + 1));
        }
        let feed = fi.feed;
        let mut items = fi.items;
        let total = items.len();
        let ghost fitems = items_view(items@);
        let ghost out_base = sourced_view(out@);
        let ghost gfeed = feed@;
        let mut j: usize = 0;
        proof {
            assert(spec_pairs_of(all.skip(i)[0]).take(0) =~= Seq::<GSourced>::empty());
            assert(out_base + Seq::<GSourced>::empty() =~= out_base);
        }
        while items.len() > 0
            invariant
                items_view(items@) == fitems.skip(j as int),
                j + items@.len() == fitems.len(),
                fitems.len() == total,
                gfeed == all.skip(i)[0].feed,
                fitems == all.skip(i)[0].items,
                0 <= i < all.len(),
                feed@ == gfeed,
                sourced_view(out@) == out_base + spec_pairs_of(all.skip(i)[0]).take(j as int),
            decreases items@.len(),
        {
            let it = items.remove(0);
            proof {
                assert(items_view(items@.insert(0, it))[0] == it@);
                assert(it@ == fitems.skip(j as int)[0]);
                assert(items_view(items@) =~= fitems.skip(j as int).drop_first());
                assert(fitems.skip(j as int).drop_first() =~= fitems.skip(j + 1));
            }
            let pair = SourcedItem { feed: clone_feed(&feed), item: it };
            proof {
                let ghost before = sourced_view(out@);
                assert(pair@ == spec_pairs_of(all.skip(i)[0])[j as int]);
                assert(sourced_view(out@.push(pair)) =~= sourced_view(out@).push(pair@));
                assert(spec_pairs_of(all.skip(i)[0]).take(j + 1) =~= spec_pairs_of(
                    all.skip(i)[0],
                ).take(j as int).push(spec_pairs_of(all.skip(i)[0])[j as int]));
                assert((out_base + spec_pairs_of(all.skip(i)[0]).take(j as int)).push(pair@)
                    =~= out_base + spec_pairs_of(all.skip(i)[0]).take(j + 1));
            }
            out.push(pair);
            j = j + 1;
        }
        proof {
            assert(spec_pairs_of(all.skip(i)[0]).take(fitems.len() as int) =~= spec_pairs_of(
                all.skip(i)[0],
            ));
            assert(spec_flatten(all.skip(i)) == spec_pairs_of(all.skip(i)[0]) + spec_flatten(
                all.skip(i + 1),
            ));
            assert((out_base + spec_pairs_of(all.skip(i)[0])) + spec_flatten(all.skip(i + 1))
                =~= out_base + (spec_pairs_of(all.skip(i)[0]) + spec_flatten(all.skip(i + 1))));
        }
    }
    proof {
        assert(fi_view(feeds@) =~= Seq::<GFeedItems>::empty());
        assert(all.skip(all.len() as int) =~= Seq::<GFeedItems>::empty());
        assert(spec_flatten(Seq::<GFeedItems>::empty()) =~= Seq::<GSourced>::empty());
        assert(sourced_view(out@) + Seq::<GSourced>::empty() =~= sourced_view(out@));
    }
    out
}

/// Newest first: timestamps never increase along the stream.
pub open spec fn spec_sorted_desc(s: Seq<SourcedItem>) -> bool {
    forall|i: int, j: int|
        0 <= i < j < s.len() ==> (#[trigger] s[i]).item.timestamp >= (#[trigger] s[j]).item.timestamp
}

/// Sorts the stream by timestamp, newest first.
pub fn sort_items(v: Vec<SourcedItem>) -> (r: Vec<SourcedItem>)
    ensures
        spec_sorted_desc(r@),
        r@.to_multiset() == v@.to_multiset(),
{
    let ghost orig = v@.to_multiset();
    let mut v = v;
    let mut out: Vec<SourcedItem> = Vec::new();
    proof {
        broadcast use group_to_multiset_ensures;

        assert(forall|a: SourcedItem| !out@.contains(a));
        assert(out@.to_multiset().add(v@.to_multiset()) =~= v@.to_multiset());
    }
    while v.len() > 0
        invariant
            spec_sorted_desc(out@),
            out@.to_multiset().add(v@.to_multiset()) == orig,
            forall|x: int, y: int|
                0 <= x < out@.len() && 0 <= y < v@.len() ==> (#[trigger] out@[x]).item.timestamp
                    >= (#[trigger] v@[y]).item.timestamp,
        decreases v@.len(),
    {
        let mut m: usize = 0;
        let mut t: usize = 1;
        while t < v.len()
            invariant
                m < t <= v@.len() || (t <= v@.len() && m == 0),
                m < v@.len(),
                0 < v@.len(),
                forall|y: int|
                    0 <= y < t ==> v@[m as int].item.timestamp >= (#[trigger] v@[y]).item.timestamp,
            decreases v@.len() - t,
        {
            if v[t].item.timestamp > v[m].item.timestamp {
                m = t;
            }
            t = t + 1;
        }
        let ghost vm = v@[m as int];
        let ghost out_before = out@;
        let ghost v_before = v@;
        let x = v.remove(m);
        proof {
            broadcast use group_to_multiset_ensures;

            assert(out_before.push(x).to_multiset() =~= out_before.to_multiset().insert(x));
            assert(v_before.remove(m as int).to_multiset() =~= v_before.to_multiset().remove(x));
            assert(out_before.to_multiset().insert(x).add(v_before.to_multiset().remove(x))
                =~= out_before.to_multiset().add(v_before.to_multiset()));
            assert(forall|y: int|
                0 <= y < v@.len() ==> exists|z: int|
                    0 <= z < v_before.len() && v_before[z] == #[trigger] v@[y]);
        }
        out.push(x);
    }
    proof {
        broadcast use group_to_multiset_ensures;

        assert(forall|a: SourcedItem| !v@.contains(a));
        assert(v@.to_multiset() =~= Multiset::<SourcedItem>::empty());
        assert(out@.to_multiset().add(Multiset::<SourcedItem>::empty()) =~= out@.to_multiset());
    }
    out
}

/// Whether a pair survives the homepage filter: it is dropped when
/// its fragment-stripped link is a prefix of its own feed's URL.
pub open spec fn spec_keep(p: SourcedItem) -> bool {
    !spec_starts_with(p.feed.url@, spec_prefix(p.item.href@))
}

/// Drops items that merely point at (a prefix of) their feed's URL.
pub fn drop_homepage_links(v: Vec<SourcedItem>) -> (r: Vec<SourcedItem>)
    ensures
        r@ == v@.filter(|p: SourcedItem| spec_keep(p)),
{
    let ghost all = v@;
    let mut v = v;
    let mut out: Vec<SourcedItem> = Vec::new();
    let mut i: usize = 0;
    proof {
        reveal(Seq::filter);
        assert(all.take(0).filter(|p: SourcedItem| spec_keep(p)) =~= Seq::<SourcedItem>::empty());
    }
    let total = v.len();
    while v.len() > 0
        invariant
            all.len() == total,
            all.len() == i + v@.len(),
            v@ == all.skip(i as int),
            out@ == all.take(i as int).filter(|p: SourcedItem| spec_keep(p)),
        decreases v@.len(),
    {
        let p = v.remove(0);
        proof {
            assert(p == all.skip(i as int)[0]);
            assert(p == all[i as int]);
            assert(v@ =~= all.skip(i + 1));
        }
        let key = prefix(p.item.href.as_str());
        let feed_url = chars_of(p.feed.url.as_str());
        let key_chars = chars_of(key.as_str());
        let keep = !starts_with(&feed_url, &key_chars);
        proof {
            reveal(Seq::filter);
            let pred = |q: SourcedItem| spec_keep(q);
            assert(keep == spec_keep(p));
            assert(all.take(i + 1).drop_last() =~= all.take(i as int));
            assert(all.take(i + 1).last() == all[i as int]);
            if keep {
                assert(all.take(i + 1).filter(pred) =~= all.take(i as int).filter(pred).push(
                    all[i as int],
                ));
            } else {
                assert(all.take(i + 1).filter(pred) =~= all.take(i as int).filter(pred));
            }
        }
        if keep {
            out.push(p);
        }
        i = i + 1;
    }
    proof {
        assert(all.take(all.len() as int) =~= all);
    }
    out
}

/// A sourced item stamped with its local calendar day.
pub struct DatedItem {
    pub day: i64,
    pub feed: Feed,
    pub item: Item,
}

/// The view of a dated item.
#[verifier::ext_equal]
pub ghost struct GDated {
    pub day: int,
    pub feed: GFeed,
    pub item: GItem,
}

impl View for DatedItem {
    type V = GDated;

    open spec fn view(&self) -> GDated {
        GDated { day: self.day as int, feed: self.feed@, item: self.item@ }
    }
}

/// The views of a list of dated items.
pub open spec fn dated_view(s: Seq<DatedItem>) -> Seq<GDated> {
    s.map_values(|d: DatedItem| d@)
}

/// One line of the rendered day list: an item, its feed, how many raw
/// items collapsed into it, and whether it is highlighted.
pub struct DisplayEntry {
    pub feed: Feed,
    pub item: Item,
    pub count: usize,
    pub highlighted: bool,
}

/// The view of a display entry.
#[verifier::ext_equal]
pub ghost struct GEntry {
    pub feed: GFeed,
    pub item: GItem,
    pub count: int,
    pub highlighted: bool,
}

impl View for DisplayEntry {
    type V = GEntry;

    open spec fn view(&self) -> GEntry {
        GEntry {
            feed: self.feed@,
            item: self.item@,
            count: self.count as int,
            highlighted: self.highlighted,
        }
    }
}

/// The views of a list of display entries.
pub open spec fn entries_view(s: Seq<DisplayEntry>) -> Seq<GEntry> {
    s.map_values(|e: DisplayEntry| e@)
}

/// One day of the view: a local calendar day (as days since the
/// epoch) and its deduplicated entries, first seen first.
pub struct DayBucket {
    pub day: i64,
    pub entries: Vec<DisplayEntry>,
}

/// The view of a day bucket.
#[verifier::ext_equal]
pub ghost struct GBucket {
    pub day: int,
    pub entries: Seq<GEntry>,
}

impl View for DayBucket {
    type V = GBucket;

    open spec fn view(&self) -> GBucket {
        GBucket { day: self.day as int, entries: entries_view(self.entries@) }
    }
}

/// The views of a list of day buckets.
pub open spec fn buckets_view(s: Seq<DayBucket>) -> Seq<GBucket> {
    s.map_values(|b: DayBucket| b@)
}

/// Stamps each item of the sorted, filtered stream with its local
/// calendar day. The day comes from the machine's time zone, whose
/// offset from UTC is bounded by a day in either direction.
pub fn assign_days(v: Vec<SourcedItem>) -> (r: Vec<DatedItem>)
    ensures
        r@.len() == v@.len(),
        forall|i: int|
            0 <= i < v@.len() ==> (#[trigger] r@[i]).feed == v@[i].feed && r@[i].item == v@[i].item
                && -106_800_000_000 < r@[i].day < 106_800_000_000 && exists|off: int|
                -86400 < off < 86400 && r@[i].day as int == spec_day_of(
                    v@[i].item.timestamp as int,
                    off,
                ),
{
    let ghost all = v@;
    let mut v = v;
    let mut out: Vec<DatedItem> = Vec::new();
    let total = v.len();
    let mut i: usize = 0;
    while v.len() > 0
        invariant
            all.len() == total,
            all.len() == i + v@.len(),
            v@ == all.skip(i as int),
            out@.len() == i,
            forall|t: int|
                0 <= t < i ==> (#[trigger] out@[t]).feed == all[t].feed && out@[t].item
                    == all[t].item && -106_800_000_000 < out@[t].day < 106_800_000_000 && exists|
                    off: int,
                |
                    -86400 < off < 86400 && out@[t].day as int == spec_day_of(
                        all[t].item.timestamp as int,
                        off,
                    ),
        decreases v@.len(),
    {
        let p = v.remove(0);
        proof {
            assert(p == all.skip(i as int)[0]);
            assert(p == all[i as int]);
            assert(v@ =~= all.skip(i + 1));
        }
        let day = local_day(p.item.timestamp);
        out.push(DatedItem { day, feed: p.feed, item: p.item });
        i = i + 1;
    }
    out
}

/// The key repeat links collapse under: the fragment-stripped link.
pub open spec fn spec_key(it: GItem) -> Seq<char> {
    spec_prefix(it.href)
}

/// The first entry position holding the key, or `-1`.
pub open spec fn spec_find_key(es: Seq<GEntry>, key: Seq<char>) -> int
    decreases es.len(),
{
    if es.len() == 0 {
        -1
    } else if spec_key(es[0].item) == key {
        0
    } else {
        let r = spec_find_key(es.drop_first(), key);
        if r == -1 {
            -1
        } else {
            r + 1
        }
    }
}

/// What `spec_find_key` finds: the first match, or nothing anywhere.
pub proof fn lemma_find_key_char(es: Seq<GEntry>, key: Seq<char>)
    ensures
        spec_find_key(es, key) == -1 <==> (forall|k: int|
            0 <= k < es.len() ==> spec_key((#[trigger] es[k]).item) != key),
        spec_find_key(es, key) != -1 ==> 0 <= spec_find_key(es, key) < es.len() && spec_key(
            es[spec_find_key(es, key)].item,
        ) == key && (forall|t: int|
            0 <= t < spec_find_key(es, key) ==> spec_key((#[trigger] es[t]).item) != key),
    decreases es.len(),
{
    if es.len() > 0 {
        lemma_find_key_char(es.drop_first(), key);
        assert(forall|k: int|
            1 <= k < es.len() ==> (#[trigger] es[k]) == es.drop_first()[k - 1]);
    }
}

/// A fresh entry for a record: counted once, not yet highlighted.
pub open spec fn spec_new_entry(d: GDated) -> GEntry {
    GEntry { feed: d.feed, item: d.item, count: 1, highlighted: false }
}

/// A record joins a bucket: a new key appends a fresh entry; a known
/// key keeps its entry's place and feed, takes the record's item, and
/// counts once more.
pub open spec fn spec_bucket_add(b: GBucket, d: GDated) -> GBucket {
    let k = spec_find_key(b.entries, spec_key(d.item));
    if k == -1 {
        GBucket { day: b.day, entries: b.entries.push(spec_new_entry(d)) }
    } else {
        GBucket {
            day: b.day,
            entries: b.entries.update(
                k,
                GEntry {
                    feed: b.entries[k].feed,
                    item: d.item,
                    count: b.entries[k].count + 1,
                    highlighted: false,
                },
            ),
        }
    }
}

/// A record joins the bucket list: the last bucket when the day
/// matches, else a new bucket.
pub open spec fn spec_bucket_step(bs: Seq<GBucket>, d: GDated) -> Seq<GBucket> {
    if bs.len() > 0 && bs.last().day == d.day {
        bs.update(bs.len() - 1, spec_bucket_add(bs.last(), d))
    } else {
        bs.push(GBucket { day: d.day, entries: seq![spec_new_entry(d)] })
    }
}

/// The bucket list the dated stream folds into, record by record.
pub open spec fn spec_buckets(s: Seq<GDated>) -> Seq<GBucket>
    decreases s.len(),
{
    if s.len() == 0 {
        Seq::empty()
    } else {
        spec_bucket_step(spec_buckets(s.drop_last()), s.last())
    }
}

/// No entry counts more records than the stream holds.
pub proof fn lemma_bucket_counts(s: Seq<GDated>)
    ensures
        forall|j: int, k: int|
            0 <= j < spec_buckets(s).len() && 0 <= k < (#[trigger] spec_buckets(s)[j]).entries.len()
                ==> 1 <= (#[trigger] spec_buckets(s)[j].entries[k]).count <= s.len(),
    decreases s.len(),
{
    if s.len() > 0 {
        lemma_bucket_counts(s.drop_last());
        let bs0 = spec_buckets(s.drop_last());
        let d = s.last();
        if bs0.len() > 0 && bs0.last().day == d.day {
            lemma_find_key_char(bs0.last().entries, spec_key(d.item));
        }
    }
}

/// Splits the dated stream into day buckets, collapsing repeat links
/// within each day.
pub fn bucket_days(v: Vec<DatedItem>) -> (r: Vec<DayBucket>)
    ensures
        buckets_view(r@) == spec_buckets(dated_view(v@)),
{
    let ghost allx = v@;
    let ghost all = dated_view(v@);
    let mut v = v;
    let mut out: Vec<DayBucket> = Vec::new();
    let total = v.len();
    let mut i: usize = 0;
    proof {
        assert(buckets_view(out@) =~= Seq::<GBucket>::empty());
        assert(all.take(0) =~= Seq::<GDated>::empty());
        assert(spec_buckets(all.take(0)) =~= Seq::<GBucket>::empty());
        assert(v@ =~= allx.skip(0));
    }
    while v.len() > 0
        invariant
            all == dated_view(allx),
            all.len() == allx.len() == total,
            allx.len() == i + v@.len(),
            v@ == allx.skip(i as int),
            buckets_view(out@) == spec_buckets(all.take(i as int)),
        decreases v@.len(),
    {
        let d = v.remove(0);
        proof {
            assert(d == allx.skip(i as int)[0]);
            assert(d == allx[i as int]);
            assert(d@ == all[i as int]);
            assert(v@ =~= allx.skip(i + 1));
            assert(all.take(i + 1).drop_last() =~= all.take(i as int));
            assert(all.take(i + 1).last() == all[i as int]);
        }
        let ghost bs0 = spec_buckets(all.take(i as int));
        let n_out = out.len();
        let mut same_day = false;
        if n_out > 0 {
            if out[n_out - 1].day == d.day {
                same_day = true;
            }
        }
        proof {
            if n_out > 0 {
                assert(buckets_view(out@)[n_out - 1] == out@[n_out - 1]@);
                assert(bs0.last() == out@[n_out - 1]@);
            }
            assert(same_day == (bs0.len() > 0 && bs0.last().day == d@.day));
        }
        if same_day {
            let mut b = match out.pop() {
                Some(b) => b,
                None => DayBucket { day: d.day, entries: Vec::new() },
            };
            let ghost gb = bs0.last();
            proof {
                assert(b@ == gb);
                assert(buckets_view(out@) =~= bs0.drop_last());
            }
            let key = prefix(d.item.href.as_str());
            let ghost gkey = spec_key(d@.item);
            proof {
                assert(key@ == gkey);
            }
            let mut found: Option<usize> = None;
            let mut k: usize = 0;
            let ghost ges = gb.entries;
            while k < b.entries.len()
                invariant
                    k <= b.entries@.len(),
                    ges == entries_view(b.entries@),
                    gkey == key@,
                    (match found {
                        None => forall|t: int|
                            0 <= t < k ==> spec_key((#[trigger] ges[t]).item) != gkey,
                        Some(f) => f < k && spec_key(ges[f as int].item) == gkey && (forall|t: int|
                            0 <= t < f ==> spec_key((#[trigger] ges[t]).item) != gkey),
                    }),
                decreases b.entries@.len() - k,
            {
                let ek = prefix(b.entries[k].item.href.as_str());
                proof {
                    assert(ges[k as int] == b.entries@[k as int]@);
                    assert(ek@ == spec_key(ges[k as int].item));
                }
                if found.is_none() && ek == key {
                    found = Some(k);
                }
                k = k + 1;
            }
            proof {
                lemma_find_key_char(ges, gkey);
                match found {
                    None => {
                        assert(spec_find_key(ges, gkey) == -1);
                    },
                    Some(f) => {
                        assert(spec_find_key(ges, gkey) == f as int);
                    },
                }
            }
            match found {
                Some(f) => {
                    let old_count = b.entries[f].count;
                    proof {
                        lemma_bucket_counts(all.take(i as int));
                        assert(ges[f as int].count == old_count as int);
                        assert(old_count as int <= all.take(i as int).len());
                    }
                    let feed2 = clone_feed(&b.entries[f].feed);
                    let ghost entries_before = b.entries@;
                    b.entries[f] = DisplayEntry {
                        feed: feed2,
                        item: d.item,
                        count: old_count + 1,
                        highlighted: false,
                    };
                    proof {
                        assert(entries_view(b.entries@) =~= spec_bucket_add(gb, d@).entries);
                        assert(b@ =~= spec_bucket_add(gb, d@));
                    }
                },
                None => {
                    let entry = DisplayEntry {
                        feed: clone_feed(&d.feed),
                        item: d.item,
                        count: 1,
                        highlighted: false,
                    };
                    proof {
                        assert(entry@ =~= spec_new_entry(d@));
                        assert(entries_view(b.entries@.push(entry)) =~= entries_view(
                            b.entries@,
                        ).push(entry@));
                    }
                    b.entries.push(entry);
                    proof {
                        assert(b@ =~= spec_bucket_add(gb, d@));
                    }
                },
            }
            let ghost out_before = out@;
            out.push(b);
            proof {
                assert(buckets_view(out_before.push(b)) =~= buckets_view(out_before).push(b@));
                assert(bs0.drop_last().push(spec_bucket_add(bs0.last(), d@)) =~= bs0.update(
                    bs0.len() - 1,
                    spec_bucket_add(bs0.last(), d@),
                ));
                assert(buckets_view(out@) =~= spec_buckets(all.take(i + 1)));
            }
        } else {
            let entry = DisplayEntry {
                feed: clone_feed(&d.feed),
                item: d.item,
                count: 1,
                highlighted: false,
            };
            let mut entries: Vec<DisplayEntry> = Vec::new();
            proof {
                assert(entry@ =~= spec_new_entry(d@));
            }
            entries.push(entry);
            let b = DayBucket { day: d.day, entries };
            let ghost out_before = out@;
            proof {
                assert(entries_view(b.entries@) =~= seq![spec_new_entry(d@)]);
                assert(b@ =~= GBucket { day: d@.day, entries: seq![spec_new_entry(d@)] });
                assert(buckets_view(out_before.push(b)) =~= buckets_view(out_before).push(b@));
            }
            out.push(b);
            proof {
                assert(buckets_view(out@) =~= spec_buckets(all.take(i + 1)));
            }
        }
        i = i + 1;
    }
    proof {
        assert(all.take(all.len() as int) =~= all);
    }
    out
}

/// The domain an entry is counted under.
pub open spec fn spec_entry_domain(e: GEntry) -> Seq<char> {
    crate::url::spec_domain(e.item.href)
}

/// How many entries of the bucket share the domain.
pub open spec fn spec_domain_count(es: Seq<GEntry>, dom: Seq<char>) -> int
    decreases es.len(),
{
    if es.len() == 0 {
        0
    } else {
        spec_domain_count(es.drop_last(), dom) + if spec_entry_domain(es.last()) == dom {
            1int
        } else {
            0int
        }
    }
}

/// The largest per-domain entry count among the first `k` entries'
/// domains, counted over the whole bucket.
pub open spec fn spec_max_dc_upto(es: Seq<GEntry>, k: int) -> int
    decreases k,
{
    if k <= 0 {
        0
    } else {
        let c = spec_domain_count(es, spec_entry_domain(es[k - 1]));
        let m = spec_max_dc_upto(es, k - 1);
        if c > m {
            c
        } else {
            m
        }
    }
}

/// The day's largest per-domain entry count.
pub open spec fn spec_max_dc(es: Seq<GEntry>) -> int {
    spec_max_dc_upto(es, es.len() as int)
}

/// Whether an entry of the bucket is highlighted: its domain appears
/// on fewer than three entries, and on fewer than the day's most
/// repeated domain.
pub open spec fn spec_highlighted(es: Seq<GEntry>, e: GEntry) -> bool {
    let c = spec_domain_count(es, spec_entry_domain(e));
    c < 3 && c < spec_max_dc(es)
}

/// The bucket's entries with their highlight flags computed.
pub open spec fn spec_highlight_entries(es: Seq<GEntry>) -> Seq<GEntry> {
    es.map_values(
        |e: GEntry|
            GEntry { feed: e.feed, item: e.item, count: e.count, highlighted: spec_highlighted(es, e) },
    )
}

/// A bucket with its highlight pass applied.
pub open spec fn spec_highlight_bucket(b: GBucket) -> GBucket {
    GBucket { day: b.day, entries: spec_highlight_entries(b.entries) }
}

/// All buckets with their highlight passes applied, independently.
pub open spec fn spec_highlight_all(bs: Seq<GBucket>) -> Seq<GBucket> {
    bs.map_values(|b: GBucket| spec_highlight_bucket(b))
}

/// How many entries of the list share the given domain.
fn domain_count(entries: &Vec<DisplayEntry>, dom: &String) -> (c: usize)
    ensures
        c as int == spec_domain_count(entries_view(entries@), dom@),
        c <= entries@.len(),
{
    let ghost ges = entries_view(entries@);
    let mut c: usize = 0;
    let mut k: usize = 0;
    proof {
        assert(ges.take(0) =~= Seq::<GEntry>::empty());
    }
    while k < entries.len()
        invariant
            k <= entries@.len(),
            ges == entries_view(entries@),
            c <= k,
            c as int == spec_domain_count(ges.take(k as int), dom@),
        decreases entries@.len() - k,
    {
        let ed = crate::url::domain(entries[k].item.href.as_str());
        proof {
            assert(ges[k as int] == entries@[k as int]@);
            assert(ed@ == spec_entry_domain(ges[k as int]));
            assert(ges.take(k + 1).drop_last() =~= ges.take(k as int));
            assert(ges.take(k + 1).last() == ges[k as int]);
        }
        if ed == *dom {
            c = c + 1;
        }
        k = k + 1;
    }
    proof {
        assert(ges.take(ges.len() as int) =~= ges);
    }
    c
}

/// Applies the highlight rule to one bucket.
fn highlight_bucket(b: DayBucket) -> (r: DayBucket)
    ensures
        r@ == spec_highlight_bucket(b@),
{
    let ghost ges = entries_view(b.entries@);
    let mut m: usize = 0;
    let mut k: usize = 0;
    while k < b.entries.len()
        invariant
            k <= b.entries@.len(),
            ges == entries_view(b.entries@),
            m as int == spec_max_dc_upto(ges, k as int),
            m <= b.entries@.len(),
        decreases b.entries@.len() - k,
    {
        let dk = crate::url::domain(b.entries[k].item.href.as_str());
        let c = domain_count(&b.entries, &dk);
        proof {
            assert(ges[k as int] == b.entries@[k as int]@);
            assert(dk@ == spec_entry_domain(ges[k as int]));
        }
        if c > m {
            m = c;
        }
        k = k + 1;
    }
    let mut flags: Vec<bool> = Vec::new();
    k = 0;
    while k < b.entries.len()
        invariant
            k <= b.entries@.len(),
            ges == entries_view(b.entries@),
            m as int == spec_max_dc(ges),
            flags@.len() == k,
            forall|t: int| 0 <= t < k ==> flags@[t] == spec_highlighted(ges, ges[t]),
        decreases b.entries@.len() - k,
    {
        let dk = crate::url::domain(b.entries[k].item.href.as_str());
        let c = domain_count(&b.entries, &dk);
        proof {
            assert(ges[k as int] == b.entries@[k as int]@);
            assert(dk@ == spec_entry_domain(ges[k as int]));
        }
        flags.push(c < 3 && c < m);
        k = k + 1;
    }
    let ghost orig = b.entries@;
    let n_orig = flags.len();
    let mut entries = b.entries;
    let mut out: Vec<DisplayEntry> = Vec::new();
    k = 0;
    while entries.len() > 0
        invariant
            orig.len() == n_orig,
            orig.len() == k + entries@.len(),
            entries@ == orig.skip(k as int),
            ges == entries_view(orig),
            flags@.len() == orig.len(),
            forall|t: int| 0 <= t < orig.len() ==> flags@[t] == spec_highlighted(ges, ges[t]),
            out@.len() == k,
            forall|t: int|
                0 <= t < k ==> (#[trigger] out@[t])@ == spec_highlight_entries(ges)[t],
        decreases entries@.len(),
    {
        let e = entries.remove(0);
        proof {
            assert(e == orig.skip(k as int)[0]);
            assert(e == orig[k as int]);
            assert(entries@ =~= orig.skip(k + 1));
            assert(ges[k as int] == orig[k as int]@);
        }
        let h = flags[k];
        out.push(DisplayEntry { feed: e.feed, item: e.item, count: e.count, highlighted: h });
        k = k + 1;
    }
    let r = DayBucket { day: b.day, entries: out };
    proof {
        assert(entries_view(r.entries@) =~= spec_highlight_entries(ges));
        assert(r@ =~= spec_highlight_bucket(b@));
    }
    r
}

/// Applies the highlight rule to every bucket independently.
pub fn highlight(buckets: Vec<DayBucket>) -> (r: Vec<DayBucket>)
    ensures
        buckets_view(r@) == spec_highlight_all(buckets_view(buckets@)),
{
    let ghost all = buckets_view(buckets@);
    let ghost allx = buckets@;
    let total = buckets.len();
    let mut buckets = buckets;
    let mut out: Vec<DayBucket> = Vec::new();
    let mut i: usize = 0;
    proof {
        assert(buckets@ =~= allx.skip(0));
    }
    while buckets.len() > 0
        invariant
            all == buckets_view(allx),
            allx.len() == total,
            allx.len() == i + buckets@.len(),
            buckets@ == allx.skip(i as int),
            out@.len() == i,
            forall|t: int|
                0 <= t < i ==> (#[trigger] out@[t])@ == spec_highlight_all(all)[t],
        decreases buckets@.len(),
    {
        let b = buckets.remove(0);
        proof {
            assert(b == allx.skip(i as int)[0]);
            assert(b == allx[i as int]);
            assert(buckets@ =~= allx.skip(i + 1));
            assert(b@ == all[i as int]);
        }
        let hb = highlight_bucket(b);
        out.push(hb);
        i = i + 1;
    }
    proof {
        assert(buckets_view(out@) =~= spec_highlight_all(all));
    }
    out
}

/// Every bucket's day is one of the stream's days: bucketing makes
/// no day up.
pub proof fn lemma_bucket_days_from_stream(s: Seq<GDated>, lo: int, hi: int)
    requires
        forall|t: int| 0 <= t < s.len() ==> lo < (#[trigger] s[t]).day < hi,
    ensures
        forall|j: int|
            0 <= j < spec_buckets(s).len() ==> lo < (#[trigger] spec_buckets(s)[j]).day < hi,
    decreases s.len(),
{
    if s.len() > 0 {
        let s0 = s.drop_last();
        assert(forall|t: int| 0 <= t < s0.len() ==> s0[t] == #[trigger] s[t]);
        lemma_bucket_days_from_stream(s0, lo, hi);
        let bs0 = spec_buckets(s0);
        let bs = spec_buckets(s);
        if bs0.len() > 0 && bs0.last().day == s.last().day {
            assert(forall|j: int| 0 <= j < bs.len() - 1 ==> bs[j] == bs0[j]);
            assert(bs.last().day == bs0.last().day);
        } else {
            assert(forall|j: int| 0 <= j < bs.len() - 1 ==> bs[j] == bs0[j]);
        }
    }
}

/// The highlight pass changes flags alone: days, order, items,
/// feeds and counts all stay; so what holds of a bucket list's days,
/// keys and counts holds of the rendered list too.
pub proof fn lemma_highlight_preserves_structure(bs: Seq<GBucket>)
    ensures
        spec_highlight_all(bs).len() == bs.len(),
        forall|j: int|
            0 <= j < bs.len() ==> (#[trigger] spec_highlight_all(bs)[j]).day == bs[j].day
                && spec_highlight_all(bs)[j].entries.len() == bs[j].entries.len(),
        forall|j: int, k: int|
            0 <= j < bs.len() && 0 <= k < bs[j].entries.len() ==> (#[trigger] spec_highlight_all(
                bs,
            )[j].entries[k]).item == bs[j].entries[k].item && spec_highlight_all(
                bs,
            )[j].entries[k].feed == bs[j].entries[k].feed && spec_highlight_all(
                bs,
            )[j].entries[k].count == bs[j].entries[k].count,
{
}

/// How many records of the stream fall on the day and carry the key.
pub open spec fn spec_count_day_key(s: Seq<GDated>, day: int, key: Seq<char>) -> int
    decreases s.len(),
{
    if s.len() == 0 {
        0
    } else {
        spec_count_day_key(s.drop_last(), day, key) + if s.last().day == day && spec_key(
            s.last().item,
        ) == key {
            1int
        } else {
            0int
        }
    }
}

/// A count lies between zero and the stream's length.
pub proof fn lemma_count_day_key_bounds(s: Seq<GDated>, day: int, key: Seq<char>)
    ensures
        0 <= spec_count_day_key(s, day, key) <= s.len(),
    decreases s.len(),
{
    if s.len() > 0 {
        lemma_count_day_key_bounds(s.drop_last(), day, key);
    }
}

/// A day no record falls on counts nothing, whatever the key.
pub proof fn lemma_count_day_absent(s: Seq<GDated>, day: int, key: Seq<char>)
    requires
        forall|t: int| 0 <= t < s.len() ==> (#[trigger] s[t]).day != day,
    ensures
        spec_count_day_key(s, day, key) == 0,
    decreases s.len(),
{
    if s.len() > 0 {
        lemma_count_day_absent(s.drop_last(), day, key);
    }
}

/// The item of the last record in the stream that falls on the day
/// and carries the key, if any: the one a dedup entry ends up holding.
pub open spec fn spec_last_match(s: Seq<GDated>, day: int, key: Seq<char>) -> Option<GItem>
    decreases s.len(),
{
    if s.len() == 0 {
        None
    } else if s.last().day == day && spec_key(s.last().item) == key {
        Some(s.last().item)
    } else {
        spec_last_match(s.drop_last(), day, key)
    }
}

/// Whether the stream's days never increase.
pub open spec fn spec_days_non_increasing(s: Seq<GDated>) -> bool {
    forall|i: int, j: int| 0 <= i < j < s.len() ==> (#[trigger] s[i]).day >= (#[trigger] s[j]).day
}

/// The day-bucket law. For a stream whose days never increase: the
/// buckets' days strictly decrease; within one bucket the dedup keys
/// (fragment-stripped links) are pairwise distinct; and each entry
/// counts exactly the records of its bucket's day that carry its key.
pub proof fn lemma_buckets_law(s: Seq<GDated>)
    requires
        spec_days_non_increasing(s),
    ensures
        spec_buckets(s).len() > 0 <==> s.len() > 0,
        s.len() > 0 ==> spec_buckets(s).last().day == s.last().day,
        forall|j1: int, j2: int|
            0 <= j1 < j2 < spec_buckets(s).len() ==> (#[trigger] spec_buckets(s)[j1]).day > (
            #[trigger] spec_buckets(s)[j2]).day,
        forall|j: int, k1: int, k2: int|
            0 <= j < spec_buckets(s).len() && 0 <= k1 < k2 < spec_buckets(s)[j].entries.len()
                ==> spec_key((#[trigger] spec_buckets(s)[j].entries[k1]).item) != spec_key(
                (#[trigger] spec_buckets(s)[j].entries[k2]).item,
            ),
        forall|j: int, k: int|
            0 <= j < spec_buckets(s).len() && 0 <= k < (#[trigger] spec_buckets(
                s,
            )[j]).entries.len() ==> (#[trigger] spec_buckets(s)[j].entries[k]).count
                == spec_count_day_key(
                s,
                spec_buckets(s)[j].day,
                spec_key(spec_buckets(s)[j].entries[k].item),
            ),
        forall|j: int, key: Seq<char>|
            0 <= j < spec_buckets(s).len() && #[trigger] spec_count_day_key(
                s,
                spec_buckets(s)[j].day,
                key,
            ) > 0 ==> exists|k: int|
                0 <= k < spec_buckets(s)[j].entries.len() && spec_key(
                    #[trigger] spec_buckets(s)[j].entries[k].item,
                ) == key,
        forall|j: int, k: int|
            0 <= j < spec_buckets(s).len() && 0 <= k < (#[trigger] spec_buckets(
                s,
            )[j]).entries.len() ==> Some((#[trigger] spec_buckets(s)[j].entries[k]).item)
                == spec_last_match(
                s,
                spec_buckets(s)[j].day,
                spec_key(spec_buckets(s)[j].entries[k].item),
            ),
    decreases s.len(),
{
    if s.len() > 0 {
        let s0 = s.drop_last();
        let d = s.last();
        assert(spec_days_non_increasing(s0)) by {
            assert(forall|t: int| 0 <= t < s0.len() ==> s0[t] == #[trigger] s[t]);
        }
        lemma_buckets_law(s0);
        let bs0 = spec_buckets(s0);
        let bs = spec_buckets(s);
        assert(forall|t: int| 0 <= t < s0.len() ==> s0[t] == #[trigger] s[t]);
        if bs0.len() > 0 && bs0.last().day == d.day {
            let key = spec_key(d.item);
            let b0 = bs0.last();
            lemma_find_key_char(b0.entries, key);
            let fk = spec_find_key(b0.entries, key);
            assert(bs == bs0.update(bs0.len() - 1, spec_bucket_add(b0, d)));
            assert(forall|j: int| 0 <= j < bs.len() - 1 ==> bs[j] == bs0[j]);
            assert(bs.last() == spec_bucket_add(b0, d));
            // counts on earlier buckets are untouched: their day is not d's
            assert(forall|j: int, key2: Seq<char>|
                0 <= j < bs.len() ==> #[trigger] spec_count_day_key(s, bs[j].day, key2)
                    == spec_count_day_key(s0, bs[j].day, key2) + (
                if bs[j].day == d.day && spec_key(d.item) == key2 {
                    1int
                } else {
                    0int
                })) by {
                assert(s.drop_last() == s0);
            }
            assert(forall|j: int, key2: Seq<char>|
                0 <= j < bs.len() ==> #[trigger] spec_last_match(s, bs[j].day, key2) == (
                if bs[j].day == d.day && spec_key(d.item) == key2 {
                    Some(d.item)
                } else {
                    spec_last_match(s0, bs[j].day, key2)
                })) by {
                assert(s.drop_last() == s0);
            }
            if fk == -1 {
                assert(spec_count_day_key(s0, d.day, key) == 0) by {
                    lemma_count_day_key_bounds(s0, d.day, key);
                    if spec_count_day_key(s0, bs0[bs0.len() - 1].day, key) > 0 {
                        let w = choose|k: int|
                            0 <= k < bs0[bs0.len() - 1].entries.len() && spec_key(
                                #[trigger] bs0[bs0.len() - 1].entries[k].item,
                            ) == key;
                        assert(spec_key(b0.entries[w].item) == key);
                        assert(false);
                    }
                    assert(bs0[bs0.len() - 1].day == d.day);
                }
            }
            assert forall|j: int, key2: Seq<char>|
                0 <= j < bs.len() && #[trigger] spec_count_day_key(s, bs[j].day, key2)
                    > 0 implies exists|k: int|
                0 <= k < bs[j].entries.len() && spec_key(#[trigger] bs[j].entries[k].item)
                    == key2 by {
                if j < bs.len() - 1 {
                    assert(bs[j] == bs0[j]);
                    assert(bs0[j].day > bs0[bs0.len() - 1].day);
                    assert(spec_count_day_key(s0, bs0[j].day, key2) > 0);
                    let w = choose|k: int|
                        0 <= k < bs0[j].entries.len() && spec_key(
                            #[trigger] bs0[j].entries[k].item,
                        ) == key2;
                    assert(spec_key(bs[j].entries[w].item) == key2);
                } else {
                    if spec_count_day_key(s0, bs0[bs0.len() - 1].day, key2) > 0 {
                        let w = choose|k: int|
                            0 <= k < bs0[bs0.len() - 1].entries.len() && spec_key(
                                #[trigger] bs0[bs0.len() - 1].entries[k].item,
                            ) == key2;
                        if fk != -1 && w == fk {
                            assert(spec_key(b0.entries[fk].item) == key);
                            assert(key2 == key);
                            assert(spec_key(bs[j].entries[fk].item) == key2);
                        } else {
                            assert(bs[j].entries[w] == b0.entries[w]);
                        }
                    } else {
                        assert(key2 == key);
                        if fk == -1 {
                            assert(bs[j].entries.last() == spec_new_entry(d));
                            assert(spec_key(bs[j].entries[b0.entries.len() as int].item)
                                == key2);
                        } else {
                            assert(spec_key(bs[j].entries[fk].item) == key2);
                        }
                    }
                }
            }
        } else {
            // a fresh day: no earlier record falls on it
            assert(forall|t: int| 0 <= t < s0.len() ==> (#[trigger] s0[t]).day != d.day) by {
                if exists|t: int| 0 <= t < s0.len() && (#[trigger] s0[t]).day == d.day {
                    let t = choose|t: int| 0 <= t < s0.len() && (#[trigger] s0[t]).day == d.day;
                    assert(s[t].day >= s[s.len() - 2].day >= d.day);
                    assert(s0.last() == s[s.len() - 2]);
                    assert(bs0.last().day == s0.last().day);
                }
            }
            assert(bs == bs0.push(GBucket { day: d.day, entries: seq![spec_new_entry(d)] }));
            assert(forall|j: int| 0 <= j < bs.len() - 1 ==> bs[j] == bs0[j]);
            assert(forall|j: int, key2: Seq<char>|
                0 <= j < bs.len() - 1 ==> #[trigger] spec_count_day_key(s, bs[j].day, key2)
                    == spec_count_day_key(s0, bs[j].day, key2)) by {
                assert(s.drop_last() == s0);
                assert(forall|j: int| 0 <= j < bs.len() - 1 ==> (#[trigger] bs[j]).day != d.day);
            }
            assert(forall|j: int, key2: Seq<char>|
                0 <= j < bs.len() - 1 ==> #[trigger] spec_last_match(s, bs[j].day, key2)
                    == spec_last_match(s0, bs[j].day, key2)) by {
                assert(s.drop_last() == s0);
                assert(forall|j: int| 0 <= j < bs.len() - 1 ==> (#[trigger] bs[j]).day != d.day);
            }
            assert(spec_last_match(s, d.day, spec_key(d.item)) == Some(d.item)) by {
                assert(s.drop_last() == s0);
            }
            assert forall|key2: Seq<char>|
                #[trigger] spec_count_day_key(s, d.day, key2) == (
                if spec_key(d.item) == key2 {
                    1int
                } else {
                    0int
                }) by {
                lemma_count_day_absent(s0, d.day, key2);
                assert(s.drop_last() == s0);
                assert(spec_count_day_key(s, d.day, key2) == spec_count_day_key(s0, d.day, key2)
                    + (
                if s.last().day == d.day && spec_key(s.last().item) == key2 {
                    1int
                } else {
                    0int
                }));
            }
            assert forall|j: int, key2: Seq<char>|
                0 <= j < bs.len() && #[trigger] spec_count_day_key(s, bs[j].day, key2)
                    > 0 implies exists|k: int|
                0 <= k < bs[j].entries.len() && spec_key(#[trigger] bs[j].entries[k].item)
                    == key2 by {
                if j < bs.len() - 1 {
                    assert(bs[j] == bs0[j]);
                    assert(spec_count_day_key(s0, bs0[j].day, key2) > 0);
                    let w = choose|k: int|
                        0 <= k < bs0[j].entries.len() && spec_key(
                            #[trigger] bs0[j].entries[k].item,
                        ) == key2;
                    assert(spec_key(bs[j].entries[w].item) == key2);
                } else {
                    assert(bs[j].day == d.day);
                    assert(key2 == spec_key(d.item));
                    assert(bs[j].entries[0] == spec_new_entry(d));
                    assert(spec_key(bs[j].entries[0].item) == key2);
                }
            }
        }
    }
}

/// The highlight law: after the highlight pass, an entry is flagged
/// exactly when its domain appears on fewer than three of the day's
/// entries and on fewer entries than the day's most frequent domain.
pub proof fn lemma_highlight_law(es: Seq<GEntry>, k: int)
    requires
        0 <= k < es.len(),
    ensures
        spec_highlight_entries(es).len() == es.len(),
        spec_highlight_entries(es)[k].highlighted <==> (spec_domain_count(
            es,
            spec_entry_domain(es[k]),
        ) < 3 && spec_domain_count(es, spec_entry_domain(es[k])) < spec_max_dc(es)),
{
}

/// What `aggregate` guarantees about its output: some newest-first
/// arrangement of exactly the flattened items, with the homepage noise
/// dropped, each surviving item stamped with a local day within a
/// bounded offset of its timestamp, folds into exactly these buckets,
/// highlight pass applied.
pub open spec fn spec_aggregate_rel(feeds: Seq<GFeedItems>, out: Seq<GBucket>) -> bool {
    exists|sorted: Seq<SourcedItem>, dated: Seq<DatedItem>|
        #![trigger sourced_view(sorted), dated_view(dated)]
        {
            let kept = sorted.filter(|p: SourcedItem| spec_keep(p));
            &&& sourced_view(sorted).to_multiset() == spec_flatten(feeds).to_multiset()
            &&& spec_sorted_desc(sorted)
            &&& dated.len() == kept.len()
            &&& (forall|i: int|
                0 <= i < kept.len() ==> (#[trigger] dated[i]).feed == kept[i].feed
                    && dated[i].item == kept[i].item && exists|off: int|
                    -86400 < off < 86400 && dated[i].day as int == spec_day_of(
                        kept[i].item.timestamp as int,
                        off,
                    ))
            &&& out == spec_highlight_all(spec_buckets(dated_view(dated)))
        }
}

/// Runs the whole pipeline on the fan-in result: flatten, sort newest
/// first, drop homepage links, bucket by local day with deduplication,
/// and highlight.
pub fn aggregate(feeds: Vec<FeedItems>) -> (r: Vec<DayBucket>)
    ensures
        spec_aggregate_rel(fi_view(feeds@), buckets_view(r@)),
        forall|j: int|
            0 <= j < r@.len() ==> -106_800_000_000 < (#[trigger] r@[j]).day < 106_800_000_000,
{
    let ghost gfeeds = fi_view(feeds@);
    let flat = flatten(feeds);
    let ghost gflat = flat@;
    let sorted = sort_items(flat);
    let ghost gsorted = sorted@;
    let kept = drop_homepage_links(sorted);
    let ghost gkept = kept@;
    let dated = assign_days(kept);
    let ghost gdated = dated@;
    let buckets = bucket_days(dated);
    let r = highlight(buckets);
    proof {
        lemma_view_multiset(gsorted, gflat);
        assert(forall|t: int|
            0 <= t < dated_view(gdated).len() ==> -106_800_000_000 < (#[trigger] dated_view(
                gdated,
            )[t]).day < 106_800_000_000);
        lemma_bucket_days_from_stream(dated_view(gdated), -106_800_000_000, 106_800_000_000);
        lemma_highlight_preserves_structure(spec_buckets(dated_view(gdated)));
        assert(forall|j: int|
            0 <= j < r@.len() ==> -106_800_000_000 < (#[trigger] r@[j]).day
                < 106_800_000_000) by {
            assert(forall|j: int|
                0 <= j < r@.len() ==> (#[trigger] r@[j]).day as int == buckets_view(
                    r@,
                )[j].day);
        }
        assert(spec_aggregate_rel(gfeeds, buckets_view(r@))) by {
            let kept2 = gsorted.filter(|p: SourcedItem| spec_keep(p));
            assert(kept2 == gkept);
            assert(sourced_view(gsorted).to_multiset() == spec_flatten(gfeeds).to_multiset());
            assert(forall|i: int|
                0 <= i < kept2.len() ==> (#[trigger] gdated[i]).feed == kept2[i].feed
                    && gdated[i].item == kept2[i].item && exists|off: int|
                    -86400 < off < 86400 && gdated[i].day as int == spec_day_of(
                        kept2[i].item.timestamp as int,
                        off,
                    ));
            assert(buckets_view(r@) == spec_highlight_all(spec_buckets(dated_view(gdated))));
        }
    }
    r
}

/// Sequences with equal multisets have view sequences with equal
/// multisets.
proof fn lemma_view_multiset(a: Seq<SourcedItem>, b: Seq<SourcedItem>)
    requires
        a.to_multiset() == b.to_multiset(),
    ensures
        sourced_view(a).to_multiset() == sourced_view(b).to_multiset(),
    decreases a.len(),
{
    broadcast use group_to_multiset_ensures;

    if a.len() == 0 {
        assert(a.to_multiset().len() == a.len());
        assert(b.to_multiset().len() == b.len());
        assert(b.len() == 0);
        assert(sourced_view(a).to_multiset() =~= sourced_view(b).to_multiset());
    } else {
        let x = a.last();
        assert(a.to_multiset().count(x) > 0);
        assert(b.to_multiset().count(x) > 0);
        assert(b.contains(x));
        let bi = choose|bi: int| 0 <= bi < b.len() && b[bi] == x;
        let a0 = a.drop_last();
        let b0 = b.remove(bi);
        assert(a.remove(a.len() - 1) =~= a0);
        assert(a0.to_multiset() =~= a.to_multiset().remove(x));
        assert(b0.to_multiset() =~= b.to_multiset().remove(x));
        lemma_view_multiset(a0, b0);
        assert(sourced_view(a0).push(x@) =~= sourced_view(a));
        assert(sourced_view(a0).push(x@).to_multiset() =~= sourced_view(a0).to_multiset().insert(
            x@,
        ));
        assert(sourced_view(b0).insert(bi, x@) =~= sourced_view(b));
        lemma_insert_multiset(sourced_view(b0), bi, x@);
    }
}

/// Inserting one element adds exactly it to the multiset.
proof fn lemma_insert_multiset(s: Seq<GSourced>, i: int, x: GSourced)
    requires
        0 <= i <= s.len(),
    ensures
        s.insert(i, x).to_multiset() == s.to_multiset().insert(x),
{
    broadcast use group_to_multiset_ensures;

    let t = s.insert(i, x);
    assert(t.remove(i) =~= s);
    assert(t.remove(i).to_multiset() =~= t.to_multiset().remove(t[i]));
    assert(t[i] == x);
    assert(t.to_multiset().count(x) >= 1) by {
        assert(t.contains(x));
    }
    assert(t.to_multiset() =~= s.to_multiset().insert(x));
}

} // verus!
