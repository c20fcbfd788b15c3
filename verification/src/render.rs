//! Rendering of the day-bucketed view as a markup document.
//!
//! The document head carries a per-response random nonce, used both
//! in the content-security-policy header tag and on the inline style
//! block. The body lists each day, newest first: a heading with the
//! ISO-formatted date, then one line per entry with its optional
//! thumbnail, its link (styled when highlighted), a multiplicity
//! suffix when repeat links collapsed into it, and its optional
//! summary.

use vstd::prelude::*;
use crate::chars::string_of;
use crate::pipeline::{buckets_view, DayBucket, DisplayEntry, GBucket, GEntry};
use crate::time::{civil_of_day, spec_civil_of_day};

verus! {

/// The character for one decimal digit value.
pub open spec fn spec_digit_char(d: int) -> char {
    if d == 0 {
        '0'
    } else if d == 1 {
        '1'
    } else if d == 2 {
        '2'
    } else if d == 3 {
        '3'
    } else if d == 4 {
        '4'
    } else if d == 5 {
        '5'
    } else if d == 6 {
        '6'
    } else if d == 7 {
        '7'
    } else if d == 8 {
        '8'
    } else {
        '9'
    }
}

/// The decimal digits of a non-negative number, most significant
/// first.
pub open spec fn spec_uint_digits(n: int) -> Seq<char>
    decreases n,
{
    if n < 10 {
        seq![spec_digit_char(n)]
    } else {
        spec_uint_digits(n / 10).push(spec_digit_char(n % 10))
    }
}

/// The character for one decimal digit.
fn digit_char_of(d: u64) -> (c: char)
    requires
        d < 10,
    ensures
        c == spec_digit_char(d as int),
{
    if d == 0 {
        '0'
    } else if d == 1 {
        '1'
    } else if d == 2 {
        '2'
    } else if d == 3 {
        '3'
    } else if d == 4 {
        '4'
    } else if d == 5 {
        '5'
    } else if d == 6 {
        '6'
    } else if d == 7 {
        '7'
    } else if d == 8 {
        '8'
    } else {
        '9'
    }
}

/// The decimal digits of a number.
pub fn uint_chars(n: u64) -> (r: Vec<char>)
    ensures
        r@ == spec_uint_digits(n as int),
{
    let mut rev: Vec<char> = Vec::new();
    let mut m = n;
    let c0 = digit_char_of(m % 10);
    rev.push(c0);
    m = m / 10;
    proof {
        if m == 0 {
            assert(rev@.reverse() =~= seq![spec_digit_char(n as int)]);
        } else {
            assert(rev@.reverse() =~= seq![spec_digit_char(n as int % 10)]);
            assert(spec_uint_digits(n as int) =~= spec_uint_digits(m as int) + rev@.reverse());
        }
    }
    while m > 0
        invariant
            spec_uint_digits(n as int) == (if m > 0 {
                spec_uint_digits(m as int) + rev@.reverse()
            } else {
                rev@.reverse()
            }),
        decreases m,
    {
        let ghost old_rev = rev@;
        let ghost old_m = m as int;
        let d = digit_char_of(m % 10);
        rev.push(d);
        m = m / 10;
        proof {
            assert(rev@.reverse() =~= seq![spec_digit_char(old_m % 10)] + old_rev.reverse());
            if m > 0 {
                assert(spec_uint_digits(old_m) == spec_uint_digits(old_m / 10).push(
                    spec_digit_char(old_m % 10),
                ));
                assert(spec_uint_digits(old_m / 10).push(spec_digit_char(old_m % 10))
                    + old_rev.reverse() =~= spec_uint_digits(old_m / 10) + (seq![
                    spec_digit_char(old_m % 10),
                ] + old_rev.reverse()));
            } else {
                assert(spec_uint_digits(old_m) =~= seq![spec_digit_char(old_m % 10)]);
                assert(seq![spec_digit_char(old_m % 10)] + old_rev.reverse() =~= rev@.reverse());
            }
        }
    }
    let mut out: Vec<char> = Vec::new();
    let mut k = rev.len();
    while k > 0
        invariant
            k <= rev@.len(),
            out@.len() == rev@.len() - k,
            forall|t: int| 0 <= t < out@.len() ==> out@[t] == rev@[rev@.len() - 1 - t],
        decreases k,
    {
        k = k - 1;
        out.push(rev[k]);
    }
    proof {
        assert(out@ =~= rev@.reverse());
    }
    out
}

/// The decimal text of a number.
pub fn uint_string(n: u64) -> (r: String)
    ensures
        r@ == spec_uint_digits(n as int),
{
    let v = uint_chars(n);
    string_of(&v)
}

/// A number padded with zeros to at least two digits.
pub open spec fn spec_pad2(n: int) -> Seq<char> {
    if n < 10 {
        seq!['0'] + spec_uint_digits(n)
    } else {
        spec_uint_digits(n)
    }
}

/// A number padded with zeros to at least four digits.
pub open spec fn spec_pad4(n: int) -> Seq<char> {
    if n < 10 {
        seq!['0', '0', '0'] + spec_uint_digits(n)
    } else if n < 100 {
        seq!['0', '0'] + spec_uint_digits(n)
    } else if n < 1000 {
        seq!['0'] + spec_uint_digits(n)
    } else {
        spec_uint_digits(n)
    }
}

/// A year written as ISO 8601 does: four zero-padded digits, a minus
/// sign before an earlier year, a plus sign before a five-digit one.
pub open spec fn spec_year_text(y: int) -> Seq<char> {
    if y < 0 {
        seq!['-'] + spec_pad4(-y)
    } else if y > 9999 {
        seq!['+'] + spec_uint_digits(y)
    } else {
        spec_pad4(y)
    }
}

/// A day count written as a calendar date, `YYYY-MM-DD`.
pub open spec fn spec_date_text(day: int) -> Seq<char> {
    let c = spec_civil_of_day(day);
    spec_year_text(c.0) + seq!['-'] + spec_pad2(c.1) + seq!['-'] + spec_pad2(c.2)
}

/// Appends a number padded to at least two digits.
fn append_pad2(s: &mut String, n: u64)
    ensures
        final(s)@ == old(s)@ + spec_pad2(n as int),
{
    let ghost before = s@;
    if n < 10 {
        s.append("0");
        let d = uint_string(n);
        s.append(d.as_str());
        proof {
            reveal_strlit("0");
            assert("0"@ =~= seq!['0']);
            assert((before + "0"@) + spec_uint_digits(n as int) =~= before + (seq!['0']
                + spec_uint_digits(n as int)));
        }
    } else {
        let d = uint_string(n);
        s.append(d.as_str());
    }
}

/// Appends a year in ISO form.
fn append_year(s: &mut String, y: i64)
    requires
        -1_000_000_000_000 < y < 1_000_000_000_000,
    ensures
        final(s)@ == old(s)@ + spec_year_text(y as int),
{
    let ghost before = s@;
    if y < 0 {
        s.append("-");
        let mag = (-y) as u64;
        if mag < 10 {
            s.append("000");
        } else if mag < 100 {
            s.append("00");
        } else if mag < 1000 {
            s.append("0");
        }
        let d = uint_string(mag);
        s.append(d.as_str());
        proof {
            reveal_strlit("-");
            reveal_strlit("000");
            reveal_strlit("00");
            reveal_strlit("0");
            assert("-"@ =~= seq!['-']);
            assert("000"@ =~= seq!['0', '0', '0']);
            assert("00"@ =~= seq!['0', '0']);
            assert("0"@ =~= seq!['0']);
            assert(s@ =~= before + spec_year_text(y as int));
        }
    } else if y > 9999 {
        s.append("+");
        let d = uint_string(y as u64);
        s.append(d.as_str());
        proof {
            reveal_strlit("+");
            assert("+"@ =~= seq!['+']);
            assert(s@ =~= before + spec_year_text(y as int));
        }
    } else {
        if y < 10 {
            s.append("000");
        } else if y < 100 {
            s.append("00");
        } else if y < 1000 {
            s.append("0");
        }
        let d = uint_string(y as u64);
        s.append(d.as_str());
        proof {
            reveal_strlit("000");
            reveal_strlit("00");
            reveal_strlit("0");
            assert("000"@ =~= seq!['0', '0', '0']);
            assert("00"@ =~= seq!['0', '0']);
            assert("0"@ =~= seq!['0']);
            assert(s@ =~= before + spec_year_text(y as int));
        }
    }
}

/// The calendar date of a day count, as text.
pub fn date_text(day: i64) -> (r: String)
    requires
        -106_800_000_000 < day < 106_800_000_000,
    ensures
        r@ == spec_date_text(day as int),
{
    let (y, m, d) = civil_of_day(day);
    let mut s = String::new();
    proof {
        assert(Seq::<char>::empty() + spec_year_text(y as int) =~= spec_year_text(y as int));
    }
    append_year(&mut s, y);
    let ghost after_year = s@;
    s.append("-");
    append_pad2(&mut s, m as u64);
    let ghost after_month = s@;
    s.append("-");
    append_pad2(&mut s, d as u64);
    proof {
        reveal_strlit("-");
        assert("-"@ =~= seq!['-']);
        assert(s@ =~= spec_date_text(day as int));
    }
    s
}

/// The image an entry shows: its own thumbnail, else its feed's logo.
pub open spec fn spec_thumb_src(e: GEntry) -> Option<Seq<char>> {
    if e.item.thumbnail_url is Some {
        e.item.thumbnail_url
    } else {
        e.feed.logo_url
    }
}

/// The entry's image tag, or nothing: the image links the thumbnail
/// and names the feed in its title.
pub open spec fn spec_thumb_html(e: GEntry) -> Seq<char> {
    match spec_thumb_src(e) {
        None => Seq::empty(),
        Some(t) => "<img src=\""@ + t + "\" title=\""@ + e.feed.title + "\"/> "@,
    }
}

/// The spacer that indents a summary under an entry with an image.
pub open spec fn spec_spacer_html(e: GEntry) -> Seq<char> {
    match spec_thumb_src(e) {
        None => Seq::empty(),
        Some(t) => "<span class=\"spacer\">&nbsp;</spacer>"@,
    }
}

/// The ` (Nx)` multiplicity suffix, shown only past one.
pub open spec fn spec_count_html(c: int) -> Seq<char> {
    if c > 1 {
        " ("@ + spec_uint_digits(c) + "x)"@
    } else {
        Seq::empty()
    }
}

/// The entry's indented summary line, or nothing.
pub open spec fn spec_summary_html(e: GEntry) -> Seq<char> {
    match e.item.summary {
        None => Seq::empty(),
        Some(su) => "<br/>"@ + spec_spacer_html(e) + "<sup>\u{2514} "@ + su + "</sup>"@,
    }
}

/// The anchor's class: marked when the entry is highlighted.
pub open spec fn spec_class_html(e: GEntry) -> Seq<char> {
    if e.highlighted {
        "highlight"@
    } else {
        Seq::empty()
    }
}

/// One list line: image, anchor, multiplicity, summary.
pub open spec fn spec_entry_html(e: GEntry) -> Seq<char> {
    "<li>"@ + spec_thumb_html(e) + "<a class=\""@ + spec_class_html(e) + "\" href=\""@
        + e.item.href + "\">"@ + e.item.title + "</a>"@ + spec_count_html(e.count)
        + spec_summary_html(e) + "</li>"@
}

/// The lines of a bucket's entries, in order.
pub open spec fn spec_entries_html(es: Seq<GEntry>) -> Seq<char>
    decreases es.len(),
{
    if es.len() == 0 {
        Seq::empty()
    } else {
        spec_entry_html(es[0]) + spec_entries_html(es.drop_first())
    }
}

/// One day of the document: its date heading and its entry lines.
pub open spec fn spec_bucket_html(b: GBucket) -> Seq<char> {
    "<h1>"@ + spec_date_text(b.day) + "</h1>"@ + spec_entries_html(b.entries)
}

/// The days of the document, in order.
pub open spec fn spec_buckets_html(bs: Seq<GBucket>) -> Seq<char>
    decreases bs.len(),
{
    if bs.len() == 0 {
        Seq::empty()
    } else {
        spec_bucket_html(bs[0]) + spec_buckets_html(bs.drop_first())
    }
}

/// The whole document: the head with the nonce woven in twice, then
/// the day list.
pub open spec fn spec_render(bs: Seq<GBucket>, nonce: Seq<char>) -> Seq<char> {
    "\n        <!DOCTYPE html>\n        <html>\n            <head>\n                <meta charset=\"utf-8\">\n                <meta http-equiv=\"Content-Security-Policy\" content=\"default-src 'none'; style-src 'nonce-"@
        + nonce
        + "'; img-src https://*;\" />\n                <style nonce=\""@
        + nonce
        + "\">\n                    img {\n                        height: 1rem;\n                        width: 1rem;\n                        vertical-align: middle;\n                    }\n                    .spacer {\n                        margin-left: 1rem;\n                    }\n                    .highlight {\n                        background-color: aquamarine;\n                    }\n                    a:visited {\n                        color: color-mix(in lch, rgb(85, 26, 139), #fff)\n                    }\n                </style>\n            </head>\n            <body>\n                <ul>\n    "@
        + spec_buckets_html(bs)
}

/// The entry's image tag, if it has an image.
fn thumb_html(e: &DisplayEntry) -> (r: String)
    ensures
        r@ == spec_thumb_html(e@),
{
    match if e.item.thumbnail_url.is_some() {
        &e.item.thumbnail_url
    } else {
        &e.feed.logo_url
    } {
        Some(t) => {
            let mut s = String::from_str("<img src=\"");
            s.append(t.as_str());
            s.append("\" title=\"");
            s.append(e.feed.title.as_str());
            s.append("\"/> ");
            s
        },
        None => String::new(),
    }
}

/// One list line for an entry.
fn entry_html(e: &DisplayEntry) -> (r: String)
    ensures
        r@ == spec_entry_html(e@),
{
    let thumb = thumb_html(e);
    let mut s = String::from_str("<li>");
    s.append(thumb.as_str());
    s.append("<a class=\"");
    if e.highlighted {
        s.append("highlight");
    } else {
        s.append("");
        proof {
            reveal_strlit("");
            assert(""@ =~= Seq::<char>::empty());
        }
    }
    s.append("\" href=\"");
    s.append(e.item.href.as_str());
    s.append("\">");
    s.append(e.item.title.as_str());
    s.append("</a>");
    let ghost before_count = s@;
    if e.count > 1 {
        let mut cs = String::from_str(" (");
        let c = uint_string(e.count as u64);
        cs.append(c.as_str());
        cs.append("x)");
        proof {
            assert(cs@ == spec_count_html(e@.count));
        }
        s.append(cs.as_str());
    } else {
        proof {
            assert(spec_count_html(e@.count) =~= Seq::<char>::empty());
            assert(before_count + spec_count_html(e@.count) =~= before_count);
        }
    }
    let ghost before_summary = s@;
    match &e.item.summary {
        Some(su) => {
            let mut ss = String::from_str("<br/>");
            match if e.item.thumbnail_url.is_some() {
                &e.item.thumbnail_url
            } else {
                &e.feed.logo_url
            } {
                Some(t) => {
                    ss.append("<span class=\"spacer\">&nbsp;</spacer>");
                },
                None => {
                    ss.append("");
                    proof {
                        reveal_strlit("");
                        assert(""@ =~= Seq::<char>::empty());
                    }
                },
            }
            ss.append("<sup>\u{2514} ");
            ss.append(su.as_str());
            ss.append("</sup>");
            proof {
                assert(ss@ == spec_summary_html(e@));
            }
            s.append(ss.as_str());
        },
        None => {
            proof {
                assert(spec_summary_html(e@) =~= Seq::<char>::empty());
                assert(before_summary + spec_summary_html(e@) =~= before_summary);
            }
        },
    }
    s.append("</li>");
    proof {
        assert(s@ == spec_entry_html(e@));
    }
    s
}

/// One day of the document.
fn bucket_html(b: &DayBucket) -> (r: String)
    requires
        -106_800_000_000 < b.day < 106_800_000_000,
    ensures
        r@ == spec_bucket_html(b@),
{
    let mut s = String::new();
    s.append("<h1>");
    let date = date_text(b.day);
    s.append(date.as_str());
    s.append("</h1>");
    let ghost ges = crate::pipeline::entries_view(b.entries@);
    let ghost head = s@;
    let mut k: usize = 0;
    proof {
        assert(ges.skip(0) =~= ges);
    }
    while k < b.entries.len()
        invariant
            k <= b.entries@.len(),
            ges == crate::pipeline::entries_view(b.entries@),
            head + spec_entries_html(ges) == s@ + spec_entries_html(ges.skip(k as int)),
        decreases b.entries@.len() - k,
    {
        let ghost before = s@;
        let line = entry_html(&b.entries[k]);
        s.append(line.as_str());
        proof {
            assert(ges.skip(k as int)[0] == b.entries@[k as int]@);
            assert(ges.skip(k as int).drop_first() =~= ges.skip(k + 1));
            assert((before + spec_entry_html(ges.skip(k as int)[0])) + spec_entries_html(
                ges.skip(k + 1),
            ) =~= before + (spec_entry_html(ges.skip(k as int)[0]) + spec_entries_html(
                ges.skip(k + 1),
            )));
        }
        k = k + 1;
    }
    proof {
        assert(ges.skip(ges.len() as int) =~= Seq::<GEntry>::empty());
        assert(s@ + Seq::<char>::empty() =~= s@);
        assert(s@ =~= spec_bucket_html(b@));
    }
    s
}

/// The whole document for the day list, under the given nonce.
pub fn render(buckets: &Vec<DayBucket>, nonce: &str) -> (r: String)
    requires
        forall|j: int|
            0 <= j < buckets@.len() ==> -106_800_000_000 < (#[trigger] buckets@[j]).day
                < 106_800_000_000,
    ensures
        r@ == spec_render(buckets_view(buckets@), nonce@),
{
    let ghost bs = buckets_view(buckets@);
    let mut s = String::new();
    s.append(
        "\n        <!DOCTYPE html>\n        <html>\n            <head>\n                <meta charset=\"utf-8\">\n                <meta http-equiv=\"Content-Security-Policy\" content=\"default-src 'none'; style-src 'nonce-",
    );
    s.append(nonce);
    s.append("'; img-src https://*;\" />\n                <style nonce=\"");
    s.append(nonce);
    s.append(
        "\">\n                    img {\n                        height: 1rem;\n                        width: 1rem;\n                        vertical-align: middle;\n                    }\n                    .spacer {\n                        margin-left: 1rem;\n                    }\n                    .highlight {\n                        background-color: aquamarine;\n                    }\n                    a:visited {\n                        color: color-mix(in lch, rgb(85, 26, 139), #fff)\n                    }\n                </style>\n            </head>\n            <body>\n                <ul>\n    ",
    );
    let ghost head = s@;
    proof {
        assert(bs.skip(0) =~= bs);
    }
    let mut k: usize = 0;
    while k < buckets.len()
        invariant
            k <= buckets@.len(),
            bs == buckets_view(buckets@),
            forall|j: int|
                0 <= j < buckets@.len() ==> -106_800_000_000 < (#[trigger] buckets@[j]).day
                    < 106_800_000_000,
            head + spec_buckets_html(bs) == s@ + spec_buckets_html(bs.skip(k as int)),
        decreases buckets@.len() - k,
    {
        let ghost before = s@;
        let part = bucket_html(&buckets[k]);
        s.append(part.as_str());
        proof {
            assert(bs.skip(k as int)[0] == buckets@[k as int]@);
            assert(bs.skip(k as int).drop_first() =~= bs.skip(k + 1));
            assert((before + spec_bucket_html(bs.skip(k as int)[0])) + spec_buckets_html(
                bs.skip(k + 1),
            ) =~= before + (spec_bucket_html(bs.skip(k as int)[0]) + spec_buckets_html(
                bs.skip(k + 1),
            )));
        }
        k = k + 1;
    }
    proof {
        assert(bs.skip(bs.len() as int) =~= Seq::<GBucket>::empty());
        assert(s@ + Seq::<char>::empty() =~= s@);
        assert(s@ =~= spec_render(bs, nonce@));
    }
    s
}

/// What the URL-safe base64 encoding of a byte string is.
pub uninterp spec fn base64_url_of(bytes: Seq<u8>) -> Seq<char>;

/// Relies on rand::random: sixteen bytes from the thread-local
/// generator. Nothing is promised of their values.
#[verifier::external_body]
fn random_bytes() -> (r: Vec<u8>)
    ensures
        r@.len() == 16,
{
    rand::random::<[u8; 16]>().to_vec()
}

/// Relies on the base64 crate's Engine::encode with the padded
/// URL_SAFE engine: the encoding depends on the bytes alone.
#[verifier::external_body]
fn base64_url(bytes: &Vec<u8>) -> (r: String)
    ensures
        r@ == base64_url_of(bytes@),
{
    base64::Engine::encode(&base64::engine::general_purpose::URL_SAFE, bytes.as_slice())
}

/// A fresh response nonce: sixteen random bytes, base64-encoded.
pub fn make_nonce() -> (r: String)
    ensures
        exists|bytes: Seq<u8>| bytes.len() == 16 && r@ == #[trigger] base64_url_of(bytes),
{
    let b = random_bytes();
    let r = base64_url(&b);
    proof {
        assert(b@.len() == 16 && r@ == base64_url_of(b@));
    }
    r
}

/// The whole document under a fresh random nonce.
pub fn render_page(buckets: &Vec<DayBucket>) -> (r: String)
    requires
        forall|j: int|
            0 <= j < buckets@.len() ==> -106_800_000_000 < (#[trigger] buckets@[j]).day
                < 106_800_000_000,
    ensures
        exists|bytes: Seq<u8>|
            bytes.len() == 16 && r@ == spec_render(
                buckets_view(buckets@),
                #[trigger] base64_url_of(bytes),
            ),
{
    let nonce = make_nonce();
    render(buckets, nonce.as_str())
}

} // verus!
