//! Heuristic reduction of an item's summary or content to plain text.
//!
//! A feed hands over a summary and a content field, each either plain
//! text or HTML. Plain text is returned verbatim. An HTML summary is
//! reduced to its first non-blank text node, entities decoded. An
//! HTML content body is scanned for an anchor pointing at the item
//! itself; the first such anchor that carries a `title` attribute
//! donates it as the summary.

use vstd::prelude::*;
use crate::chars::{chars_of, string_of};
use crate::html::{
    chars_eq, is_ws, spec_skip_ws, spec_tokenize, spec_unescape_or_raw, toks_view, tokenize,
    unescape_or_raw, Attr, GTok, Tok,
};
use crate::url::{find_sub, scheme_sep, spec_find, spec_url_path, url_path};

verus! {

/// How a text field says it is encoded: plain text or HTML.
pub enum ContentKind {
    Plain,
    Html,
}

/// A text field of a feed entry, with its declared kind.
pub struct RawText {
    pub kind: ContentKind,
    pub content: String,
}

/// A content field of a feed entry: a kind and an optional body.
pub struct RawContent {
    pub kind: ContentKind,
    pub body: Option<String>,
}

/// Where trailing whitespace begins: the index after the last
/// non-whitespace character.
pub open spec fn spec_trim_end(s: Seq<char>) -> int
    decreases s.len(),
{
    if s.len() == 0 {
        0
    } else if is_ws(s.last()) {
        spec_trim_end(s.drop_last())
    } else {
        s.len() as int
    }
}

/// `raw` when it lies in `[0, len]`, else `len`.
pub open spec fn clamp_idx(raw: int, len: int) -> int {
    if 0 <= raw <= len {
        raw
    } else {
        len
    }
}

/// The text with leading and trailing whitespace removed.
pub open spec fn spec_trim(s: Seq<char>) -> Seq<char> {
    let b = clamp_idx(spec_trim_end(s), s.len() as int);
    let t1 = s.take(b);
    let a = clamp_idx(spec_skip_ws(t1, 0), b);
    t1.subrange(a, b)
}

/// The text with leading and trailing whitespace removed.
pub fn trim(v: &Vec<char>) -> (out: Vec<char>)
    ensures
        out@ == spec_trim(v@),
{
    let mut b = v.len();
    proof {
        assert(v@.take(v@.len() as int) =~= v@);
    }
    while b > 0 && crate::html::ws(v[b - 1])
        invariant
            b <= v@.len(),
            spec_trim_end(v@) == spec_trim_end(v@.take(b as int)),
        decreases b,
    {
        proof {
            assert(v@.take(b as int).last() == v@[b - 1]);
            assert(v@.take(b as int).drop_last() =~= v@.take(b - 1));
        }
        b = b - 1;
    }
    proof {
        if b > 0 {
            assert(v@.take(b as int).last() == v@[b - 1]);
        }
        assert(v@.take(v@.len() as int) =~= v@);
    }
    let ghost t1 = v@.take(b as int);
    let mut a: usize = 0;
    while a < b && crate::html::ws(v[a])
        invariant
            a <= b <= v@.len(),
            t1 == v@.take(b as int),
            spec_trim_end(v@) == b,
            spec_skip_ws(t1, 0) == spec_skip_ws(t1, a as int),
        decreases b - a,
    {
        proof {
            assert(t1[a as int] == v@[a as int]);
        }
        a = a + 1;
    }
    proof {
        if a < b {
            assert(t1[a as int] == v@[a as int]);
        }
    }
    let out = crate::url::copy_range(v, a, b);
    proof {
        assert(v@.subrange(a as int, b as int) =~= t1.subrange(a as int, b as int));
    }
    out
}

/// The first text token whose trimmed content is non-blank, trimmed.
pub open spec fn spec_first_text(toks: Seq<GTok>) -> Option<Seq<char>>
    decreases toks.len(),
{
    if toks.len() == 0 {
        None
    } else {
        match toks[0] {
            GTok::Text { content } => {
                let t = spec_trim(content);
                if t.len() > 0 {
                    Some(t)
                } else {
                    spec_first_text(toks.drop_first())
                }
            },
            _ => spec_first_text(toks.drop_first()),
        }
    }
}

/// What the HTML-summary heuristic yields for the given markup: the
/// first non-blank text node, trimmed, with entities decoded where
/// that succeeds.
pub open spec fn spec_summary_from_html_summary(s: Seq<char>) -> Option<Seq<char>> {
    match spec_first_text(spec_tokenize(s)) {
        None => None,
        Some(t) => Some(spec_unescape_or_raw(t)),
    }
}

/// The first non-blank text node of permissive HTML, trimmed and
/// entity-decoded; nothing when the markup holds no such node.
pub fn summary_from_html_summary(summary: &str) -> (r: Option<String>)
    ensures
        r matches Some(t) ==> spec_summary_from_html_summary(summary@) == Some(t@),
        r is None ==> spec_summary_from_html_summary(summary@) is None,
{
    let v = chars_of(summary);
    let toks = tokenize(&v);
    let ghost all = toks_view(toks@);
    let mut i: usize = 0;
    proof {
        assert(all.skip(0) =~= all);
    }
    while i < toks.len()
        invariant
            i <= toks@.len(),
            all == toks_view(toks@),
            all == spec_tokenize(summary@),
            spec_first_text(all) == spec_first_text(all.skip(i as int)),
        decreases toks@.len() - i,
    {
        proof {
            assert(all.skip(i as int)[0] == toks@[i as int]@);
            assert(all.skip(i as int).drop_first() =~= all.skip(i + 1));
        }
        match &toks[i] {
            Tok::Text { content } => {
                let t = trim(content);
                if t.len() > 0 {
                    proof {
                        assert(spec_first_text(all.skip(i as int)) == Some(spec_trim(content@)));
                    }
                    let out = unescape_or_raw(&t);
                    return Some(string_of(&out));
                }
            },
            _ => {},
        }
        i = i + 1;
    }
    proof {
        assert(all.skip(toks@.len() as int) =~= Seq::<GTok>::empty());
    }
    None
}

/// Whether a raw anchor `href` value refers to the target link: after
/// decoding it equals the target exactly; or it equals the target's
/// path-and-beyond component when the target is an absolute
/// `http`/`https` URL; or, symmetrically, when the target names no
/// scheme, the decoded value is an absolute `http`/`https` URL whose
/// path-and-beyond equals the target.
pub open spec fn spec_href_matches(raw: Seq<char>, target: Seq<char>) -> bool {
    let dec = spec_unescape_or_raw(raw);
    ||| dec == target
    ||| spec_url_path(target) == Some(dec)
    ||| (spec_find(target, scheme_sep()) is None && spec_url_path(dec) == Some(target))
}

/// Whether any `href` attribute of the anchor refers to the target.
pub open spec fn spec_anchor_matches(
    attrs: Seq<(Seq<char>, Seq<char>)>,
    target: Seq<char>,
) -> bool {
    exists|k: int|
        0 <= k < attrs.len() && (#[trigger] attrs[k]).0 == seq!['h', 'r', 'e', 'f']
            && spec_href_matches(attrs[k].1, target)
}

/// The value of the last `title` attribute, if any: a later one
/// overrides an earlier.
pub open spec fn spec_last_title(attrs: Seq<(Seq<char>, Seq<char>)>) -> Option<Seq<char>>
    decreases attrs.len(),
{
    if attrs.len() == 0 {
        None
    } else if attrs.last().0 == seq!['t', 'i', 't', 'l', 'e'] {
        Some(attrs.last().1)
    } else {
        spec_last_title(attrs.drop_last())
    }
}

/// The decoded title of the first anchor that refers to the target
/// and carries a title; an anchor that refers to the target but has
/// no title does not stop the scan.
pub open spec fn spec_body_title(toks: Seq<GTok>, target: Seq<char>) -> Option<Seq<char>>
    decreases toks.len(),
{
    if toks.len() == 0 {
        None
    } else {
        match toks[0] {
            GTok::Open { name, attrs, self_closing } => {
                if name == seq!['a'] && !self_closing && spec_anchor_matches(attrs, target)
                    && spec_last_title(attrs) is Some {
                    Some(spec_unescape_or_raw(spec_last_title(attrs)->Some_0))
                } else {
                    spec_body_title(toks.drop_first(), target)
                }
            },
            _ => spec_body_title(toks.drop_first(), target),
        }
    }
}

/// The scan passes over any token that is not a matching, titled
/// anchor: in particular, an anchor that refers to the target but
/// carries no title does not stop it, and a later matching anchor can
/// still supply the title.
pub proof fn lemma_body_title_skips(toks: Seq<GTok>, target: Seq<char>)
    requires
        toks.len() > 0,
        !(toks[0] matches GTok::Open { name, attrs, self_closing } && name == seq!['a']
            && !self_closing && spec_anchor_matches(attrs, target) && spec_last_title(
            attrs,
        ) is Some),
    ensures
        spec_body_title(toks, target) == spec_body_title(toks.drop_first(), target),
{
}

/// What the HTML-body heuristic yields for the given item link and
/// markup.
pub open spec fn spec_summary_from_html_body(href: Seq<char>, body: Seq<char>) -> Option<
    Seq<char>,
> {
    spec_body_title(spec_tokenize(body), href)
}

/// Scans anchors of a permissive HTML body for one linking to the
/// item itself, and returns its decoded `title` attribute.
pub fn summary_from_html_body(item_href: &str, body: &str) -> (r: Option<String>)
    ensures
        r matches Some(t) ==> spec_summary_from_html_body(item_href@, body@) == Some(t@),
        r is None ==> spec_summary_from_html_body(item_href@, body@) is None,
{
    let target = chars_of(item_href);
    let target_path: Option<Vec<char>> = match url_path(item_href) {
        None => None,
        Some(p) => Some(chars_of(p.as_str())),
    };
    let sep: Vec<char> = vec![':', '/', '/'];
    proof {
        assert(sep@ =~= scheme_sep());
    }
    let target_relative = find_sub(&target, &sep).is_none();
    let href_name: Vec<char> = vec!['h', 'r', 'e', 'f'];
    let title_name: Vec<char> = vec!['t', 'i', 't', 'l', 'e'];
    let a_name: Vec<char> = vec!['a'];
    proof {
        assert(href_name@ =~= seq!['h', 'r', 'e', 'f']);
        assert(title_name@ =~= seq!['t', 'i', 't', 'l', 'e']);
        assert(a_name@ =~= seq!['a']);
    }
    let v = chars_of(body);
    let toks = tokenize(&v);
    let ghost all = toks_view(toks@);
    let mut i: usize = 0;
    proof {
        assert(all.skip(0) =~= all);
    }
    while i < toks.len()
        invariant
            i <= toks@.len(),
            all == toks_view(toks@),
            all == spec_tokenize(body@),
            target@ == item_href@,
            href_name@ == seq!['h', 'r', 'e', 'f'],
            title_name@ == seq!['t', 'i', 't', 'l', 'e'],
            a_name@ == seq!['a'],
            (match target_path {
                None => spec_url_path(item_href@) is None,
                Some(p) => spec_url_path(item_href@) == Some(p@),
            }),
            target_relative == (spec_find(item_href@, scheme_sep()) is None),
            spec_body_title(all, item_href@) == spec_body_title(
                all.skip(i as int),
                item_href@,
            ),
        decreases toks@.len() - i,
    {
        proof {
            assert(all.skip(i as int)[0] == toks@[i as int]@);
            assert(all.skip(i as int).drop_first() =~= all.skip(i + 1));
        }
        match &toks[i] {
            Tok::Open { name, attrs, self_closing } => {
                if chars_eq(name, &a_name) && !*self_closing {
                    let ghost ga = attrs@.map_values(|a: Attr| a@);
                    let mut found = false;
                    let mut title_idx: Option<usize> = None;
                    let mut k: usize = 0;
                    while k < attrs.len()
                        invariant
                            k <= attrs@.len(),
                            ga == attrs@.map_values(|a: Attr| a@),
                            target@ == item_href@,
                            href_name@ == seq!['h', 'r', 'e', 'f'],
                            title_name@ == seq!['t', 'i', 't', 'l', 'e'],
                            (match target_path {
                                None => spec_url_path(item_href@) is None,
                                Some(p) => spec_url_path(item_href@) == Some(p@),
                            }),
                            target_relative == (spec_find(item_href@, scheme_sep()) is None),
                            found == spec_anchor_matches(ga.take(k as int), item_href@),
                            (match title_idx {
                                None => spec_last_title(ga.take(k as int)) is None,
                                Some(t) => t < k && spec_last_title(ga.take(k as int)) == Some(
                                    ga[t as int].1,
                                ),
                            }),
                        decreases attrs@.len() - k,
                    {
                        let ghost gk = ga.take(k as int);
                        proof {
                            assert(ga.take(k + 1 as int).drop_last() =~= gk);
                            assert(ga.take(k + 1 as int).last() == ga[k as int]);
                            assert(ga[k as int] == attrs@[k as int]@);
                        }
                        let at = &attrs[k];
                        let is_href = chars_eq(&at.name, &href_name);
                        let mut hit = false;
                        if is_href {
                            let dec = unescape_or_raw(&at.value);
                            hit = chars_eq(&dec, &target);
                            match &target_path {
                                Some(p) => {
                                    if chars_eq(&dec, p) {
                                        hit = true;
                                    }
                                },
                                None => {},
                            }
                            if !hit && target_relative {
                                let dec_text = string_of(&dec);
                                match url_path(dec_text.as_str()) {
                                    Some(p) => {
                                        let pc = chars_of(p.as_str());
                                        if chars_eq(&pc, &target) {
                                            hit = true;
                                        }
                                    },
                                    None => {},
                                }
                            }
                            proof {
                                assert(hit == spec_href_matches(ga[k as int].1, item_href@));
                            }
                        }
                        let ghost old_found = found;
                        if hit {
                            found = true;
                        }
                        proof {
                            let gk1 = ga.take(k + 1 as int);
                            if found {
                                if hit {
                                    assert(gk1[k as int] == ga[k as int]);
                                    assert(spec_anchor_matches(gk1, item_href@));
                                } else {
                                    let w = choose|t: int|
                                        0 <= t < gk.len() && (#[trigger] gk[t]).0 == seq![
                                            'h',
                                            'r',
                                            'e',
                                            'f',
                                        ] && spec_href_matches(gk[t].1, item_href@);
                                    assert(gk1[w] == gk[w]);
                                    assert(spec_anchor_matches(gk1, item_href@));
                                }
                            } else {
                                assert forall|t: int|
                                    0 <= t < gk1.len() && (#[trigger] gk1[t]).0 == seq![
                                        'h',
                                        'r',
                                        'e',
                                        'f',
                                    ] implies !spec_href_matches(gk1[t].1, item_href@) by {
                                    if t < k {
                                        assert(gk[t] == gk1[t]);
                                        if spec_href_matches(gk[t].1, item_href@) {
                                            assert(spec_anchor_matches(gk, item_href@));
                                        }
                                    } else {
                                        assert(gk1[t] == ga[k as int]);
                                        if is_href {
                                            assert(!hit);
                                        } else {
                                            assert(ga[k as int].0 != seq!['h', 'r', 'e', 'f']);
                                        }
                                    }
                                }
                                assert(!spec_anchor_matches(gk1, item_href@));
                            }
                        }
                        if chars_eq(&at.name, &title_name) {
                            title_idx = Some(k);
                        }
                        k = k + 1;
                    }
                    proof {
                        assert(ga.take(ga.len() as int) =~= ga);
                    }
                    if found {
                        match title_idx {
                            Some(t) => {
                                let value = &attrs[t].value;
                                proof {
                                    assert(ga[t as int] == attrs@[t as int]@);
                                    assert(name@ == seq!['a']);
                                    assert(spec_body_title(all.skip(i as int), item_href@)
                                        == Some(spec_unescape_or_raw(ga[t as int].1)));
                                }
                                let dec = unescape_or_raw(value);
                                return Some(string_of(&dec));
                            },
                            None => {},
                        }
                    }
                }
            },
            _ => {},
        }
        i = i + 1;
    }
    proof {
        assert(all.skip(toks@.len() as int) =~= Seq::<GTok>::empty());
    }
    None
}

/// What `summary` yields: the first applicable source decides. A
/// present summary is used as is when plain, else reduced from HTML;
/// failing that, a present content body is used as is when plain,
/// else scanned for an anchor to the item.
pub open spec fn spec_summary(
    href: Seq<char>,
    summary: Option<RawText>,
    content: Option<RawContent>,
) -> Option<Seq<char>> {
    if summary is Some {
        let s = summary->Some_0;
        if s.kind is Html {
            spec_summary_from_html_summary(s.content@)
        } else {
            Some(s.content@)
        }
    } else if content is Some && content->Some_0.body is Some {
        let c = content->Some_0;
        let b = c.body->Some_0;
        if c.kind is Html {
            spec_summary_from_html_body(href, b@)
        } else {
            Some(b@)
        }
    } else {
        None
    }
}

/// Extracts a summary for an item, given its link and its raw summary
/// and content fields.
pub fn summary(href: &str, raw_summary: Option<RawText>, raw_content: Option<RawContent>) -> (r:
    Option<String>)
    ensures
        r matches Some(t) ==> spec_summary(href@, raw_summary, raw_content) == Some(t@),
        r is None ==> spec_summary(href@, raw_summary, raw_content) is None,
{
    match raw_summary {
        Some(s) => {
            match s.kind {
                ContentKind::Html => summary_from_html_summary(s.content.as_str()),
                ContentKind::Plain => Some(s.content),
            }
        },
        None => {
            match raw_content {
                Some(c) => match c.body {
                    Some(b) => match c.kind {
                        ContentKind::Html => summary_from_html_body(href, b.as_str()),
                        ContentKind::Plain => Some(b),
                    },
                    None => None,
                },
                None => None,
            }
        },
    }
}

} // verus!
