//! A tolerant tokenizer for loosely structured markup.
//!
//! Feed summaries arrive as permissive HTML: unclosed `<img>`/`<br>`
//! tags, mismatched close tags, unescaped `&` inside attribute values.
//! The tokenizer never fails: it scans left to right, splitting the
//! input into text runs, open tags with their attributes, and close
//! tags; comments, CDATA sections, declarations and processing
//! instructions are consumed without producing a token, and truncated
//! markup at the end of the input is dropped.

use vstd::prelude::*;
use crate::url::copy_range;

verus! {

/// A token of the scanned markup, at the specification level.
#[verifier::ext_equal]
pub enum GTok {
    /// A raw text run between tags, untrimmed and still escaped.
    Text { content: Seq<char> },
    /// An open tag: its name, its attributes as raw name/value pairs,
    /// and whether it closes itself (`<br/>`).
    Open { name: Seq<char>, attrs: Seq<(Seq<char>, Seq<char>)>, self_closing: bool },
    /// A close tag and its name.
    Close { name: Seq<char> },
}

/// One attribute of an open tag; the value is raw, not yet unescaped.
pub struct Attr {
    pub name: Vec<char>,
    pub value: Vec<char>,
}

impl View for Attr {
    type V = (Seq<char>, Seq<char>);

    open spec fn view(&self) -> (Seq<char>, Seq<char>) {
        (self.name@, self.value@)
    }
}

/// A token of the scanned markup.
pub enum Tok {
    Text { content: Vec<char> },
    Open { name: Vec<char>, attrs: Vec<Attr>, self_closing: bool },
    Close { name: Vec<char> },
}

impl View for Tok {
    type V = GTok;

    open spec fn view(&self) -> GTok {
        match self {
            Tok::Text { content } => GTok::Text { content: content@ },
            Tok::Open { name, attrs, self_closing } => GTok::Open {
                name: name@,
                attrs: attrs@.map_values(|a: Attr| a@),
                self_closing: *self_closing,
            },
            Tok::Close { name } => GTok::Close { name: name@ },
        }
    }
}

/// The views of a token list.
pub open spec fn toks_view(ts: Seq<Tok>) -> Seq<GTok> {
    ts.map_values(|t: Tok| t@)
}

/// Markup whitespace: space, tab, carriage return, line feed.
pub open spec fn is_ws(c: char) -> bool {
    c == ' ' || c == '\t' || c == '\r' || c == '\n'
}

/// Whether the character is markup whitespace.
pub fn ws(c: char) -> (r: bool)
    ensures
        r == is_ws(c),
{
    c == ' ' || c == '\t' || c == '\r' || c == '\n'
}

/// First index at or after `from` holding a non-whitespace character,
/// or the length if none (or if `from` is out of range).
pub open spec fn spec_skip_ws(s: Seq<char>, from: int) -> int
    decreases s.len() - from,
{
    if !(0 <= from < s.len()) {
        s.len() as int
    } else if !is_ws(s[from]) {
        from
    } else {
        spec_skip_ws(s, from + 1)
    }
}

/// First index at or after `from` holding whitespace, or the length.
pub open spec fn spec_upto_ws(s: Seq<char>, from: int) -> int
    decreases s.len() - from,
{
    if !(0 <= from < s.len()) {
        s.len() as int
    } else if is_ws(s[from]) {
        from
    } else {
        spec_upto_ws(s, from + 1)
    }
}

/// First index at or after `from` holding `c`, or the length.
pub open spec fn spec_upto_char(s: Seq<char>, c: char, from: int) -> int
    decreases s.len() - from,
{
    if !(0 <= from < s.len()) {
        s.len() as int
    } else if s[from] == c {
        from
    } else {
        spec_upto_char(s, c, from + 1)
    }
}

/// First index at or after `from` where an attribute name ends: at
/// whitespace, `=`, or the length.
pub open spec fn spec_attr_name_end(s: Seq<char>, from: int) -> int
    decreases s.len() - from,
{
    if !(0 <= from < s.len()) {
        s.len() as int
    } else if is_ws(s[from]) || s[from] == '=' {
        from
    } else {
        spec_attr_name_end(s, from + 1)
    }
}

/// First index at or after `from` where `pat` occurs, or the length.
pub open spec fn spec_upto_pat(s: Seq<char>, pat: Seq<char>, from: int) -> int
    decreases s.len() - from,
{
    if pat.len() == 0 {
        if 0 <= from <= s.len() {
            from
        } else {
            s.len() as int
        }
    } else if !(0 <= from && from + pat.len() <= s.len()) {
        s.len() as int
    } else if s.subrange(from, from + pat.len() as int) == pat {
        from
    } else {
        spec_upto_pat(s, pat, from + 1)
    }
}

/// The finder results lie between `from` and the length.
pub proof fn lemma_finder_bounds(s: Seq<char>, c: char, pat: Seq<char>, from: int)
    requires
        0 <= from <= s.len(),
    ensures
        from <= spec_skip_ws(s, from) <= s.len(),
        from <= spec_upto_ws(s, from) <= s.len(),
        from <= spec_upto_char(s, c, from) <= s.len(),
        from <= spec_attr_name_end(s, from) <= s.len(),
        from <= spec_upto_pat(s, pat, from) <= s.len(),
    decreases s.len() - from,
{
    if from < s.len() {
        lemma_finder_bounds(s, c, pat, from + 1);
    }
}

/// What stands at a finder's result position, when it found one.
pub proof fn lemma_finder_chars(s: Seq<char>, c: char, from: int)
    requires
        0 <= from <= s.len(),
    ensures
        spec_skip_ws(s, from) < s.len() ==> !is_ws(s[spec_skip_ws(s, from)]),
        spec_upto_ws(s, from) < s.len() ==> is_ws(s[spec_upto_ws(s, from)]),
        spec_upto_char(s, c, from) < s.len() ==> s[spec_upto_char(s, c, from)] == c,
        spec_attr_name_end(s, from) < s.len() ==> is_ws(s[spec_attr_name_end(s, from)]) || s[
            spec_attr_name_end(s, from)
        ] == '=',
    decreases s.len() - from,
{
    if from < s.len() {
        lemma_finder_chars(s, c, from + 1);
    }
}

/// The suffix of `v` that begins at `base`: the coordinate space the
/// finder functions below work in.
pub open spec fn suffix(v: Seq<char>, base: int) -> Seq<char> {
    v.subrange(base, v.len() as int)
}

/// First non-whitespace position in `v`'s suffix at `base`, at or
/// after `from`.
pub fn skip_ws_from(v: &Vec<char>, base: usize, from: usize) -> (r: usize)
    requires
        base <= v@.len(),
        from <= v@.len() - base,
    ensures
        r == spec_skip_ws(suffix(v@, base as int), from as int),
        from <= r <= v@.len() - base,
{
    let ghost rem = suffix(v@, base as int);
    let n = v.len();
    let mut cur: usize = from;
    while base + cur < n && ws(v[base + cur])
        invariant
            from <= cur <= n - base,
            base <= n == v@.len(),
            rem == suffix(v@, base as int),
            spec_skip_ws(rem, from as int) == spec_skip_ws(rem, cur as int),
        decreases n - base - cur,
    {
        proof {
            assert(rem[cur as int] == v@[base + cur]);
        }
        cur = cur + 1;
    }
    proof {
        if base + cur < n {
            assert(rem[cur as int] == v@[base + cur]);
        }
    }
    cur
}

/// First whitespace position in `v`'s suffix at `base`, at or after
/// `from`.
pub fn upto_ws_from(v: &Vec<char>, base: usize, from: usize) -> (r: usize)
    requires
        base <= v@.len(),
        from <= v@.len() - base,
    ensures
        r == spec_upto_ws(suffix(v@, base as int), from as int),
        from <= r <= v@.len() - base,
{
    let ghost rem = suffix(v@, base as int);
    let n = v.len();
    let mut cur: usize = from;
    while base + cur < n && !ws(v[base + cur])
        invariant
            from <= cur <= n - base,
            base <= n == v@.len(),
            rem == suffix(v@, base as int),
            spec_upto_ws(rem, from as int) == spec_upto_ws(rem, cur as int),
        decreases n - base - cur,
    {
        proof {
            assert(rem[cur as int] == v@[base + cur]);
        }
        cur = cur + 1;
    }
    proof {
        if base + cur < n {
            assert(rem[cur as int] == v@[base + cur]);
        }
    }
    cur
}

/// First position of `c` in `v`'s suffix at `base`, at or after
/// `from`.
pub fn upto_char_from(v: &Vec<char>, base: usize, c: char, from: usize) -> (r: usize)
    requires
        base <= v@.len(),
        from <= v@.len() - base,
    ensures
        r == spec_upto_char(suffix(v@, base as int), c, from as int),
        from <= r <= v@.len() - base,
{
    let ghost rem = suffix(v@, base as int);
    let n = v.len();
    let mut cur: usize = from;
    while base + cur < n && v[base + cur] != c
        invariant
            from <= cur <= n - base,
            base <= n == v@.len(),
            rem == suffix(v@, base as int),
            spec_upto_char(rem, c, from as int) == spec_upto_char(rem, c, cur as int),
        decreases n - base - cur,
    {
        proof {
            assert(rem[cur as int] == v@[base + cur]);
        }
        cur = cur + 1;
    }
    proof {
        if base + cur < n {
            assert(rem[cur as int] == v@[base + cur]);
        }
    }
    cur
}

/// First position where an attribute name ends in `v`'s suffix at
/// `base`, at or after `from`.
pub fn attr_name_end_from(v: &Vec<char>, base: usize, from: usize) -> (r: usize)
    requires
        base <= v@.len(),
        from <= v@.len() - base,
    ensures
        r == spec_attr_name_end(suffix(v@, base as int), from as int),
        from <= r <= v@.len() - base,
{
    let ghost rem = suffix(v@, base as int);
    let n = v.len();
    let mut cur: usize = from;
    while base + cur < n && !ws(v[base + cur]) && v[base + cur] != '='
        invariant
            from <= cur <= n - base,
            base <= n == v@.len(),
            rem == suffix(v@, base as int),
            spec_attr_name_end(rem, from as int) == spec_attr_name_end(rem, cur as int),
        decreases n - base - cur,
    {
        proof {
            assert(rem[cur as int] == v@[base + cur]);
        }
        cur = cur + 1;
    }
    proof {
        if base + cur < n {
            assert(rem[cur as int] == v@[base + cur]);
        }
    }
    cur
}

/// First position of the pattern in `v`'s suffix at `base`, at or
/// after `from`.
pub fn upto_pat_from(v: &Vec<char>, base: usize, pat: &Vec<char>, from: usize) -> (r: usize)
    requires
        base <= v@.len(),
        from <= v@.len() - base,
    ensures
        r == spec_upto_pat(suffix(v@, base as int), pat@, from as int),
        from <= r <= v@.len() - base,
    decreases v@.len() - base - from,
{
    let ghost rem = suffix(v@, base as int);
    let n = v.len();
    if pat.len() > n - base || from > (n - base) - pat.len() {
        return n - base;
    }
    let mut k: usize = 0;
    while k < pat.len() && v[base + from + k] == pat[k]
        invariant
            k <= pat.len(),
            from + pat.len() <= n - base,
            base <= n == v@.len(),
            rem == suffix(v@, base as int),
            forall|t: int| 0 <= t < k ==> v@[base + from + t] == pat@[t],
        decreases pat.len() - k,
    {
        k = k + 1;
    }
    if k == pat.len() {
        proof {
            assert forall|t: int| 0 <= t < pat@.len() implies rem.subrange(
                from as int,
                from + pat@.len() as int,
            )[t] == pat@[t] by {
                assert(rem[from + t] == v@[base + from + t]);
            }
            assert(rem.subrange(from as int, from + pat@.len() as int) =~= pat@);
        }
        from
    } else {
        proof {
            assert(rem.subrange(from as int, from + pat@.len() as int)[k as int] == v@[base + from
                + k]);
        }
        upto_pat_from(v, base, pat, from + 1)
    }
}

/// A found pattern fits inside the sequence: the finder yields either
/// the length or a position with room for the whole pattern.
pub proof fn lemma_upto_pat_found(s: Seq<char>, pat: Seq<char>, from: int)
    requires
        0 <= from <= s.len(),
        pat.len() > 0,
    ensures
        spec_upto_pat(s, pat, from) == s.len() || spec_upto_pat(s, pat, from) + pat.len()
            <= s.len(),
    decreases s.len() - from,
{
    if from + pat.len() <= s.len() && s.subrange(from, from + pat.len() as int) != pat {
        lemma_upto_pat_found(s, pat, from + 1);
    }
}

/// `raw` if it is a legal step (at least one, at most `len`), else
/// `len`: keeps the scan moving whatever an index computation gave.
pub open spec fn clamp_step(raw: int, len: int) -> int {
    if 1 <= raw <= len {
        raw
    } else {
        len
    }
}

/// The attributes inside an open tag, after its name: raw name/value
/// pairs in order. A value may be double-quoted, single-quoted or
/// bare; a name without `=` has an empty value; an unterminated quote
/// swallows the rest of the tag.
pub open spec fn spec_attrs(c: Seq<char>) -> Seq<(Seq<char>, Seq<char>)>
    decreases c.len(),
{
    let i = spec_skip_ws(c, 0);
    if c.len() == 0 || i >= c.len() {
        Seq::empty()
    } else {
        let ne = spec_attr_name_end(c, i);
        let name = c.subrange(i, ne);
        let j = spec_skip_ws(c, ne);
        if j < c.len() && c[j] == '=' {
            let k = spec_skip_ws(c, j + 1);
            if k >= c.len() {
                seq![(name, Seq::<char>::empty())]
            } else if c[k] == '"' || c[k] == '\'' {
                let q = spec_upto_char(c, c[k], k + 1);
                if q >= c.len() {
                    seq![(name, c.subrange(k + 1, c.len() as int))]
                } else {
                    seq![(name, c.subrange(k + 1, q))] + spec_attrs(
                        c.subrange(clamp_step(q + 1, c.len() as int), c.len() as int),
                    )
                }
            } else {
                let ve = spec_upto_ws(c, k);
                seq![(name, c.subrange(k, ve))] + spec_attrs(
                    c.subrange(clamp_step(ve, c.len() as int), c.len() as int),
                )
            }
        } else {
            seq![(name, Seq::<char>::empty())] + spec_attrs(
                c.subrange(clamp_step(j, c.len() as int), c.len() as int),
            )
        }
    }
}

/// What one piece of markup starting with `<` consumes and yields: the
/// number of characters eaten and the token produced, if any.
/// Comments, CDATA sections, declarations and processing instructions
/// yield nothing; so does markup whose `>` never comes.
pub open spec fn spec_markup(s: Seq<char>) -> (int, Seq<GTok>) {
    let len = s.len() as int;
    if crate::url::spec_starts_with(s, seq!['<', '!', '-', '-']) {
        let e = spec_upto_pat(s, seq!['-', '-', '>'], 4);
        (clamp_step(if e >= len { len } else { e + 3 }, len), Seq::empty())
    } else if crate::url::spec_starts_with(s, seq!['<', '!', '[', 'C', 'D', 'A', 'T', 'A', '[']) {
        let e = spec_upto_pat(s, seq![']', ']', '>'], 9);
        (clamp_step(if e >= len { len } else { e + 3 }, len), Seq::empty())
    } else if s.len() >= 2 && (s[1] == '!' || s[1] == '?') {
        let e = spec_upto_char(s, '>', 2);
        (clamp_step(if e >= len { len } else { e + 1 }, len), Seq::empty())
    } else if s.len() >= 2 && s[1] == '/' {
        let e = spec_upto_char(s, '>', 2);
        if e >= len {
            (len, Seq::empty())
        } else {
            let inner = s.subrange(2, e);
            let ne = spec_upto_ws(inner, 0);
            (clamp_step(e + 1, len), seq![GTok::Close { name: inner.take(ne) }])
        }
    } else {
        let e = spec_upto_char(s, '>', 1);
        if e >= len {
            (len, Seq::empty())
        } else {
            let content = s.subrange(1, e);
            let sc = content.len() > 0 && content[content.len() - 1] == '/';
            let inner = if sc {
                content.take(content.len() - 1)
            } else {
                content
            };
            let ne = spec_upto_ws(inner, 0);
            let tok = GTok::Open {
                name: inner.take(ne),
                attrs: spec_attrs(inner.subrange(ne, inner.len() as int)),
                self_closing: sc,
            };
            (clamp_step(e + 1, len), seq![tok])
        }
    }
}

/// The token list of the whole input: text runs split at `<`, markup
/// handled by `spec_markup`.
pub open spec fn spec_tokenize(s: Seq<char>) -> Seq<GTok>
    decreases s.len(),
{
    if s.len() == 0 {
        Seq::empty()
    } else if s[0] == '<' {
        let m = spec_markup(s);
        let step = clamp_step(m.0, s.len() as int);
        m.1 + spec_tokenize(s.subrange(step, s.len() as int))
    } else {
        let e = spec_upto_char(s, '<', 0);
        let end = clamp_step(e, s.len() as int);
        seq![GTok::Text { content: s.take(end) }] + spec_tokenize(s.subrange(end, s.len() as int))
    }
}

/// Mapping the token view over a longer list extends the shorter map.
proof fn lemma_toks_view_push(ts: Seq<Tok>, t: Tok)
    ensures
        toks_view(ts.push(t)) == toks_view(ts).push(t@),
{
    assert(toks_view(ts.push(t)) =~= toks_view(ts).push(t@));
}

/// Whether `pat` stands at position `i` of `v`.
fn has_at(v: &Vec<char>, i: usize, pat: &Vec<char>) -> (r: bool)
    requires
        i <= v@.len(),
    ensures
        r == crate::url::spec_starts_with(suffix(v@, i as int), pat@),
{
    let ghost rem = suffix(v@, i as int);
    let n = v.len();
    if pat.len() > n - i {
        return false;
    }
    let mut k: usize = 0;
    while k < pat.len() && v[i + k] == pat[k]
        invariant
            k <= pat.len(),
            i + pat.len() <= n == v@.len(),
            rem == suffix(v@, i as int),
            forall|t: int| 0 <= t < k ==> v@[i + t] == pat@[t],
        decreases pat.len() - k,
    {
        k = k + 1;
    }
    if k == pat.len() {
        proof {
            assert forall|t: int| 0 <= t < pat@.len() implies rem.take(pat@.len() as int)[t]
                == pat@[t] by {
                assert(rem[t] == v@[i + t]);
            }
            assert(rem.take(pat@.len() as int) =~= pat@);
        }
        true
    } else {
        proof {
            assert(rem.take(pat@.len() as int)[k as int] == v@[i + k]);
        }
        false
    }
}

/// The attributes of a tag whose content stands in `c` from `start`
/// on.
pub fn parse_attrs(c: &Vec<char>, start: usize) -> (attrs: Vec<Attr>)
    requires
        start <= c@.len(),
    ensures
        attrs@.map_values(|a: Attr| a@) == spec_attrs(suffix(c@, start as int)),
{
    let mut attrs: Vec<Attr> = Vec::new();
    let mut pos: usize = start;
    proof {
        assert(attrs@.map_values(|a: Attr| a@) =~= Seq::<(Seq<char>, Seq<char>)>::empty());
    }
    loop
        invariant_except_break
            start <= pos <= c@.len(),
            spec_attrs(suffix(c@, start as int)) == attrs@.map_values(|a: Attr| a@) + spec_attrs(
                suffix(c@, pos as int),
            ),
        ensures
            spec_attrs(suffix(c@, start as int)) == attrs@.map_values(|a: Attr| a@),
        decreases c@.len() - pos,
    {
        let ghost x = suffix(c@, pos as int);
        let ghost before = attrs@;
        let n = c.len();
        let i = skip_ws_from(c, pos, 0);
        if pos + i >= n {
            proof {
                assert(spec_attrs(x) =~= Seq::<(Seq<char>, Seq<char>)>::empty());
                assert(before.map_values(|a: Attr| a@) + spec_attrs(x) =~= before.map_values(
                    |a: Attr| a@,
                ));
            }
            break;
        }
        let ne = attr_name_end_from(c, pos, i);
        let name = copy_range(c, pos + i, pos + ne);
        proof {
            assert(x.subrange(i as int, ne as int) =~= c@.subrange(pos + i, pos + ne));
        }
        let j = skip_ws_from(c, pos, ne);
        let adv: usize;
        let value: Vec<char>;
        if pos + j < n && c[pos + j] == '=' {
            proof {
                assert(x[j as int] == c@[pos + j]);
            }
            let k = skip_ws_from(c, pos, j + 1);
            if pos + k >= n {
                value = Vec::new();
                adv = k;
                proof {
                    assert(spec_attrs(x) =~= seq![(x.subrange(i as int, ne as int), Seq::<
                        char,
                    >::empty())]);
                    assert(suffix(c@, (pos + adv) as int) =~= Seq::<char>::empty());
                    assert(spec_attrs(suffix(c@, (pos + adv) as int)) =~= Seq::<(
                        Seq<char>,
                        Seq<char>,
                    )>::empty());
                }
            } else {
                let quote = c[pos + k];
                proof {
                    assert(x[k as int] == c@[pos + k]);
                }
                if quote == '"' || quote == '\'' {
                    let q = upto_char_from(c, pos, quote, k + 1);
                    if pos + q >= n {
                        value = copy_range(c, pos + k + 1, c.len());
                        adv = c.len() - pos;
                        proof {
                            assert(x.subrange(k + 1 as int, x.len() as int) =~= c@.subrange(
                                pos + k + 1,
                                c@.len() as int,
                            ));
                            assert(spec_attrs(x) =~= seq![(
                                x.subrange(i as int, ne as int),
                                x.subrange(k + 1 as int, x.len() as int),
                            )]);
                            assert(suffix(c@, (pos + adv) as int) =~= Seq::<char>::empty());
                            assert(spec_attrs(suffix(c@, (pos + adv) as int)) =~= Seq::<(
                                Seq<char>,
                                Seq<char>,
                            )>::empty());
                        }
                    } else {
                        value = copy_range(c, pos + k + 1, pos + q);
                        adv = q + 1;
                        proof {
                            assert(x.subrange(k + 1 as int, q as int) =~= c@.subrange(
                                pos + k + 1,
                                pos + q,
                            ));
                            assert(x.subrange(clamp_step(q + 1, x.len() as int), x.len() as int)
                                =~= suffix(c@, (pos + adv) as int));
                        }
                    }
                } else {
                    let ve = upto_ws_from(c, pos, k);
                    value = copy_range(c, pos + k, pos + ve);
                    adv = ve;
                    proof {
                        assert(x.subrange(k as int, ve as int) =~= c@.subrange(pos + k, pos + ve));
                        assert(x.subrange(clamp_step(ve as int, x.len() as int), x.len() as int)
                            =~= suffix(c@, (pos + adv) as int));
                    }
                }
            }
        } else {
            proof {
                if pos + j < c@.len() {
                    assert(x[j as int] == c@[pos + j]);
                }
                lemma_finder_chars(x, '=', 0);
                assert(!is_ws(x[i as int]));
                if x[i as int] == '=' {
                    assert(spec_attr_name_end(x, i as int) == i);
                    assert(spec_skip_ws(x, i as int) == i);
                    assert(false);
                }
                if ne == i {
                    assert(spec_attr_name_end(x, i as int) == spec_attr_name_end(x, i + 1));
                    lemma_finder_bounds(x, '=', seq![], i + 1);
                    assert(false);
                }
                assert(1 <= j <= x.len());
            }
            value = Vec::new();
            adv = j;
            proof {
                assert(x.subrange(clamp_step(j as int, x.len() as int), x.len() as int) =~= suffix(
                    c@,
                    (pos + adv) as int,
                ));
            }
        }
        let a = Attr { name, value };
        proof {
            assert(spec_attrs(x) =~= seq![a@] + spec_attrs(suffix(c@, (pos + adv) as int)));
            assert(before.push(a).map_values(|at: Attr| at@) =~= before.map_values(|at: Attr| at@)
                .push(a@));
            assert(before.map_values(|at: Attr| at@) + (seq![a@] + spec_attrs(
                suffix(c@, (pos + adv) as int),
            )) =~= before.push(a).map_values(|at: Attr| at@) + spec_attrs(
                suffix(c@, (pos + adv) as int),
            ));
        }
        attrs.push(a);
        pos = pos + adv;
    }
    attrs
}

/// The token list a scanned piece of markup contributes.
pub open spec fn opt_tok_view(o: Option<Tok>) -> Seq<GTok> {
    match o {
        None => Seq::empty(),
        Some(t) => seq![t@],
    }
}

/// Scans one piece of markup beginning at the `<` at position `i`.
fn scan_markup(v: &Vec<char>, i: usize) -> (r: (usize, Option<Tok>))
    requires
        i < v@.len(),
        v@[i as int] == '<',
    ensures
        r.0 as int == spec_markup(suffix(v@, i as int)).0,
        opt_tok_view(r.1) == spec_markup(suffix(v@, i as int)).1,
        1 <= r.0 <= v@.len() - i,
{
    let ghost rem = suffix(v@, i as int);
    let n = v.len();
    let rlen = n - i;
    let comment_open: Vec<char> = vec!['<', '!', '-', '-'];
    let comment_close: Vec<char> = vec!['-', '-', '>'];
    let cdata_open: Vec<char> = vec!['<', '!', '[', 'C', 'D', 'A', 'T', 'A', '['];
    let cdata_close: Vec<char> = vec![']', ']', '>'];
    proof {
        assert(comment_open@ =~= seq!['<', '!', '-', '-']);
        assert(comment_close@ =~= seq!['-', '-', '>']);
        assert(cdata_open@ =~= seq!['<', '!', '[', 'C', 'D', 'A', 'T', 'A', '[']);
        assert(cdata_close@ =~= seq![']', ']', '>']);
    }
    if has_at(v, i, &comment_open) {
        let e = upto_pat_from(v, i, &comment_close, 4);
        proof {
            lemma_upto_pat_found(rem, comment_close@, 4);
        }
        let step = if e >= rlen {
            rlen
        } else {
            e + 3
        };
        (step, None)
    } else if has_at(v, i, &cdata_open) {
        let e = upto_pat_from(v, i, &cdata_close, 9);
        proof {
            lemma_upto_pat_found(rem, cdata_close@, 9);
        }
        let step = if e >= rlen {
            rlen
        } else {
            e + 3
        };
        (step, None)
    } else if rlen >= 2 && (v[i + 1] == '!' || v[i + 1] == '?') {
        proof {
            assert(rem[1] == v@[i + 1]);
        }
        let e = upto_char_from(v, i, '>', 2);
        let step = if e >= rlen {
            rlen
        } else {
            e + 1
        };
        (step, None)
    } else if rlen >= 2 && v[i + 1] == '/' {
        proof {
            assert(rem[1] == v@[i + 1]);
        }
        let e = upto_char_from(v, i, '>', 2);
        if e >= rlen {
            (rlen, None)
        } else {
            let inner = copy_range(v, i + 2, i + e);
            proof {
                assert(inner@ =~= rem.subrange(2, e as int));
                assert(suffix(inner@, 0) =~= inner@);
            }
            let ne = upto_ws_from(&inner, 0, 0);
            let name = copy_range(&inner, 0, ne);
            let t = Tok::Close { name };
            proof {
                assert(inner@.subrange(0, ne as int) =~= rem.subrange(2, e as int).take(
                    ne as int,
                ));
                assert(opt_tok_view(Some(t)) =~= spec_markup(rem).1);
            }
            (e + 1, Some(t))
        }
    } else {
        proof {
            if rlen >= 2 {
                assert(rem[1] == v@[i + 1]);
            }
        }
        let e = upto_char_from(v, i, '>', 1);
        if e >= rlen {
            (rlen, None)
        } else {
            let mut content = copy_range(v, i + 1, i + e);
            proof {
                assert(content@ =~= rem.subrange(1, e as int));
            }
            let sc = content.len() > 0 && content[content.len() - 1] == '/';
            if sc {
                let _ = content.pop();
                proof {
                    assert(content@ =~= rem.subrange(1, e as int).take(
                        rem.subrange(1, e as int).len() - 1,
                    ));
                }
            }
            let ghost inner = content@;
            let ne = upto_ws_from(&content, 0, 0);
            proof {
                assert(suffix(content@, 0) =~= content@);
            }
            let name = copy_range(&content, 0, ne);
            let attrs = parse_attrs(&content, ne);
            let t = Tok::Open { name, attrs, self_closing: sc };
            proof {
                assert(name@ =~= inner.take(ne as int));
                assert(suffix(content@, ne as int) =~= inner.subrange(
                    ne as int,
                    inner.len() as int,
                ));
                assert(opt_tok_view(Some(t)) =~= spec_markup(rem).1);
            }
            (e + 1, Some(t))
        }
    }
}

/// Splits markup into its token list.
pub fn tokenize(v: &Vec<char>) -> (toks: Vec<Tok>)
    ensures
        toks_view(toks@) == spec_tokenize(v@),
{
    let mut toks: Vec<Tok> = Vec::new();
    let mut i: usize = 0;
    proof {
        assert(suffix(v@, 0) =~= v@);
        assert(toks_view(toks@) =~= Seq::<GTok>::empty());
        assert(Seq::<GTok>::empty() + spec_tokenize(v@) =~= spec_tokenize(v@));
    }
    while i < v.len()
        invariant
            i <= v@.len(),
            spec_tokenize(v@) == toks_view(toks@) + spec_tokenize(suffix(v@, i as int)),
        decreases v@.len() - i,
    {
        let ghost rem = suffix(v@, i as int);
        let ghost before = toks@;
        if v[i] == '<' {
            proof {
                assert(rem[0] == v@[i as int]);
            }
            let (step, tok) = scan_markup(v, i);
            proof {
                let m = spec_markup(rem);
                assert(clamp_step(m.0, rem.len() as int) == step as int);
                assert(rem.subrange(step as int, rem.len() as int) =~= suffix(v@, i + step));
                assert(spec_tokenize(rem) == opt_tok_view(tok) + spec_tokenize(
                    suffix(v@, i + step),
                ));
            }
            match tok {
                None => {
                    proof {
                        assert(toks_view(before) + (opt_tok_view(tok) + spec_tokenize(
                            suffix(v@, (i + step) as int),
                        )) =~= toks_view(before) + spec_tokenize(suffix(v@, (i + step) as int)));
                    }
                },
                Some(t) => {
                    proof {
                        lemma_toks_view_push(before, t);
                        assert(toks_view(before) + (opt_tok_view(tok) + spec_tokenize(
                            suffix(v@, (i + step) as int),
                        )) =~= toks_view(before.push(t)) + spec_tokenize(
                            suffix(v@, (i + step) as int),
                        ));
                    }
                    toks.push(t);
                },
            }
            i = i + step;
        } else {
            proof {
                assert(rem[0] == v@[i as int]);
                lemma_finder_chars(rem, '<', 0);
            }
            let e = upto_char_from(v, i, '<', 0);
            proof {
                if e == 0 {
                    assert(false);
                }
            }
            let content = copy_range(v, i, i + e);
            let t = Tok::Text { content };
            proof {
                assert(content@ =~= rem.take(e as int));
                assert(rem.subrange(e as int, rem.len() as int) =~= suffix(v@, i + e));
                assert(spec_tokenize(rem) == seq![t@] + spec_tokenize(suffix(v@, i + e)));
                lemma_toks_view_push(before, t);
                assert(toks_view(before) + (seq![t@] + spec_tokenize(suffix(v@, (i + e) as int)))
                    =~= toks_view(before.push(t)) + spec_tokenize(suffix(v@, (i + e) as int)));
            }
            toks.push(t);
            i = i + e;
        }
    }
    proof {
        assert(suffix(v@, v@.len() as int) =~= Seq::<char>::empty());
        assert(spec_tokenize(Seq::<char>::empty()) =~= Seq::<GTok>::empty());
        assert(toks_view(toks@) + Seq::<GTok>::empty() =~= toks_view(toks@));
    }
    toks
}

/// The value of one decimal digit character.
pub open spec fn dec_digit_val(c: char) -> Option<int> {
    if c == '0' {
        Some(0int)
    } else if c == '1' {
        Some(1int)
    } else if c == '2' {
        Some(2int)
    } else if c == '3' {
        Some(3int)
    } else if c == '4' {
        Some(4int)
    } else if c == '5' {
        Some(5int)
    } else if c == '6' {
        Some(6int)
    } else if c == '7' {
        Some(7int)
    } else if c == '8' {
        Some(8int)
    } else if c == '9' {
        Some(9int)
    } else {
        None
    }
}

/// The value of one hexadecimal digit character.
pub open spec fn hex_digit_val(c: char) -> Option<int> {
    if c == 'a' || c == 'A' {
        Some(10int)
    } else if c == 'b' || c == 'B' {
        Some(11int)
    } else if c == 'c' || c == 'C' {
        Some(12int)
    } else if c == 'd' || c == 'D' {
        Some(13int)
    } else if c == 'e' || c == 'E' {
        Some(14int)
    } else if c == 'f' || c == 'F' {
        Some(15int)
    } else {
        dec_digit_val(c)
    }
}

/// The value of a digit string in the given radix, or nothing when it
/// is empty, holds a non-digit, or exceeds the largest Unicode scalar.
pub open spec fn spec_digits_value(ds: Seq<char>, hex: bool) -> Option<int>
    decreases ds.len(),
{
    let dv = if hex {
        hex_digit_val(ds.last())
    } else {
        dec_digit_val(ds.last())
    };
    if ds.len() == 0 {
        None
    } else if ds.len() == 1 {
        dv
    } else {
        match spec_digits_value(ds.drop_last(), hex) {
            None => None,
            Some(h) => match dv {
                None => None,
                Some(d) => {
                    let radix = if hex {
                        16int
                    } else {
                        10int
                    };
                    if h * radix + d > 0x10FFFF {
                        None
                    } else {
                        Some(h * radix + d)
                    }
                },
            },
        }
    }
}

/// Whether a number is a Unicode scalar value: a `char` exists for it.
pub open spec fn is_scalar_value(n: int) -> bool {
    (0 <= n < 0xD800) || (0xE000 <= n <= 0x10FFFF)
}

/// The replacement for the entity named `e` (what stands between `&`
/// and `;`): the five standard names, or a numeric character
/// reference; nothing for any other name.
pub open spec fn spec_entity_char(e: Seq<char>) -> Option<Seq<char>> {
    if e == seq!['l', 't'] {
        Some(seq!['<'])
    } else if e == seq!['g', 't'] {
        Some(seq!['>'])
    } else if e == seq!['a', 'm', 'p'] {
        Some(seq!['&'])
    } else if e == seq!['q', 'u', 'o', 't'] {
        Some(seq!['"'])
    } else if e == seq!['a', 'p', 'o', 's'] {
        Some(seq!['\''])
    } else if e.len() >= 2 && e[0] == '#' && (e[1] == 'x' || e[1] == 'X') {
        match spec_digits_value(e.subrange(2, e.len() as int), true) {
            None => None,
            Some(n) => if is_scalar_value(n) {
                Some(seq![(n as u32) as char])
            } else {
                None
            },
        }
    } else if e.len() >= 1 && e[0] == '#' {
        match spec_digits_value(e.subrange(1, e.len() as int), false) {
            None => None,
            Some(n) => if is_scalar_value(n) {
                Some(seq![(n as u32) as char])
            } else {
                None
            },
        }
    } else {
        None
    }
}

/// The text with entities decoded, or nothing when any `&` does not
/// begin a well-formed entity.
pub open spec fn spec_unescape(s: Seq<char>) -> Option<Seq<char>>
    decreases s.len(),
{
    if s.len() == 0 {
        Some(Seq::<char>::empty())
    } else if s[0] == '&' {
        let j = spec_upto_char(s, ';', 1);
        if j >= s.len() {
            None
        } else {
            match spec_entity_char(s.subrange(1, j)) {
                None => None,
                Some(rep) => match spec_unescape(
                    s.subrange(clamp_step(j + 1, s.len() as int), s.len() as int),
                ) {
                    None => None,
                    Some(rest) => Some(rep + rest),
                },
            }
        }
    } else {
        match spec_unescape(s.subrange(1, s.len() as int)) {
            None => None,
            Some(rest) => Some(seq![s[0]] + rest),
        }
    }
}

/// The text with entities decoded where that succeeds, else the raw
/// text unchanged: decoding failure never loses the value.
pub open spec fn spec_unescape_or_raw(s: Seq<char>) -> Seq<char> {
    match spec_unescape(s) {
        Some(u) => u,
        None => s,
    }
}

/// Whether two character vectors hold the same characters.
pub fn chars_eq(a: &Vec<char>, b: &Vec<char>) -> (r: bool)
    ensures
        r == (a@ == b@),
{
    if a.len() != b.len() {
        proof {
            assert(a@.len() != b@.len());
        }
        return false;
    }
    let mut k: usize = 0;
    while k < a.len() && a[k] == b[k]
        invariant
            k <= a@.len() == b@.len(),
            forall|t: int| 0 <= t < k ==> a@[t] == b@[t],
        decreases a@.len() - k,
    {
        k = k + 1;
    }
    if k == a.len() {
        proof {
            assert(a@ =~= b@);
        }
        true
    } else {
        false
    }
}

/// The numeric value of the digit string, bounded by the largest
/// Unicode scalar.
fn digits_value(ds: &Vec<char>, from: usize, hex: bool) -> (r: Option<u32>)
    requires
        from <= ds@.len(),
    ensures
        r matches Some(n) ==> spec_digits_value(suffix(ds@, from as int), hex) == Some(n as int),
        r is None ==> spec_digits_value(suffix(ds@, from as int), hex) is None,
{
    let ghost tail = suffix(ds@, from as int);
    let n = ds.len();
    if from >= n {
        return None;
    }
    let mut acc: u32 = match digit_of(ds[from], hex) {
        Some(d) => d,
        None => {
            proof {
                assert(tail.take(1) =~= seq![ds@[from as int]]);
                lemma_digits_value_prefix_none(tail, hex, 1);
            }
            return None;
        },
    };
    proof {
        assert(tail.take(1) =~= seq![ds@[from as int]]);
    }
    let mut k: usize = 1;
    while from + k < n
        invariant
            1 <= k <= n - from,
            from < n == ds@.len(),
            tail == suffix(ds@, from as int),
            acc <= 0x10FFFF,
            spec_digits_value(tail.take(k as int), hex) == Some(acc as int),
        decreases n - from - k,
    {
        let d = match digit_of(ds[from + k], hex) {
            Some(d) => d,
            None => {
                proof {
                    assert(tail[k as int] == ds@[from + k]);
                    assert(tail.take(k + 1 as int).drop_last() =~= tail.take(k as int));
                    assert(tail.take(k + 1 as int).last() == tail[k as int]);
                    lemma_digits_value_prefix_none(tail, hex, k + 1 as int);
                }
                return None;
            },
        };
        let radix: u32 = if hex {
            16
        } else {
            10
        };
        let next = acc * radix + d;
        proof {
            assert(tail[k as int] == ds@[from + k]);
            assert(tail.take(k + 1 as int).drop_last() =~= tail.take(k as int));
            assert(tail.take(k + 1 as int).last() == tail[k as int]);
        }
        if next > 0x10FFFF {
            proof {
                lemma_digits_value_prefix_none(tail, hex, k + 1 as int);
            }
            return None;
        }
        acc = next;
        k = k + 1;
    }
    proof {
        assert(tail.take((n - from) as int) =~= tail);
    }
    Some(acc)
}

/// Once a prefix of the digits fails to parse, the whole fails.
proof fn lemma_digits_value_prefix_none(ds: Seq<char>, hex: bool, k: int)
    requires
        1 <= k <= ds.len(),
        spec_digits_value(ds.take(k), hex) is None,
    ensures
        spec_digits_value(ds, hex) is None,
    decreases ds.len() - k,
{
    if k == ds.len() {
        assert(ds.take(k) =~= ds);
    } else {
        assert(ds.take(k + 1).drop_last() =~= ds.take(k));
        lemma_digits_value_prefix_none(ds, hex, k + 1);
    }
}

/// The value of one digit character in the given radix.
fn digit_of(c: char, hex: bool) -> (r: Option<u32>)
    ensures
        ({
            let dv = if hex {
                hex_digit_val(c)
            } else {
                dec_digit_val(c)
            };
            match r {
                Some(d) => dv == Some(d as int),
                None => dv is None,
            }
        }),
{
    match c {
        '0' => Some(0),
        '1' => Some(1),
        '2' => Some(2),
        '3' => Some(3),
        '4' => Some(4),
        '5' => Some(5),
        '6' => Some(6),
        '7' => Some(7),
        '8' => Some(8),
        '9' => Some(9),
        'a' | 'A' => if hex {
            Some(10)
        } else {
            None
        },
        'b' | 'B' => if hex {
            Some(11)
        } else {
            None
        },
        'c' | 'C' => if hex {
            Some(12)
        } else {
            None
        },
        'd' | 'D' => if hex {
            Some(13)
        } else {
            None
        },
        'e' | 'E' => if hex {
            Some(14)
        } else {
            None
        },
        'f' | 'F' => if hex {
            Some(15)
        } else {
            None
        },
        _ => None,
    }
}

/// Relies on char::from_u32: a Unicode scalar value converts to the
/// character with that value; a surrogate or out-of-range value does
/// not convert.
#[verifier::external_body]
fn char_from_u32(n: u32) -> (r: Option<char>)
    ensures
        r matches Some(c) ==> c == n as char,
        (r is Some) == is_scalar_value(n as int),
{
    char::from_u32(n)
}

/// The replacement characters for the entity named `e`.
fn entity_chars(e: &Vec<char>) -> (r: Option<Vec<char>>)
    ensures
        r matches Some(u) ==> spec_entity_char(e@) == Some(u@),
        r is None ==> spec_entity_char(e@) is None,
{
    let lt: Vec<char> = vec!['l', 't'];
    let gt: Vec<char> = vec!['g', 't'];
    let amp: Vec<char> = vec!['a', 'm', 'p'];
    let quot: Vec<char> = vec!['q', 'u', 'o', 't'];
    let apos: Vec<char> = vec!['a', 'p', 'o', 's'];
    proof {
        assert(lt@ =~= seq!['l', 't']);
        assert(gt@ =~= seq!['g', 't']);
        assert(amp@ =~= seq!['a', 'm', 'p']);
        assert(quot@ =~= seq!['q', 'u', 'o', 't']);
        assert(apos@ =~= seq!['a', 'p', 'o', 's']);
    }
    if chars_eq(e, &lt) {
        let out: Vec<char> = vec!['<'];
        proof {
            assert(out@ =~= seq!['<']);
        }
        return Some(out);
    }
    if chars_eq(e, &gt) {
        let out: Vec<char> = vec!['>'];
        proof {
            assert(out@ =~= seq!['>']);
        }
        return Some(out);
    }
    if chars_eq(e, &amp) {
        let out: Vec<char> = vec!['&'];
        proof {
            assert(out@ =~= seq!['&']);
        }
        return Some(out);
    }
    if chars_eq(e, &quot) {
        let out: Vec<char> = vec!['"'];
        proof {
            assert(out@ =~= seq!['"']);
        }
        return Some(out);
    }
    if chars_eq(e, &apos) {
        let out: Vec<char> = vec!['\''];
        proof {
            assert(out@ =~= seq!['\'']);
        }
        return Some(out);
    }
    if e.len() >= 2 && e[0] == '#' && (e[1] == 'x' || e[1] == 'X') {
        proof {
            assert(suffix(e@, 2) =~= e@.subrange(2, e@.len() as int));
        }
        match digits_value(e, 2, true) {
            None => None,
            Some(nv) => match char_from_u32(nv) {
                None => None,
                Some(c) => {
                    let out: Vec<char> = vec![c];
                    proof {
                        assert(out@ =~= seq![(nv as u32) as char]);
                    }
                    Some(out)
                },
            },
        }
    } else if e.len() >= 1 && e[0] == '#' {
        proof {
            assert(suffix(e@, 1) =~= e@.subrange(1, e@.len() as int));
        }
        match digits_value(e, 1, false) {
            None => None,
            Some(nv) => match char_from_u32(nv) {
                None => None,
                Some(c) => {
                    let out: Vec<char> = vec![c];
                    proof {
                        assert(out@ =~= seq![(nv as u32) as char]);
                    }
                    Some(out)
                },
            },
        }
    } else {
        None
    }
}

/// The text with entities decoded, if every entity is well formed.
fn try_unescape(v: &Vec<char>) -> (r: Option<Vec<char>>)
    ensures
        r matches Some(u) ==> spec_unescape(v@) == Some(u@),
        r is None ==> spec_unescape(v@) is None,
{
    let mut out: Vec<char> = Vec::new();
    let mut pos: usize = 0;
    proof {
        assert(suffix(v@, 0) =~= v@);
    }
    loop
        invariant_except_break
            pos <= v@.len(),
            ({
                let whole = spec_unescape(v@);
                let rest = spec_unescape(suffix(v@, pos as int));
                match rest {
                    None => whole is None,
                    Some(tail) => whole == Some(out@ + tail),
                }
            }),
        ensures
            ({
                let whole = spec_unescape(v@);
                match whole {
                    None => false,
                    Some(u) => u == out@,
                }
            }),
        decreases v@.len() - pos,
    {
        let ghost x = suffix(v@, pos as int);
        let n = v.len();
        if pos >= n {
            proof {
                assert(x =~= Seq::<char>::empty());
                assert(out@ + Seq::<char>::empty() =~= out@);
            }
            break;
        }
        if v[pos] == '&' {
            proof {
                assert(x[0] == v@[pos as int]);
            }
            let j = upto_char_from(v, pos, ';', 1);
            if pos + j >= n {
                return None;
            }
            let ent = copy_range(v, pos + 1, pos + j);
            proof {
                assert(ent@ =~= x.subrange(1, j as int));
            }
            match entity_chars(&ent) {
                None => {
                    return None;
                },
                Some(rep) => {
                    proof {
                        assert(x.subrange(clamp_step(j + 1, x.len() as int), x.len() as int)
                            =~= suffix(v@, (pos + j + 1) as int));
                    }
                    let mut t: usize = 0;
                    let ghost out_before = out@;
                    while t < rep.len()
                        invariant
                            t <= rep@.len(),
                            out@ == out_before + rep@.take(t as int),
                        decreases rep@.len() - t,
                    {
                        out.push(rep[t]);
                        proof {
                            assert(rep@.take(t + 1 as int) =~= rep@.take(t as int).push(
                                rep@[t as int],
                            ));
                            assert(out_before + rep@.take(t as int).push(rep@[t as int])
                                =~= (out_before + rep@.take(t as int)).push(rep@[t as int]));
                        }
                        t = t + 1;
                    }
                    proof {
                        assert(rep@.take(rep@.len() as int) =~= rep@);
                        if spec_unescape(suffix(v@, (pos + j + 1) as int)) is Some {
                            let tail = spec_unescape(suffix(v@, (pos + j + 1) as int))->Some_0;
                            assert((out_before + rep@) + tail =~= out_before + (rep@ + tail));
                        }
                    }
                    pos = pos + j + 1;
                },
            }
        } else {
            proof {
                assert(x[0] == v@[pos as int]);
                assert(x.subrange(1, x.len() as int) =~= suffix(v@, (pos + 1) as int));
                if spec_unescape(suffix(v@, (pos + 1) as int)) is Some {
                    let tail = spec_unescape(suffix(v@, (pos + 1) as int))->Some_0;
                    assert(out@.push(v@[pos as int]) + tail =~= out@ + (seq![v@[pos as int]]
                        + tail));
                }
            }
            out.push(v[pos]);
            pos = pos + 1;
        }
    }
    Some(out)
}

/// The text with entities decoded where that succeeds, else unchanged.
pub fn unescape_or_raw(v: &Vec<char>) -> (out: Vec<char>)
    ensures
        out@ == spec_unescape_or_raw(v@),
{
    match try_unescape(v) {
        Some(u) => u,
        None => {
            let out = copy_range(v, 0, v.len());
            proof {
                assert(v@.subrange(0, v@.len() as int) =~= v@);
            }
            out
        },
    }
}

} // verus!
