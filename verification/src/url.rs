//! URL helpers: scheme, domain and fragment-prefix extraction, and
//! resolution of relative links against a base URL's domain root.

use vstd::prelude::*;
use crate::chars::{chars_of, string_of};

verus! {

/// The `://` separator between a scheme and the rest of a URL.
pub open spec fn scheme_sep() -> Seq<char> {
    seq![':', '/', '/']
}

/// First index at or after `from` where `pat` occurs in `s`, if any.
pub open spec fn spec_find_at(s: Seq<char>, pat: Seq<char>, from: int) -> Option<int>
    decreases s.len() - from,
{
    if from < 0 || from + pat.len() > s.len() {
        None
    } else if pat.len() == 0 {
        Some(from)
    } else if s.subrange(from, from + pat.len() as int) == pat {
        Some(from)
    } else {
        spec_find_at(s, pat, from + 1)
    }
}

/// First index where `pat` occurs in `s`, if any.
pub open spec fn spec_find(s: Seq<char>, pat: Seq<char>) -> Option<int> {
    spec_find_at(s, pat, 0)
}

/// First index at or after `from` holding the character `c`, if any.
pub open spec fn spec_find_char_at(s: Seq<char>, c: char, from: int) -> Option<int>
    decreases s.len() - from,
{
    if from < 0 || from >= s.len() {
        None
    } else if s[from] == c {
        Some(from)
    } else {
        spec_find_char_at(s, c, from + 1)
    }
}

/// First index holding the character `c`, if any.
pub open spec fn spec_find_char(s: Seq<char>, c: char) -> Option<int> {
    spec_find_char_at(s, c, 0)
}

/// First occurrence of `pat` in `v` at or after `from`.
pub fn find_at(v: &Vec<char>, pat: &Vec<char>, from: usize) -> (r: Option<usize>)
    ensures
        r matches Some(i) ==> spec_find_at(v@, pat@, from as int) == Some(i as int) && from <= i
            && i + pat@.len() <= v@.len(),
        r is None ==> spec_find_at(v@, pat@, from as int) is None,
    decreases v@.len() - from,
{
    if pat.len() > v.len() || from > v.len() - pat.len() {
        return None;
    }
    let mut k: usize = 0;
    while k < pat.len() && v[from + k] == pat[k]
        invariant
            k <= pat.len(),
            from + pat.len() <= v.len(),
            forall|t: int| 0 <= t < k ==> v@[from + t] == pat@[t],
        decreases pat.len() - k,
    {
        k = k + 1;
    }
    if k == pat.len() {
        proof {
            assert(v@.subrange(from as int, from + pat@.len() as int) =~= pat@);
        }
        Some(from)
    } else {
        proof {
            assert(v@.subrange(from as int, from + pat@.len() as int)[k as int] == v@[from + k]);
        }
        find_at(v, pat, from + 1)
    }
}

/// First occurrence of `pat` in `v`.
pub fn find_sub(v: &Vec<char>, pat: &Vec<char>) -> (r: Option<usize>)
    ensures
        r matches Some(i) ==> spec_find(v@, pat@) == Some(i as int) && i + pat@.len() <= v@.len(),
        r is None ==> spec_find(v@, pat@) is None,
{
    find_at(v, pat, 0)
}

/// First occurrence of the character `c` in `v` at or after `from`.
pub fn find_char_at(v: &Vec<char>, c: char, from: usize) -> (r: Option<usize>)
    ensures
        r matches Some(i) ==> spec_find_char_at(v@, c, from as int) == Some(i as int) && from <= i
            && i < v@.len(),
        r is None ==> spec_find_char_at(v@, c, from as int) is None,
    decreases v@.len() - from,
{
    if from >= v.len() {
        None
    } else if v[from] == c {
        Some(from)
    } else {
        find_char_at(v, c, from + 1)
    }
}

/// The characters of `v` from `from` (inclusive) to `to` (exclusive).
pub fn copy_range(v: &Vec<char>, from: usize, to: usize) -> (out: Vec<char>)
    requires
        from <= to <= v@.len(),
    ensures
        out@ == v@.subrange(from as int, to as int),
{
    let mut out: Vec<char> = Vec::new();
    let mut k: usize = from;
    while k < to
        invariant
            from <= k <= to <= v@.len(),
            out@ == v@.subrange(from as int, k as int),
        decreases to - k,
    {
        out.push(v[k]);
        proof {
            assert(v@.subrange(from as int, k + 1 as int) =~= v@.subrange(from as int, k as int).push(
                v@[k as int],
            ));
        }
        k = k + 1;
    }
    out
}

/// What `domain` returns: the part between `://` and the next `/`, the
/// whole remainder if no `/` follows, or the whole input if it has no
/// `://`.
pub open spec fn spec_domain(s: Seq<char>) -> Seq<char> {
    match spec_find(s, scheme_sep()) {
        None => s,
        Some(i) => {
            let rest = s.subrange(i + 3, s.len() as int);
            match spec_find_char(rest, '/') {
                None => rest,
                Some(j) => rest.take(j),
            }
        },
    }
}

/// The domain of a URL: what stands between `://` and the next `/`.
pub fn domain(url: &str) -> (r: String)
    ensures
        r@ == spec_domain(url@),
{
    let v = chars_of(url);
    let sep: Vec<char> = vec![':', '/', '/'];
    proof {
        assert(sep@ =~= scheme_sep());
    }
    match find_sub(&v, &sep) {
        None => {
            let out = copy_range(&v, 0, v.len());
            proof {
                assert(v@.subrange(0, v@.len() as int) =~= v@);
            }
            string_of(&out)
        },
        Some(i) => {
            let n = v.len();
            proof {
                assert(i + sep@.len() <= v@.len());
            }
            let start = i + 3;
            proof {
                lemma_find_char_at_suffix(v@, '/', start as int);
            }
            let end = match find_char_at(&v, '/', start) {
                None => v.len(),
                Some(j) => j,
            };
            let out = copy_range(&v, start, end);
            proof {
                lemma_domain_slice(v@, i as int, end as int);
            }
            string_of(&out)
        },
    }
}

/// Relates the direct slice `v[i+3 .. end]` to `spec_domain`, where `end`
/// is the first `/` after the separator found at `i`, or the input's end.
proof fn lemma_domain_slice(s: Seq<char>, i: int, end: int)
    requires
        spec_find(s, scheme_sep()) == Some(i),
        0 <= i,
        i + 3 <= end <= s.len(),
        ({
            let rest = s.subrange(i + 3, s.len() as int);
            match spec_find_char(rest, '/') {
                None => end == s.len(),
                Some(j) => end == i + 3 + j,
            }
        }),
    ensures
        s.subrange(i + 3, end) == spec_domain(s),
{
    let rest = s.subrange(i + 3, s.len() as int);
    match spec_find_char(rest, '/') {
        None => {
            assert(s.subrange(i + 3, end) =~= rest);
        },
        Some(j) => {
            lemma_find_char_at_bounds(rest, '/', 0);
            assert(s.subrange(i + 3, end) =~= rest.take(j));
        },
    }
}

/// Searching from `from` in `s` is searching from the start of the
/// suffix of `s` that begins at `from`.
pub proof fn lemma_find_char_at_suffix(s: Seq<char>, c: char, from: int)
    requires
        0 <= from <= s.len(),
    ensures
        ({
            let tail = s.subrange(from, s.len() as int);
            match spec_find_char_at(s, c, from) {
                None => spec_find_char(tail, c) is None,
                Some(k) => spec_find_char(tail, c) == Some(k - from),
            }
        }),
{
    let tail = s.subrange(from, s.len() as int);
    lemma_find_char_at_shift(s, c, from, from);
}

/// Each step of the search in `s` from `base` matches the search in the
/// suffix of `s` at `base`, offset by `base`.
proof fn lemma_find_char_at_shift(s: Seq<char>, c: char, base: int, from: int)
    requires
        0 <= base <= from <= s.len(),
    ensures
        ({
            let tail = s.subrange(base, s.len() as int);
            match spec_find_char_at(s, c, from) {
                None => spec_find_char_at(tail, c, from - base) is None,
                Some(k) => spec_find_char_at(tail, c, from - base) == Some(k - base),
            }
        }),
    decreases s.len() - from,
{
    if from < s.len() {
        if s[from] != c {
            lemma_find_char_at_shift(s, c, base, from + 1);
        }
    }
}

/// A found character index lies within the sequence.
pub proof fn lemma_find_char_at_bounds(s: Seq<char>, c: char, from: int)
    requires
        spec_find_char_at(s, c, from) is Some,
    ensures
        from <= spec_find_char_at(s, c, from)->Some_0 < s.len(),
    decreases s.len() - from,
{
    if from < 0 || from >= s.len() {
    } else if s[from] == c {
    } else {
        lemma_find_char_at_bounds(s, c, from + 1);
    }
}

/// What `prefix` returns: everything before the first `#`, or the whole
/// input if it has none.
pub open spec fn spec_prefix(s: Seq<char>) -> Seq<char> {
    match spec_find_char(s, '#') {
        None => s,
        Some(i) => s.take(i),
    }
}

/// A URL with any fragment removed: the dedup key for repeat links.
pub fn prefix(url: &str) -> (r: String)
    ensures
        r@ == spec_prefix(url@),
{
    let v = chars_of(url);
    let end = match find_char_at(&v, '#', 0) {
        None => v.len(),
        Some(i) => i,
    };
    let out = copy_range(&v, 0, end);
    proof {
        if spec_find_char(v@, '#') is None {
            assert(v@.subrange(0, v@.len() as int) =~= v@);
        } else {
            assert(v@.subrange(0, end as int) =~= v@.take(end as int));
        }
    }
    string_of(&out)
}

/// What `scheme` returns: the part before `://`, or `https` if the URL
/// names no scheme.
pub open spec fn spec_scheme(s: Seq<char>) -> Seq<char> {
    match spec_find(s, scheme_sep()) {
        None => seq!['h', 't', 't', 'p', 's'],
        Some(i) => s.take(i),
    }
}

/// The scheme of a URL, defaulting to `https` when it has none.
pub fn scheme(url: &str) -> (r: String)
    ensures
        r@ == spec_scheme(url@),
{
    let v = chars_of(url);
    let sep: Vec<char> = vec![':', '/', '/'];
    proof {
        assert(sep@ =~= scheme_sep());
    }
    match find_sub(&v, &sep) {
        None => {
            let out: Vec<char> = vec!['h', 't', 't', 'p', 's'];
            proof {
                assert(out@ =~= spec_scheme(v@));
            }
            string_of(&out)
        },
        Some(i) => {
            let out = copy_range(&v, 0, i);
            proof {
                assert(v@.subrange(0, i as int) =~= v@.take(i as int));
            }
            string_of(&out)
        },
    }
}

/// Whether `s` begins with `p`.
pub open spec fn spec_starts_with(s: Seq<char>, p: Seq<char>) -> bool {
    p.len() <= s.len() && s.take(p.len() as int) == p
}

/// Whether the string begins with the given prefix.
pub fn starts_with(s: &Vec<char>, p: &Vec<char>) -> (r: bool)
    ensures
        r == spec_starts_with(s@, p@),
{
    if p.len() > s.len() {
        return false;
    }
    let mut k: usize = 0;
    while k < p.len() && s[k] == p[k]
        invariant
            k <= p.len() <= s.len(),
            forall|t: int| 0 <= t < k ==> s@[t] == p@[t],
        decreases p.len() - k,
    {
        k = k + 1;
    }
    if k == p.len() {
        proof {
            assert(s@.take(p@.len() as int) =~= p@);
        }
        true
    } else {
        proof {
            assert(s@.take(p@.len() as int)[k as int] == s@[k as int]);
        }
        false
    }
}

/// What `url_path` returns: for a URL with an explicit `http` or
/// `https` scheme, the part from the first `/` after the domain on;
/// nothing for other inputs.
pub open spec fn spec_url_path(s: Seq<char>) -> Option<Seq<char>> {
    let http = seq!['h', 't', 't', 'p', ':', '/', '/'];
    let https = seq!['h', 't', 't', 'p', 's', ':', '/', '/'];
    if spec_starts_with(s, http) {
        spec_path_from(s.skip(http.len() as int))
    } else if spec_starts_with(s, https) {
        spec_path_from(s.skip(https.len() as int))
    } else {
        None
    }
}

/// The suffix of `rest` from its first `/` on, if it has one.
pub open spec fn spec_path_from(rest: Seq<char>) -> Option<Seq<char>> {
    match spec_find_char(rest, '/') {
        None => None,
        Some(i) => Some(rest.skip(i)),
    }
}

/// The path-and-beyond component of an absolute `http`/`https` URL.
pub fn url_path(url: &str) -> (r: Option<String>)
    ensures
        r matches Some(p) ==> spec_url_path(url@) == Some(p@),
        r is None ==> spec_url_path(url@) is None,
{
    let v = chars_of(url);
    let http: Vec<char> = vec!['h', 't', 't', 'p', ':', '/', '/'];
    let https: Vec<char> = vec!['h', 't', 't', 'p', 's', ':', '/', '/'];
    let skip: usize = if starts_with(&v, &http) {
        7
    } else if starts_with(&v, &https) {
        8
    } else {
        return None;
    };
    proof {
        lemma_find_char_at_suffix(v@, '/', skip as int);
    }
    match find_char_at(&v, '/', skip) {
        None => None,
        Some(i) => {
            let out = copy_range(&v, i, v.len());
            proof {
                let rest = v@.subrange(skip as int, v@.len() as int);
                assert(rest.skip(i - skip) =~= v@.subrange(i as int, v@.len() as int));
            }
            Some(string_of(&out))
        },
    }
}

/// What `make_absolute` returns: a URL already holding `://` is kept;
/// any other is resolved against the base's scheme and domain alone,
/// with one leading `/` stripped.
pub open spec fn spec_make_absolute(base: Seq<char>, url: Seq<char>) -> Seq<char> {
    if spec_find(url, scheme_sep()) is Some {
        url
    } else {
        let stripped = if url.len() > 0 && url[0] == '/' {
            url.skip(1)
        } else {
            url
        };
        spec_scheme(base) + scheme_sep() + spec_domain(base) + seq!['/'] + stripped
    }
}

/// Resolves a link against the base URL's domain root: an already
/// absolute link is returned unchanged; a relative one, with any
/// leading `/` stripped, is appended to the base's scheme and domain.
/// The base's own path is deliberately discarded.
pub fn make_absolute(base: &str, url: &str) -> (r: String)
    ensures
        r@ == spec_make_absolute(base@, url@),
{
    let v = chars_of(url);
    let sep: Vec<char> = vec![':', '/', '/'];
    proof {
        assert(sep@ =~= scheme_sep());
    }
    if find_sub(&v, &sep).is_some() {
        let out = copy_range(&v, 0, v.len());
        proof {
            assert(v@.subrange(0, v@.len() as int) =~= v@);
        }
        return string_of(&out);
    }
    let start: usize = if v.len() > 0 && v[0] == '/' {
        1
    } else {
        0
    };
    let mut out = chars_of(scheme(base).as_str());
    out.push(':');
    out.push('/');
    out.push('/');
    let dom = chars_of(domain(base).as_str());
    let mut k: usize = 0;
    while k < dom.len()
        invariant
            k <= dom@.len(),
            out@ == spec_scheme(base@) + scheme_sep() + dom@.take(k as int),
        decreases dom.len() - k,
    {
        out.push(dom[k]);
        proof {
            assert(dom@.take(k + 1 as int) =~= dom@.take(k as int).push(dom@[k as int]));
        }
        k = k + 1;
    }
    out.push('/');
    let mut t: usize = start;
    while t < v.len()
        invariant
            start <= t <= v@.len(),
            out@ == spec_scheme(base@) + scheme_sep() + spec_domain(base@) + seq!['/']
                + v@.subrange(start as int, t as int),
        decreases v.len() - t,
    {
        out.push(v[t]);
        proof {
            assert(v@.subrange(start as int, t + 1 as int) =~= v@.subrange(
                start as int,
                t as int,
            ).push(v@[t as int]));
        }
        t = t + 1;
    }
    proof {
        if start == 1 {
            assert(v@.subrange(1, v@.len() as int) =~= v@.skip(1));
        } else {
            assert(v@.subrange(0, v@.len() as int) =~= v@);
        }
    }
    string_of(&out)
}

} // verus!
