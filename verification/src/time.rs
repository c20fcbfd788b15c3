//! Lenient timestamp parsing and calendar arithmetic.
//!
//! `parse_date` accepts the formats feed sources actually emit: RFC
//! 3339, RFC 2822, a day/full-month-name form, and a space-delimited
//! form. Before parsing, `GMT` and `UTC` tokens become `+0000` and a
//! leading three-letter weekday name is stripped. An instant is held
//! as microseconds since the Unix epoch, normalised to UTC.

use vstd::prelude::*;
use crate::chars::{chars_of, string_of};

verus! {

/// `s` with every occurrence of `pat` replaced by `rep`, scanning from
/// the left without overlap; unchanged when `pat` is empty.
pub open spec fn spec_replace(s: Seq<char>, pat: Seq<char>, rep: Seq<char>) -> Seq<char>
    decreases s.len(),
{
    if pat.len() == 0 {
        s
    } else if pat.len() > s.len() {
        s
    } else if s.take(pat.len() as int) == pat {
        rep + spec_replace(s.skip(pat.len() as int), pat, rep)
    } else {
        seq![s[0]] + spec_replace(s.skip(1), pat, rep)
    }
}

/// Whether `pat` occurs in `v` at position `i`.
fn matches_at(v: &Vec<char>, pat: &Vec<char>, i: usize) -> (r: bool)
    requires
        i <= v@.len(),
    ensures
        r == (i + pat@.len() <= v@.len() && v@.subrange(i as int, i + pat@.len() as int) == pat@),
{
    if pat.len() > v.len() - i {
        return false;
    }
    let mut k: usize = 0;
    while k < pat.len() && v[i + k] == pat[k]
        invariant
            k <= pat.len(),
            i + pat.len() <= v.len(),
            forall|t: int| 0 <= t < k ==> v@[i + t] == pat@[t],
        decreases pat.len() - k,
    {
        k = k + 1;
    }
    if k == pat.len() {
        proof {
            assert(v@.subrange(i as int, i + pat@.len() as int) =~= pat@);
        }
        true
    } else {
        proof {
            assert(v@.subrange(i as int, i + pat@.len() as int)[k as int] == v@[i + k]);
        }
        false
    }
}

/// `v` with every occurrence of `pat` replaced by `rep`.
pub fn replace(v: &Vec<char>, pat: &Vec<char>, rep: &Vec<char>) -> (out: Vec<char>)
    ensures
        out@ == spec_replace(v@, pat@, rep@),
{
    if pat.len() == 0 {
        let out = crate::url::copy_range(v, 0, v.len());
        proof {
            assert(v@.subrange(0, v@.len() as int) =~= v@);
        }
        return out;
    }
    let mut out: Vec<char> = Vec::new();
    let mut i: usize = 0;
    proof {
        assert(v@.skip(0) =~= v@);
        assert(Seq::<char>::empty() + spec_replace(v@, pat@, rep@) =~= spec_replace(
            v@,
            pat@,
            rep@,
        ));
    }
    while i < v.len()
        invariant
            i <= v@.len(),
            pat@.len() > 0,
            spec_replace(v@, pat@, rep@) == out@ + spec_replace(
                v@.skip(i as int),
                pat@,
                rep@,
            ),
        decreases v@.len() - i,
    {
        let ghost tail = v@.skip(i as int);
        if matches_at(v, pat, i) {
            proof {
                assert(tail.take(pat@.len() as int) =~= v@.subrange(
                    i as int,
                    i + pat@.len() as int,
                ));
                assert(tail.skip(pat@.len() as int) =~= v@.skip(i + pat@.len()));
            }
            let mut k: usize = 0;
            while k < rep.len()
                invariant
                    k <= rep@.len(),
                    spec_replace(v@, pat@, rep@) == out@ + rep@.skip(k as int) + spec_replace(
                        v@.skip(i + pat@.len()),
                        pat@,
                        rep@,
                    ),
                decreases rep@.len() - k,
            {
                proof {
                    assert(rep@.skip(k as int) =~= seq![rep@[k as int]] + rep@.skip(k + 1));
                    assert((out@ + rep@.skip(k as int)) + spec_replace(
                        v@.skip(i + pat@.len()),
                        pat@,
                        rep@,
                    ) =~= (out@.push(rep@[k as int]) + rep@.skip(k + 1)) + spec_replace(
                        v@.skip(i + pat@.len()),
                        pat@,
                        rep@,
                    ));
                }
                out.push(rep[k]);
                k = k + 1;
            }
            proof {
                assert(rep@.skip(rep@.len() as int) =~= Seq::<char>::empty());
                assert(out@ + Seq::<char>::empty() =~= out@);
            }
            i = i + pat.len();
        } else {
            proof {
                if i + pat@.len() <= v@.len() {
                    assert(tail.take(pat@.len() as int) =~= v@.subrange(
                        i as int,
                        i + pat@.len() as int,
                    ));
                }
                assert(tail[0] == v@[i as int]);
                assert(tail.skip(1) =~= v@.skip(i + 1));
                assert(out@ + (seq![v@[i as int]] + spec_replace(v@.skip(i + 1), pat@, rep@))
                    =~= out@.push(v@[i as int]) + spec_replace(v@.skip(i + 1), pat@, rep@));
            }
            out.push(v[i]);
            i = i + 1;
        }
    }
    proof {
        assert(v@.skip(v@.len() as int) =~= Seq::<char>::empty());
        assert(out@ + Seq::<char>::empty() =~= out@);
    }
    out
}

/// Whether the text begins with a three-letter weekday name and
/// `, `: the prefix the pre-parse rewrites strip.
pub open spec fn spec_has_weekday(s: Seq<char>) -> bool {
    ||| crate::url::spec_starts_with(s, seq!['M', 'o', 'n', ',', ' '])
    ||| crate::url::spec_starts_with(s, seq!['T', 'u', 'e', ',', ' '])
    ||| crate::url::spec_starts_with(s, seq!['W', 'e', 'd', ',', ' '])
    ||| crate::url::spec_starts_with(s, seq!['T', 'h', 'u', ',', ' '])
    ||| crate::url::spec_starts_with(s, seq!['F', 'r', 'i', ',', ' '])
    ||| crate::url::spec_starts_with(s, seq!['S', 'a', 't', ',', ' '])
    ||| crate::url::spec_starts_with(s, seq!['S', 'u', 'n', ',', ' '])
}

/// The token rewrites applied before parsing: every `GMT` and `UTC`
/// token becomes `+0000`, and one leading weekday name (`Mon, ` ..
/// `Sun, `) is stripped.
pub open spec fn spec_preprocess(s: Seq<char>) -> Seq<char> {
    let zone = seq!['+', '0', '0', '0', '0'];
    let s1 = spec_replace(s, seq!['G', 'M', 'T'], zone);
    let s2 = spec_replace(s1, seq!['U', 'T', 'C'], zone);
    if spec_has_weekday(s2) {
        s2.skip(5)
    } else {
        s2
    }
}

/// Applies the pre-parse token rewrites to a raw timestamp string.
pub fn preprocess(v: &Vec<char>) -> (out: Vec<char>)
    ensures
        out@ == spec_preprocess(v@),
{
    let zone: Vec<char> = vec!['+', '0', '0', '0', '0'];
    let gmt: Vec<char> = vec!['G', 'M', 'T'];
    let utc: Vec<char> = vec!['U', 'T', 'C'];
    let mon: Vec<char> = vec!['M', 'o', 'n', ',', ' '];
    let tue: Vec<char> = vec!['T', 'u', 'e', ',', ' '];
    let wed: Vec<char> = vec!['W', 'e', 'd', ',', ' '];
    let thu: Vec<char> = vec!['T', 'h', 'u', ',', ' '];
    let fri: Vec<char> = vec!['F', 'r', 'i', ',', ' '];
    let sat: Vec<char> = vec!['S', 'a', 't', ',', ' '];
    let sun: Vec<char> = vec!['S', 'u', 'n', ',', ' '];
    proof {
        assert(mon@ =~= seq!['M', 'o', 'n', ',', ' ']);
        assert(tue@ =~= seq!['T', 'u', 'e', ',', ' ']);
        assert(wed@ =~= seq!['W', 'e', 'd', ',', ' ']);
        assert(thu@ =~= seq!['T', 'h', 'u', ',', ' ']);
        assert(fri@ =~= seq!['F', 'r', 'i', ',', ' ']);
        assert(sat@ =~= seq!['S', 'a', 't', ',', ' ']);
        assert(sun@ =~= seq!['S', 'u', 'n', ',', ' ']);
    }
    let s1 = replace(v, &gmt, &zone);
    let s2 = replace(&s1, &utc, &zone);
    let has_weekday = crate::url::starts_with(&s2, &mon) || crate::url::starts_with(&s2, &tue)
        || crate::url::starts_with(&s2, &wed) || crate::url::starts_with(&s2, &thu)
        || crate::url::starts_with(&s2, &fri) || crate::url::starts_with(&s2, &sat)
        || crate::url::starts_with(&s2, &sun);
    if has_weekday {
        let out = crate::url::copy_range(&s2, 5, s2.len());
        proof {
            assert(s2@.subrange(5, s2@.len() as int) =~= s2@.skip(5));
        }
        out
    } else {
        s2
    }
}

/// The instant an RFC 3339 timestamp string denotes, as whole seconds
/// since the epoch and microseconds past the second, if it parses.
pub uninterp spec fn rfc3339_instant(s: Seq<char>) -> Option<(i64, u32)>;

/// The instant an RFC 2822 timestamp string denotes, if it parses.
pub uninterp spec fn rfc2822_instant(s: Seq<char>) -> Option<(i64, u32)>;

/// The instant a `DD Month YYYY HH:MM:SS +ZZZZ` string denotes, if it
/// parses.
pub uninterp spec fn day_month_instant(s: Seq<char>) -> Option<(i64, u32)>;

/// The instant a `YYYY-MM-DD HH:MM:SS +ZZZZ` string denotes, if it
/// parses.
pub uninterp spec fn spaced_instant(s: Seq<char>) -> Option<(i64, u32)>;

/// Relies on chrono's DateTime::parse_from_rfc3339, timestamp and
/// timestamp_subsec_micros: the outcome depends on the input characters
/// alone; the microsecond part is below two million (the bound chrono
/// documents, reached only inside a leap second); and the seconds lie
/// within chrono's documented calendar range, January 1, 262144 BCE to
/// December 31, 262142 CE, so well inside 8.5e12 either way.
#[verifier::external_body]
fn parse_rfc3339(s: &str) -> (r: Option<(i64, u32)>)
    ensures
        r == rfc3339_instant(s@),
        r matches Some(p) ==> p.1 < 2_000_000 && -8_500_000_000_000 < p.0 < 8_500_000_000_000,
{
    match chrono::DateTime::parse_from_rfc3339(s) {
        Ok(dt) => Some((dt.timestamp(), dt.timestamp_subsec_micros())),
        Err(_) => None,
    }
}

/// Relies on chrono's DateTime::parse_from_rfc2822, timestamp and
/// timestamp_subsec_micros, with `parse_rfc3339`'s bounds.
#[verifier::external_body]
fn parse_rfc2822(s: &str) -> (r: Option<(i64, u32)>)
    ensures
        r == rfc2822_instant(s@),
        r matches Some(p) ==> p.1 < 2_000_000 && -8_500_000_000_000 < p.0 < 8_500_000_000_000,
{
    match chrono::DateTime::parse_from_rfc2822(s) {
        Ok(dt) => Some((dt.timestamp(), dt.timestamp_subsec_micros())),
        Err(_) => None,
    }
}

/// Relies on chrono's DateTime::parse_from_str with the fixed format
/// `%d %B %Y %H:%M:%S %z`, and on timestamp and
/// timestamp_subsec_micros, with `parse_rfc3339`'s bounds.
#[verifier::external_body]
fn parse_day_month(s: &str) -> (r: Option<(i64, u32)>)
    ensures
        r == day_month_instant(s@),
        r matches Some(p) ==> p.1 < 2_000_000 && -8_500_000_000_000 < p.0 < 8_500_000_000_000,
{
    match chrono::DateTime::parse_from_str(s, "%d %B %Y %H:%M:%S %z") {
        Ok(dt) => Some((dt.timestamp(), dt.timestamp_subsec_micros())),
        Err(_) => None,
    }
}

/// Relies on chrono's DateTime::parse_from_str with the fixed format
/// `%Y-%m-%d %H:%M:%S %z`, and on timestamp and
/// timestamp_subsec_micros, with `parse_rfc3339`'s bounds.
#[verifier::external_body]
fn parse_spaced(s: &str) -> (r: Option<(i64, u32)>)
    ensures
        r == spaced_instant(s@),
        r matches Some(p) ==> p.1 < 2_000_000 && -8_500_000_000_000 < p.0 < 8_500_000_000_000,
{
    match chrono::DateTime::parse_from_str(s, "%Y-%m-%d %H:%M:%S %z") {
        Ok(dt) => Some((dt.timestamp(), dt.timestamp_subsec_micros())),
        Err(_) => None,
    }
}

/// Seconds and sub-second microseconds combined into microseconds since
/// the epoch, when that fits an `i64`.
pub open spec fn spec_instant_micros(secs: int, sub: int) -> Option<i64> {
    if i64::MIN <= secs * 1_000_000 <= i64::MAX && i64::MIN <= secs * 1_000_000 + sub
        <= i64::MAX {
        Some((secs * 1_000_000 + sub) as i64)
    } else {
        None
    }
}

/// The first of the four formats to accept the preprocessed string
/// decides the result; an instant too distant to count in `i64`
/// microseconds parses to nothing.
pub open spec fn spec_parse_date(raw: Seq<char>) -> Option<i64> {
    let p = spec_preprocess(raw);
    let pair = if rfc3339_instant(p) is Some {
        rfc3339_instant(p)
    } else if rfc2822_instant(p) is Some {
        rfc2822_instant(p)
    } else if day_month_instant(p) is Some {
        day_month_instant(p)
    } else {
        spaced_instant(p)
    };
    match pair {
        None => None,
        Some(q) => spec_instant_micros(q.0 as int, q.1 as int),
    }
}

/// Parses a raw feed timestamp into microseconds since the epoch, UTC.
/// Unparseable input yields nothing, never an error; input any of the
/// four formats accepts yields the instant, since every instant chrono
/// represents fits in microseconds.
pub fn parse_date(raw: &str) -> (r: Option<i64>)
    ensures
        r == spec_parse_date(raw@),
        r is Some <==> ({
            let p = spec_preprocess(raw@);
            ||| rfc3339_instant(p) is Some
            ||| rfc2822_instant(p) is Some
            ||| day_month_instant(p) is Some
            ||| spaced_instant(p) is Some
        }),
{
    let v = chars_of(raw);
    let pre = string_of(&preprocess(&v));
    let pair = match parse_rfc3339(pre.as_str()) {
        Some(p) => Some(p),
        None => match parse_rfc2822(pre.as_str()) {
            Some(p) => Some(p),
            None => match parse_day_month(pre.as_str()) {
                Some(p) => Some(p),
                None => parse_spaced(pre.as_str()),
            },
        },
    };
    match pair {
        None => None,
        Some((secs, sub)) => match secs.checked_mul(1_000_000) {
            None => None,
            Some(m) => m.checked_add(sub as i64),
        },
    }
}

/// The calendar day an instant falls on when the clock there runs
/// `off` seconds ahead of UTC, counted in days since the epoch.
pub open spec fn spec_day_of(micros: int, off: int) -> int {
    (micros / 1_000_000 + off) / 86400
}

/// Relies on chrono's Local::offset_from_utc_datetime (through the
/// TimeZone trait) and FixedOffset::local_minus_utc: the machine's
/// offset from UTC at the given instant, in seconds, strictly between
/// -86400 and 86400 by FixedOffset's construction; nothing at an
/// instant DateTime::from_timestamp cannot represent.
#[verifier::external_body]
fn local_offset_secs(secs: i64) -> (r: Option<i32>)
    ensures
        r matches Some(off) ==> -86400 < off < 86400,
{
    match chrono::DateTime::<chrono::Utc>::from_timestamp(secs, 0) {
        Some(dt) => Some(
            chrono::TimeZone::offset_from_utc_datetime(&chrono::Local, &dt.naive_utc())
                .local_minus_utc(),
        ),
        None => None,
    }
}

/// The local calendar day of an instant, as days since the epoch. The
/// offset comes from the machine's time zone; an instant outside
/// chrono's range counts as UTC.
pub fn local_day(micros: i64) -> (d: i64)
    ensures
        exists|off: int|
            -86400 < off < 86400 && d == #[trigger] spec_day_of(micros as int, off),
        -106_800_000_000 < d < 106_800_000_000,
{
    proof {
        vstd::arithmetic::div_mod::lemma_div_is_ordered(i64::MIN as int, micros as int, 1_000_000);
        vstd::arithmetic::div_mod::lemma_div_is_ordered(micros as int, i64::MAX as int, 1_000_000);
        assert(i64::MIN as int / 1_000_000 == -9223372036855);
        assert(i64::MAX as int / 1_000_000 == 9223372036854);
    }
    let secs = match micros.checked_div_euclid(1_000_000) {
        Some(s) => s,
        None => 0,
    };
    let off = match local_offset_secs(secs) {
        Some(o) => o,
        None => 0,
    };
    let adj = secs + (off as i64);
    let d = match adj.checked_div_euclid(86400) {
        Some(q) => q,
        None => 0,
    };
    proof {
        vstd::arithmetic::div_mod::lemma_div_is_ordered(
            (i64::MIN as int / 1_000_000) - 86400,
            adj as int,
            86400,
        );
        vstd::arithmetic::div_mod::lemma_div_is_ordered(
            adj as int,
            (i64::MAX as int / 1_000_000) + 86400,
            86400,
        );
        assert(-86400 < (off as int) < 86400);
        assert(d == spec_day_of(micros as int, off as int));
    }
    d
}

/// Under one fixed offset, a later instant never falls on an earlier
/// local day. So a stream sorted newest-first has non-increasing days
/// whenever the zone's offset is the same at all its instants; only a
/// zone whose offset shifts between two instants, across a local
/// midnight, can break that order.
pub proof fn lemma_day_monotone(ts1: int, ts2: int, off: int)
    requires
        ts1 >= ts2,
    ensures
        spec_day_of(ts1, off) >= spec_day_of(ts2, off),
{
    vstd::arithmetic::div_mod::lemma_div_is_ordered(ts2, ts1, 1_000_000);
    vstd::arithmetic::div_mod::lemma_div_is_ordered(
        ts2 / 1_000_000 + off,
        ts1 / 1_000_000 + off,
        86400,
    );
}

/// The Gregorian year, month and day that a day count since the epoch
/// denotes, by era decomposition: four-century eras of 146097 days.
pub open spec fn spec_civil_of_day(day: int) -> (int, int, int) {
    let z = day + 719468;
    let era = z / 146097;
    let doe = z % 146097;
    let yoe = (doe - doe / 1460 + doe / 36524 - doe / 146096) / 365;
    let doy = doe - (365 * yoe + yoe / 4 - yoe / 100);
    let mp = (5 * doy + 2) / 153;
    let d = doy - (153 * mp + 2) / 5 + 1;
    let m = if mp < 10 {
        mp + 3
    } else {
        mp - 9
    };
    let y = yoe + era * 400 + if m <= 2 {
        1int
    } else {
        0int
    };
    (y, m, d)
}

/// The calendar date of a day count since the epoch.
pub fn civil_of_day(day: i64) -> (r: (i64, i64, i64))
    requires
        -106_800_000_000 < day < 106_800_000_000,
    ensures
        r.0 == spec_civil_of_day(day as int).0,
        r.1 == spec_civil_of_day(day as int).1,
        r.2 == spec_civil_of_day(day as int).2,
        -1_000_000_000_000 < r.0 < 1_000_000_000_000,
        0 <= r.1,
        0 <= r.2,
{
    let z = day + 719468;
    let era = match z.checked_div_euclid(146097) {
        Some(q) => q,
        None => 0,
    };
    let doe = match z.checked_rem_euclid(146097) {
        Some(q) => q,
        None => 0,
    };
    let du = doe as u64;
    let yoe = (du - du / 1460 + du / 36524 - du / 146096) / 365;
    proof {
        assert(yoe == ((doe - doe as int / 1460 + doe as int / 36524 - doe as int / 146096)
            / 365));
    }
    let doy = du - (365 * yoe + yoe / 4 - yoe / 100);
    let mp = (5 * doy + 2) / 153;
    let d = doy - (153 * mp + 2) / 5 + 1;
    let m: u64 = if mp < 10 {
        mp + 3
    } else {
        mp - 9
    };
    let y = yoe as i64 + era * 400 + if m <= 2 {
        1
    } else {
        0
    };
    (y, m as i64, d as i64)
}

} // verus!

