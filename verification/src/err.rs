//! Request-level errors and the error body shown to the client.
//!
//! Every failure surfaces at the request boundary as one plain-text
//! body: the message, then each wrapped cause, innermost last.

use vstd::prelude::*;
use crate::chars::{chars_of, string_of};
use crate::html::clamp_step;
use crate::html::spec_upto_char;
use crate::html::upto_char_from;
use crate::url::copy_range;

verus! {

/// Why a request was rejected before or during aggregation.
#[derive(Debug)]
pub enum GetError {
    /// The query string named no feed URLs.
    NoUrls,
    /// One feed could not be fetched or validated; the cause text
    /// comes from the failing step.
    FailedToFetch { url: String, cause: String },
}

/// What `GetError::message` returns.
pub open spec fn spec_get_error_message(e: GetError) -> Seq<char> {
    match e {
        GetError::NoUrls => "no URLs provided in query string"@,
        GetError::FailedToFetch { url, cause } => "failed to fetch "@ + url@,
    }
}

impl GetError {
    /// The human-readable message for this error.
    pub fn message(&self) -> (r: String)
        ensures
            r@ == spec_get_error_message(*self),
    {
        match self {
            GetError::NoUrls => {
                let mut s = String::new();
                s.append("no URLs provided in query string");
                proof {
                    assert(Seq::<char>::empty() + "no URLs provided in query string"@
                        =~= "no URLs provided in query string"@);
                }
                s
            },
            GetError::FailedToFetch { url, cause } => {
                let mut s = String::new();
                s.append("failed to fetch ");
                s.append(url.as_str());
                proof {
                    assert((Seq::<char>::empty() + "failed to fetch "@) + url@
                        =~= "failed to fetch "@ + url@);
                }
                s
            },
        }
    }
}

/// An error carried to the response boundary: a message and the
/// texts of its wrapped causes, outermost first.
pub struct ResponseError {
    pub message: String,
    pub causes: Vec<String>,
}

/// The cause chain rendered as ` -> a -> b`, innermost last.
pub open spec fn spec_causes_text(cs: Seq<Seq<char>>) -> Seq<char>
    decreases cs.len(),
{
    if cs.len() == 0 {
        Seq::empty()
    } else {
        " -> "@ + cs[0] + spec_causes_text(cs.drop_first())
    }
}

/// What `body_text` returns: `Error: ` and the message, then the
/// cause chain.
pub open spec fn spec_body_text(message: Seq<char>, causes: Seq<Seq<char>>) -> Seq<char> {
    "Error: "@ + message + spec_causes_text(causes)
}

/// The views of the cause texts.
pub open spec fn causes_view(cs: Seq<String>) -> Seq<Seq<char>> {
    cs.map_values(|c: String| c@)
}

impl ResponseError {
    /// An error with no causes yet.
    pub fn new(message: String) -> (r: ResponseError)
        ensures
            r.message@ == message@,
            r.causes@.len() == 0,
    {
        ResponseError { message, causes: Vec::new() }
    }

    /// Appends one wrapped cause, innermost last.
    pub fn push_cause(&mut self, cause: String)
        ensures
            final(self).message == old(self).message,
            final(self).causes@ == old(self).causes@.push(cause),
    {
        self.causes.push(cause);
    }

    /// The plain-text body for the error response.
    pub fn body_text(&self) -> (r: String)
        ensures
            r@ == spec_body_text(self.message@, causes_view(self.causes@)),
    {
        let ghost cs = causes_view(self.causes@);
        let mut s = String::new();
        s.append("Error: ");
        s.append(self.message.as_str());
        proof {
            assert((Seq::<char>::empty() + "Error: "@) + self.message@ =~= "Error: "@
                + self.message@);
        }
        let mut i: usize = 0;
        proof {
            assert(cs.skip(0) =~= cs);
        }
        while i < self.causes.len()
            invariant
                i <= self.causes@.len(),
                cs == causes_view(self.causes@),
                spec_body_text(self.message@, cs) == s@ + spec_causes_text(cs.skip(i as int)),
            decreases self.causes@.len() - i,
        {
            let ghost before = s@;
            s.append(" -> ");
            s.append(self.causes[i].as_str());
            proof {
                assert(cs.skip(i as int)[0] == self.causes@[i as int]@);
                assert(cs.skip(i as int).drop_first() =~= cs.skip(i + 1));
                assert((before + " -> "@) + self.causes@[i as int]@ =~= before + (" -> "@
                    + self.causes@[i as int]@));
                assert(before + (" -> "@ + cs.skip(i as int)[0]) + spec_causes_text(
                    cs.skip(i + 1),
                ) =~= before + ((" -> "@ + cs.skip(i as int)[0]) + spec_causes_text(
                    cs.skip(i + 1),
                )));
            }
            i = i + 1;
        }
        proof {
            assert(cs.skip(cs.len() as int) =~= Seq::<Seq<char>>::empty());
            assert(s@ + Seq::<char>::empty() =~= s@);
        }
        s
    }
}

/// The query string split on `&`: each segment is read as one feed
/// URL. An empty query yields one empty segment, rejected later as a
/// malformed URL.
pub open spec fn spec_split_amp(s: Seq<char>) -> Seq<Seq<char>>
    decreases s.len(),
{
    let e = spec_upto_char(s, '&', 0);
    if e >= s.len() {
        seq![s]
    } else {
        seq![s.take(e)] + spec_split_amp(
            s.subrange(clamp_step(e + 1, s.len() as int), s.len() as int),
        )
    }
}

/// The feed URLs named by a request: the query string split on `&`.
/// A missing query is rejected.
pub fn parse_query(params: Option<String>) -> (r: Result<Vec<String>, GetError>)
    ensures
        params is None ==> (r matches Err(e) && e is NoUrls),
        params matches Some(q) ==> (r matches Ok(urls) && causes_view(urls@) == spec_split_amp(
            q@,
        )),
{
    let q = match params {
        None => {
            return Err(GetError::NoUrls);
        },
        Some(q) => q,
    };
    let v = chars_of(q.as_str());
    let mut out: Vec<String> = Vec::new();
    let mut pos: usize = 0;
    proof {
        assert(crate::html::suffix(v@, 0) =~= v@);
        assert(causes_view(out@) =~= Seq::<Seq<char>>::empty());
    }
    loop
        invariant_except_break
            pos <= v@.len(),
            spec_split_amp(v@) == causes_view(out@) + spec_split_amp(
                crate::html::suffix(v@, pos as int),
            ),
        ensures
            causes_view(out@) == spec_split_amp(v@),
        decreases v@.len() - pos,
    {
        let ghost x = crate::html::suffix(v@, pos as int);
        let ghost before = causes_view(out@);
        let n = v.len();
        let e = upto_char_from(&v, pos, '&', 0);
        if pos + e >= n {
            let seg = copy_range(&v, pos, n);
            proof {
                assert(seg@ =~= x);
            }
            let segs = string_of(&seg);
            out.push(segs);
            proof {
                assert(causes_view(out@) =~= before.push(x));
                assert(spec_split_amp(x) =~= seq![x]);
                assert(before + seq![x] =~= before.push(x));
            }
            break;
        }
        let seg = copy_range(&v, pos, pos + e);
        proof {
            assert(seg@ =~= x.take(e as int));
            assert(x.subrange(clamp_step(e + 1, x.len() as int), x.len() as int)
                =~= crate::html::suffix(v@, (pos + e + 1) as int));
        }
        let segs = string_of(&seg);
        out.push(segs);
        proof {
            assert(causes_view(out@) =~= before.push(x.take(e as int)));
            assert(before + (seq![x.take(e as int)] + spec_split_amp(
                crate::html::suffix(v@, (pos + e + 1) as int),
            )) =~= before.push(x.take(e as int)) + spec_split_amp(
                crate::html::suffix(v@, (pos + e + 1) as int),
            ));
        }
        pos = pos + e + 1;
    }
    Ok(out)
}

} // verus!
