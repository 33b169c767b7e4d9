//! Location-header rewriting and upstream path construction: redirects
//! emitted by the tunnelled service are kept confined under the session's
//! `/s/{sid}/` prefix.
use vstd::prelude::*;
use vstd::string::StringExecFns;
use crate::text::{
    starts_with, lower, strip_slashes_spec, index_of_from, str_starts_with, str_starts_with_lower,
    find_char_from, lemma_index_of_from_found, lemma_index_of_from_missing,
};

verus! {

/// The path prefix that confines a session: `/s/{sid}/`.
pub open spec fn session_prefix(sid: Seq<char>) -> Seq<char> {
    "/s/"@ + sid + "/"@
}

pub fn make_session_prefix(sid: &str) -> (r: String)
    ensures
        r@ == session_prefix(sid@),
{
    let mut out = String::from_str("/s/");
    out.append(sid);
    out.append("/");
    assert(out@ =~= session_prefix(sid@));
    out
}

/// An absolute-path value rewritten to live under the session prefix; one
/// already under it is left alone.
pub open spec fn rewrite_abs_path(sid: Seq<char>, v: Seq<char>) -> Seq<char> {
    if starts_with(v, session_prefix(sid)) {
        v
    } else {
        session_prefix(sid) + strip_slashes_spec(v)
    }
}

/// The value begins with `http://` or `https://`, case-insensitively.
pub open spec fn has_scheme(v: Seq<char>) -> bool {
    starts_with(lower(v), "http://"@) || starts_with(lower(v), "https://"@)
}

/// Index in `v` just past the scheme-and-authority separator `://`.
pub open spec fn scheme_rel_start(v: Seq<char>) -> int {
    if starts_with(lower(v), "http://"@) {
        7
    } else {
        8
    }
}

/// The full Location-rewriting rule. Absolute paths are confined under the
/// session prefix; absolute `http(s)` URLs lose scheme and host first;
/// anything else passes through unchanged.
pub open spec fn rewrite_location_spec(sid: Seq<char>, v: Seq<char>) -> Seq<char> {
    if v.len() > 0 && v[0] == '/' {
        rewrite_abs_path(sid, v)
    } else if has_scheme(v) {
        let p = index_of_from(v, '/', scheme_rel_start(v));
        if p >= 0 {
            rewrite_abs_path(sid, v.subrange(p, v.len() as int))
        } else {
            v
        }
    } else {
        v
    }
}

fn rewrite_abs(sid: &str, v: &str) -> (r: String)
    ensures
        r@ == rewrite_abs_path(sid@, v@),
{
    let prefix = make_session_prefix(sid);
    if str_starts_with(v, prefix.as_str()) {
        v.to_owned()
    } else {
        let vlen = v.unicode_len();
        let mut k: usize = 0;
        while k < vlen && v.get_char(k) == '/'
            invariant
                vlen == v@.len(),
                k <= vlen,
                forall|j: int| 0 <= j < k ==> v@[j] == '/',
            decreases vlen - k,
        {
            k = k + 1;
        }
        proof {
            crate::text::lemma_strip_slashes_skip(v@, k as int);
        }
        let tail = v.substring_char(k, vlen);
        let mut out = prefix;
        out.append(tail);
        out
    }
}

/// Rewrite a response `location` value so redirects stay under `/s/{sid}/`.
pub fn rewrite_location(sid: &str, value: &str) -> (r: String)
    ensures
        r@ == rewrite_location_spec(sid@, value@),
{
    let vlen = value.unicode_len();
    if vlen > 0 && value.get_char(0) == '/' {
        return rewrite_abs(sid, value);
    }
    let http = str_starts_with_lower(value, "http://");
    let https = str_starts_with_lower(value, "https://");
    if http || https {
        proof {
            reveal_strlit("http://");
            reveal_strlit("https://");
            assert(lower(value@).len() == value@.len());
        }
        let from: usize = if http {
            7
        } else {
            8
        };
        assert(from <= vlen);
        match find_char_from(value, from, '/') {
            Some(p) => {
                proof {
                    lemma_index_of_from_found(value@, '/', from as int, p as int);
                }
                let tail = value.substring_char(p, vlen);
                rewrite_abs(sid, tail)
            },
            None => {
                proof {
                    lemma_index_of_from_missing(value@, '/', from as int);
                }
                value.to_owned()
            },
        }
    } else {
        value.to_owned()
    }
}

/// Rewriting is a fixed point on values already under `/s/{sid}/`.
pub proof fn lemma_rewrite_fixed_point(sid: Seq<char>, v: Seq<char>)
    requires
        starts_with(v, session_prefix(sid)),
    ensures
        rewrite_location_spec(sid, v) == v,
{
    reveal_strlit("/s/");
    reveal_strlit("/");
    let pre = session_prefix(sid);
    assert(pre.len() >= 4);
    assert(pre[0] == '/');
    assert(v.subrange(0, pre.len() as int)[0] == pre[0]);
    assert(v[0] == '/');
}

/// The upstream path handed to the agent: `/` plus the captured tail, with
/// the original query string appended when present.
pub open spec fn upstream_uri_spec(tail: Seq<char>, q: Option<Seq<char>>) -> Seq<char> {
    let base = "/"@ + strip_slashes_spec(tail);
    match q {
        None => base,
        Some(qs) => base + "?"@ + qs,
    }
}

/// Build the upstream path string for a proxied request.
pub fn build_upstream_uri(tail: &str, query: Option<&str>) -> (r: String)
    ensures
        r@ == upstream_uri_spec(
            tail@,
            match query {
                Some(q) => Some(q@),
                None => None,
            },
        ),
{
    let tlen = tail.unicode_len();
    let mut k: usize = 0;
    while k < tlen && tail.get_char(k) == '/'
        invariant
            tlen == tail@.len(),
            k <= tlen,
            forall|j: int| 0 <= j < k ==> tail@[j] == '/',
        decreases tlen - k,
    {
        k = k + 1;
    }
    proof {
        crate::text::lemma_strip_slashes_skip(tail@, k as int);
    }
    let mut out = String::from_str("/");
    out.append(tail.substring_char(k, tlen));
    match query {
        Some(q) => {
            out.append("?");
            out.append(q);
            assert(out@ =~= upstream_uri_spec(tail@, Some(q@)));
        },
        None => {
            assert(out@ =~= upstream_uri_spec(tail@, None));
        },
    }
    out
}

} // verus!
