//! Hop-by-hop header filtering, applied to both captured requests and
//! emitted responses.
use vstd::prelude::*;
use crate::text::{lower, lower_char, to_lower_char};

verus! {

/// `name`, lower-cased, is one of the hop-by-hop header names.
pub open spec fn is_hop_by_hop_spec(s: Seq<char>) -> bool {
    ||| lower(s) == "connection"@
    ||| lower(s) == "keep-alive"@
    ||| lower(s) == "proxy-authenticate"@
    ||| lower(s) == "proxy-authorization"@
    ||| lower(s) == "te"@
    ||| lower(s) == "trailers"@
    ||| lower(s) == "transfer-encoding"@
    ||| lower(s) == "upgrade"@
}

/// Case-folded comparison of `s` against an already-lower-case name `t`.
pub fn eq_lower(s: &str, t: &str) -> (r: bool)
    ensures
        r == (lower(s@) == t@),
{
    let slen = s.unicode_len();
    let tlen = t.unicode_len();
    if slen != tlen {
        assert(lower(s@).len() != t@.len());
        return false;
    }
    let mut i: usize = 0;
    while i < slen
        invariant
            slen == s@.len(),
            tlen == t@.len(),
            slen == tlen,
            i <= slen,
            forall|j: int| 0 <= j < i ==> lower_char(s@[j]) == t@[j],
        decreases slen - i,
    {
        if to_lower_char(s.get_char(i)) != t.get_char(i) {
            assert(lower(s@)[i as int] != t@[i as int]);
            return false;
        }
        i = i + 1;
    }
    assert(lower(s@) =~= t@);
    true
}

/// True for the headers that apply only to a single transport hop and are
/// stripped in both directions.
pub fn is_hop_by_hop(name: &str) -> (r: bool)
    ensures
        r == is_hop_by_hop_spec(name@),
{
    eq_lower(name, "connection") || eq_lower(name, "keep-alive") || eq_lower(
        name,
        "proxy-authenticate",
    ) || eq_lower(name, "proxy-authorization") || eq_lower(name, "te") || eq_lower(name, "trailers")
        || eq_lower(name, "transfer-encoding") || eq_lower(name, "upgrade")
}

/// Views of a header list: each pair of owned strings as a pair of
/// character sequences.
pub open spec fn hdr_views(h: Seq<(String, String)>) -> Seq<(Seq<char>, Seq<char>)> {
    h.map_values(|p: (String, String)| (p.0@, p.1@))
}

/// The header list with hop-by-hop entries removed, order preserved.
pub open spec fn filter_hdrs(h: Seq<(Seq<char>, Seq<char>)>) -> Seq<(Seq<char>, Seq<char>)>
    decreases h.len(),
{
    if h.len() == 0 {
        h
    } else if is_hop_by_hop_spec(h.last().0) {
        filter_hdrs(h.drop_last())
    } else {
        filter_hdrs(h.drop_last()).push(h.last())
    }
}

/// Strip hop-by-hop headers from a captured header list.
pub fn filter_headers(h: &Vec<(String, String)>) -> (r: Vec<(String, String)>)
    ensures
        hdr_views(r@) == filter_hdrs(hdr_views(h@)),
{
    let mut out: Vec<(String, String)> = Vec::new();
    let n = h.len();
    let mut i: usize = 0;
    while i < n
        invariant
            n == h@.len(),
            i <= n,
            hdr_views(out@) == filter_hdrs(hdr_views(h@).subrange(0, i as int)),
        decreases n - i,
    {
        proof {
            assert(hdr_views(h@).subrange(0, i + 1).drop_last() =~= hdr_views(h@).subrange(
                0,
                i as int,
            ));
        }
        if !is_hop_by_hop(h[i].0.as_str()) {
            let k = h[i].0.clone();
            let v = h[i].1.clone();
            out.push((k, v));
            assert(hdr_views(out@) =~= filter_hdrs(hdr_views(h@).subrange(0, i + 1)));
        } else {
            assert(hdr_views(out@) =~= filter_hdrs(hdr_views(h@).subrange(0, i + 1)));
        }
        i = i + 1;
    }
    proof {
        assert(hdr_views(h@).subrange(0, n as int) =~= hdr_views(h@));
    }
    out
}

/// No filtered header list retains a hop-by-hop entry.
pub proof fn lemma_filter_strips_all(h: Seq<(Seq<char>, Seq<char>)>)
    ensures
        forall|i: int|
            0 <= i < filter_hdrs(h).len() ==> !is_hop_by_hop_spec(
                #[trigger] filter_hdrs(h)[i].0,
            ),
    decreases h.len(),
{
    if h.len() > 0 {
        lemma_filter_strips_all(h.drop_last());
        let f = filter_hdrs(h.drop_last());
        assert forall|i: int| 0 <= i < filter_hdrs(h).len() implies !is_hop_by_hop_spec(
            filter_hdrs(h)[i].0,
        ) by {
            if is_hop_by_hop_spec(h.last().0) {
                assert(filter_hdrs(h)[i] == f[i]);
                assert(!is_hop_by_hop_spec(f[i].0));
            } else if i < f.len() {
                assert(filter_hdrs(h)[i] == f[i]);
                assert(!is_hop_by_hop_spec(f[i].0));
            } else {
                assert(filter_hdrs(h)[i] == h.last());
            }
        }
    }
}

/// Filtering a list that holds no hop-by-hop entry leaves it unchanged.
pub proof fn lemma_filter_clean_identity(h: Seq<(Seq<char>, Seq<char>)>)
    requires
        forall|i: int| 0 <= i < h.len() ==> !is_hop_by_hop_spec(#[trigger] h[i].0),
    ensures
        filter_hdrs(h) == h,
    decreases h.len(),
{
    if h.len() > 0 {
        assert(!is_hop_by_hop_spec(h.last().0));
        lemma_filter_clean_identity(h.drop_last());
        assert(filter_hdrs(h) =~= h);
    } else {
        assert(filter_hdrs(h) =~= h);
    }
}

/// The hop-by-hop filter is idempotent: filtering twice yields the same
/// headers as filtering once.
pub proof fn lemma_filter_idempotent(h: Seq<(Seq<char>, Seq<char>)>)
    ensures
        filter_hdrs(filter_hdrs(h)) == filter_hdrs(h),
{
    lemma_filter_strips_all(h);
    lemma_filter_clean_identity(filter_hdrs(h));
}

} // verus!
