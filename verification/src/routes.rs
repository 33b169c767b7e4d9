//! Small ingress helpers: client-address extraction, session-id recovery
//! from referer or cookie, the asset-redirect target, and HTML escaping for
//! the session log page.
use vstd::prelude::*;
use vstd::string::StringExecFns;
use crate::protocol::AccessLogEntry;
use crate::text::{
    trim_spec, trim_str, index_of_from, index_of_seq_from, find_char_from, find_substr,
    starts_with, str_starts_with, matches_at, lemma_index_of_from_found,
    lemma_index_of_from_missing, lemma_index_of_seq_found, lemma_index_of_seq_missing, dec_of,
    u64_to_dec, u128_to_dec,
};

verus! {

/// The address a request is attributed to: the first entry of the
/// forwarding header when one is present, trimmed, else the transport peer.
pub open spec fn client_address_spec(forwarded: Option<Seq<char>>, peer: Seq<char>) -> Seq<char> {
    match forwarded {
        None => peer,
        Some(f) => {
            let i = index_of_from(f, ',', 0);
            if i >= 0 {
                trim_spec(f.subrange(0, i))
            } else {
                trim_spec(f)
            }
        },
    }
}

/// Extract the effective client address from an optional forwarding-header
/// value and the transport peer address.
pub fn extract_real_ip(forwarded: Option<&str>, peer: &str) -> (r: String)
    ensures
        r@ == client_address_spec(
            match forwarded {
                Some(f) => Some(f@),
                None => None,
            },
            peer@,
        ),
{
    match forwarded {
        None => peer.to_owned(),
        Some(f) => {
            match find_char_from(f, 0, ',') {
                Some(i) => {
                    proof {
                        lemma_index_of_from_found(f@, ',', 0, i as int);
                    }
                    trim_str(f.substring_char(0, i))
                },
                None => {
                    proof {
                        lemma_index_of_from_missing(f@, ',', 0);
                    }
                    trim_str(f)
                },
            }
        },
    }
}

/// The session id taken from a referer URL: the segment after the first
/// `/s/`, up to the next slash, when it is non-empty.
pub open spec fn sid_from_referer_spec(r: Seq<char>) -> Option<Seq<char>> {
    let i = index_of_seq_from(r, "/s/"@, 0);
    if i < 0 {
        None
    } else {
        let start = i + 3;
        let e = index_of_from(r, '/', start);
        let stop = if e >= 0 {
            e as int
        } else {
            r.len() as int
        };
        if stop == start {
            None
        } else {
            Some(r.subrange(start, stop))
        }
    }
}

/// Recover a session id from a referer URL, if it carries one.
pub fn sid_from_referer(referer: &str) -> (r: Option<String>)
    ensures
        match r {
            Some(s) => sid_from_referer_spec(referer@) == Some(s@),
            None => sid_from_referer_spec(referer@) is None,
        },
{
    let rlen = referer.unicode_len();
    match find_substr(referer, "/s/") {
        None => {
            proof {
                lemma_index_of_seq_missing(referer@, "/s/"@);
            }
            None
        },
        Some(i) => {
            proof {
                lemma_index_of_seq_found(referer@, "/s/"@, i as int);
                reveal_strlit("/s/");
            }
            let start = i + 3;
            assert(start <= rlen);
            let stop = match find_char_from(referer, start, '/') {
                Some(e) => {
                    proof {
                        lemma_index_of_from_found(referer@, '/', start as int, e as int);
                    }
                    e
                },
                None => {
                    proof {
                        lemma_index_of_from_missing(referer@, '/', start as int);
                    }
                    rlen
                },
            };
            if stop == start {
                None
            } else {
                Some(referer.substring_char(start, stop).to_owned())
            }
        },
    }
}

/// Lookup of `name` in a `;`-separated cookie header: each part is trimmed
/// and the value follows the first `name=` prefix found.
pub open spec fn cookie_value_spec(raw: Seq<char>, name: Seq<char>) -> Option<Seq<char>>
    decreases raw.len(),
{
    let semi = index_of_from(raw, ';', 0);
    let part = if semi >= 0 {
        raw.subrange(0, semi)
    } else {
        raw
    };
    let t = trim_spec(part);
    if starts_with(t, name + "="@) {
        Some(t.subrange(name.len() as int + 1, t.len() as int))
    } else if 0 <= semi < raw.len() {
        cookie_value_spec(raw.subrange(semi + 1, raw.len() as int), name)
    } else {
        None
    }
}

/// Find a cookie's value in a raw `cookie` header.
pub fn cookie_value(raw: &str, name: &str) -> (r: Option<String>)
    ensures
        match r {
            Some(v) => cookie_value_spec(raw@, name@) == Some(v@),
            None => cookie_value_spec(raw@, name@) is None,
        },
    decreases raw@.len(),
{
    let rlen = raw.unicode_len();
    let mut prefix = name.to_owned();
    prefix.append("=");
    let (part, rest): (String, Option<&str>) = match find_char_from(raw, 0, ';') {
        Some(semi) => {
            proof {
                lemma_index_of_from_found(raw@, ';', 0, semi as int);
            }
            (
                trim_str(raw.substring_char(0, semi)),
                Some(raw.substring_char(semi + 1, rlen)),
            )
        },
        None => {
            proof {
                lemma_index_of_from_missing(raw@, ';', 0);
            }
            (trim_str(raw), None)
        },
    };
    if str_starts_with(part.as_str(), prefix.as_str()) {
        let plen = part.as_str().unicode_len();
        let nlen = prefix.as_str().unicode_len();
        let value = part.as_str().substring_char(nlen, plen).to_owned();
        proof {
            reveal_strlit("=");
        }
        Some(value)
    } else {
        proof {
            reveal_strlit("=");
        }
        match rest {
            Some(tail) => cookie_value(tail, name),
            None => None,
        }
    }
}

/// The redirect target for a stray asset request: the asset path confined
/// under the session recovered from the referer, else from the cookie.
pub open spec fn next_asset_spec(
    referer: Option<Seq<char>>,
    cookie: Option<Seq<char>>,
    path: Seq<char>,
    q: Option<Seq<char>>,
) -> Option<Seq<char>> {
    let sid = match referer {
        Some(r) => sid_from_referer_spec(r),
        None => None,
    };
    let sid2 = match sid {
        Some(s) => Some(s),
        None => match cookie {
            Some(c) => cookie_value_spec(c, "tunly_sid"@),
            None => None,
        },
    };
    match sid2 {
        None => None,
        Some(s) => Some(
            "/s/"@ + s + "/_next/"@ + path + (match q {
                Some(qs) => "?"@ + qs,
                None => Seq::<char>::empty(),
            }),
        ),
    }
}

/// Compute the `/_next/*` redirect location from the request context, or
/// `None` when no session can be inferred.
pub fn next_asset_redirect(
    referer: Option<&str>,
    cookie: Option<&str>,
    path: &str,
    query: Option<&str>,
) -> (r: Option<String>)
    ensures
        ({
            let spec_r = next_asset_spec(
                match referer {
                    Some(x) => Some(x@),
                    None => None,
                },
                match cookie {
                    Some(x) => Some(x@),
                    None => None,
                },
                path@,
                match query {
                    Some(x) => Some(x@),
                    None => None,
                },
            );
            match r {
                Some(v) => spec_r == Some(v@),
                None => spec_r is None,
            }
        }),
{
    let sid: Option<String> = match referer {
        Some(rf) => sid_from_referer(rf),
        None => None,
    };
    let sid2: Option<String> = match sid {
        Some(s) => Some(s),
        None => match cookie {
            Some(c) => cookie_value(c, "tunly_sid"),
            None => None,
        },
    };
    match sid2 {
        None => None,
        Some(s) => {
            let mut out = String::from_str("/s/");
            out.append(s.as_str());
            out.append("/_next/");
            out.append(path);
            match query {
                Some(qs) => {
                    out.append("?");
                    out.append(qs);
                },
                None => {},
            }
            assert(out@ =~= next_asset_spec(
                match referer {
                    Some(x) => Some(x@),
                    None => None,
                },
                match cookie {
                    Some(x) => Some(x@),
                    None => None,
                },
                path@,
                match query {
                    Some(x) => Some(x@),
                    None => None,
                },
            )->0);
            Some(out)
        },
    }
}

/// HTML escaping of one character for the session log page.
pub open spec fn escape_char(c: char) -> Seq<char> {
    if c == '&' {
        "&amp;"@
    } else if c == '<' {
        "&lt;"@
    } else if c == '>' {
        "&gt;"@
    } else {
        seq![c]
    }
}

/// HTML escaping of a whole string.
pub open spec fn escape_html_spec(s: Seq<char>) -> Seq<char>
    decreases s.len(),
{
    if s.len() == 0 {
        Seq::<char>::empty()
    } else {
        escape_html_spec(s.drop_last()) + escape_char(s.last())
    }
}

/// Escape `&`, `<` and `>` for embedding untrusted text in HTML.
pub fn escape_html(s: &str) -> (r: String)
    ensures
        r@ == escape_html_spec(s@),
{
    let slen = s.unicode_len();
    let mut out = String::new();
    let mut i: usize = 0;
    while i < slen
        invariant
            slen == s@.len(),
            i <= slen,
            out@ == escape_html_spec(s@.subrange(0, i as int)),
        decreases slen - i,
    {
        proof {
            assert(s@.subrange(0, i + 1).drop_last() =~= s@.subrange(0, i as int));
        }
        let c = s.get_char(i);
        if c == '&' {
            out.append("&amp;");
        } else if c == '<' {
            out.append("&lt;");
        } else if c == '>' {
            out.append("&gt;");
        } else {
            out.append(s.substring_char(i, i + 1));
            assert(s@.subrange(i as int, i + 1) =~= seq![s@[i as int]]);
        }
        assert(out@ =~= escape_html_spec(s@.subrange(0, i + 1)));
        i = i + 1;
    }
    proof {
        assert(s@.subrange(0, slen as int) =~= s@);
    }
    out
}


/// One row of the session log page, newest rows first.
pub open spec fn log_row_spec(method: Seq<char>, uri: Seq<char>, status: u16, dur_ms: u128) -> Seq<
    char,
> {
    "<tr><td>"@ + escape_html_spec(method) + "</td><td><code>"@ + escape_html_spec(uri)
        + "</code></td><td>"@ + dec_of(status as nat) + "</td><td>"@ + dec_of(dur_ms as nat)
        + " ms</td></tr>"@
}

/// The table body of the session log page: entries rendered newest first.
pub open spec fn log_rows_spec(entries: Seq<AccessLogEntry>) -> Seq<char>
    decreases entries.len(),
{
    if entries.len() == 0 {
        Seq::<char>::empty()
    } else {
        log_row_spec(
            entries.last().method@,
            entries.last().uri@,
            entries.last().status,
            entries.last().dur_ms,
        ) + log_rows_spec(entries.drop_last())
    }
}

/// The whole session log page.
pub open spec fn session_log_page_spec(sid: Seq<char>, entries: Seq<AccessLogEntry>) -> Seq<
    char,
> {
    "<!doctype html><meta charset=\"utf-8\"><title>Tunly Session Log</title><style>body{font-family:system-ui,-apple-system,Segoe UI,Roboto,Ubuntu,\"Helvetica Neue\",Arial,sans-serif;padding:20px}table{border-collapse:collapse;width:100%}th,td{border:1px solid #ddd;padding:8px}th{background:#f7f7f7;text-align:left}code{background:#f3f3f3;padding:2px 4px;border-radius:3px}</style>"@
        + "<h1>Session <code>"@ + sid + "</code></h1>"@ + "<p>Quick links: <a href=\"/s/"@ + sid
        + "/\">/</a> &middot; <a href=\"/s/"@ + sid + "/api\">/api</a> &middot; <a href=\"/s/"@
        + sid + "/blog\">/blog</a></p>"@
        + "<table><thead><tr><th>Method</th><th>URI</th><th>Status</th><th>Duration</th></tr></thead><tbody>"@
        + log_rows_spec(entries) + "</tbody></table>"@
}

/// Render the HTML session log page: the session's quick links and its
/// access-log entries, newest first, with method and URI escaped.
#[verifier::rlimit(100)]
pub fn render_session_log(sid: &str, entries: &Vec<AccessLogEntry>) -> (r: String)
    ensures
        r@ == session_log_page_spec(sid@, entries@),
{
    let mut html = String::from_str(
        "<!doctype html><meta charset=\"utf-8\"><title>Tunly Session Log</title><style>body{font-family:system-ui,-apple-system,Segoe UI,Roboto,Ubuntu,\"Helvetica Neue\",Arial,sans-serif;padding:20px}table{border-collapse:collapse;width:100%}th,td{border:1px solid #ddd;padding:8px}th{background:#f7f7f7;text-align:left}code{background:#f3f3f3;padding:2px 4px;border-radius:3px}</style>",
    );
    html.append("<h1>Session <code>");
    html.append(sid);
    html.append("</code></h1>");
    html.append("<p>Quick links: <a href=\"/s/");
    html.append(sid);
    html.append("/\">/</a> &middot; <a href=\"/s/");
    html.append(sid);
    html.append("/api\">/api</a> &middot; <a href=\"/s/");
    html.append(sid);
    html.append("/blog\">/blog</a></p>");
    html.append(
        "<table><thead><tr><th>Method</th><th>URI</th><th>Status</th><th>Duration</th></tr></thead><tbody>",
    );
    let n = entries.len();
    let mut i: usize = n;
    let ghost head = html@;
    proof {
        assert(entries@.subrange(n as int, n as int) =~= Seq::<AccessLogEntry>::empty());
    }
    while i > 0
        invariant
            n == entries@.len(),
            i <= n,
            html@ == head + log_rows_spec(entries@.subrange(i as int, n as int)),
        decreases i,
    {
        i = i - 1;
        let e = &entries[i];
        html.append("<tr><td>");
        html.append(escape_html(e.method.as_str()).as_str());
        html.append("</td><td><code>");
        html.append(escape_html(e.uri.as_str()).as_str());
        html.append("</code></td><td>");
        html.append(u64_to_dec(e.status as u64).as_str());
        html.append("</td><td>");
        html.append(u128_to_dec(e.dur_ms).as_str());
        html.append(" ms</td></tr>");
        proof {
            let tl = entries@.subrange(i as int, n as int);
            lemma_log_rows_front(tl);
            assert(tl.drop_first() =~= entries@.subrange(i + 1, n as int));
            assert(tl[0] == entries@[i as int]);
            assert(html@ =~= head + log_rows_spec(tl));
        }
    }
    proof {
        assert(entries@.subrange(0, n as int) =~= entries@);
    }
    html.append("</tbody></table>");
    assert(html@ =~= session_log_page_spec(sid@, entries@));
    html
}

/// The table body grows at its end as older entries are appended.
proof fn lemma_log_rows_front(s: Seq<AccessLogEntry>)
    requires
        s.len() > 0,
    ensures
        log_rows_spec(s) == log_rows_spec(s.drop_first()) + log_row_spec(
            s[0].method@,
            s[0].uri@,
            s[0].status,
            s[0].dur_ms,
        ),
    decreases s.len(),
{
    let row0 = log_row_spec(s[0].method@, s[0].uri@, s[0].status, s[0].dur_ms);
    if s.len() == 1 {
        assert(s.drop_last() =~= Seq::<AccessLogEntry>::empty());
        assert(s.drop_first() =~= Seq::<AccessLogEntry>::empty());
        assert(s.last() == s[0]);
        assert(log_rows_spec(s) =~= log_rows_spec(s.drop_first()) + row0);
    } else {
        let t = s.drop_last();
        lemma_log_rows_front(t);
        assert(t[0] == s[0]);
        assert(t.drop_first() =~= s.drop_first().drop_last());
        assert(s.drop_first().last() == s.last());
        assert(log_rows_spec(s.drop_first()) == log_row_spec(
            s.last().method@,
            s.last().uri@,
            s.last().status,
            s.last().dur_ms,
        ) + log_rows_spec(s.drop_first().drop_last()));
        assert(log_rows_spec(s) =~= log_rows_spec(s.drop_first()) + row0);
    }
}

} // verus!
