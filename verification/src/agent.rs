//! Agent-side logic: reconnect backoff, upgrade and public URL
//! construction, translation of request envelopes into upstream request
//! plans, response-envelope assembly, and token configuration parsing.
use vstd::prelude::*;
use vstd::string::StringExecFns;
use crate::codec::{compress_body, decompress_body, decoded_body_spec, deflate_of,
    COMPRESS_THRESHOLD};
use crate::headers::{eq_lower, filter_hdrs, filter_headers, hdr_views, is_hop_by_hop,
    is_hop_by_hop_spec};
use crate::protocol::{ProxyRequest, ProxyResponse};
use crate::text::{
    starts_with, str_starts_with, trim_spec, trim_str, trim_start_spec, index_of_from,
    index_of_seq_from, find_char_from, find_substr, char_is_space, is_space_char, lower,
    lemma_index_of_from_found, lemma_index_of_from_missing, lemma_index_of_seq_found,
    lemma_index_of_seq_missing, index_of_space_from, index_of_nonspace_from, find_space_from,
    find_nonspace_from, strip_quotes_spec,
};

verus! {

/// Reconnect backoff in seconds: doubling from one second, capped at
/// fifteen.
pub open spec fn backoff_spec(attempt: u32) -> u64 {
    if attempt == 0 {
        1
    } else if attempt == 1 {
        2
    } else if attempt == 2 {
        4
    } else if attempt == 3 {
        8
    } else {
        15
    }
}

/// Seconds to sleep before reconnect attempt number `attempt`.
pub fn backoff_secs(attempt: u32) -> (r: u64)
    ensures
        r == backoff_spec(attempt),
{
    if attempt == 0 {
        1
    } else if attempt == 1 {
        2
    } else if attempt == 2 {
        4
    } else if attempt == 3 {
        8
    } else {
        15
    }
}

/// The configured upgrade path with a leading slash enforced.
pub open spec fn normalized_path_spec(p: Seq<char>) -> Seq<char> {
    if p.len() > 0 && p[0] == '/' {
        p
    } else {
        "/"@ + p
    }
}

/// The upgrade URL: scheme, host, normalized path and the session id as
/// the `sid` query parameter.
pub open spec fn ws_url_spec(use_wss: bool, host: Seq<char>, path: Seq<char>, sid: Seq<
    char,
>) -> Seq<char> {
    (if use_wss {
        "wss://"@
    } else {
        "ws://"@
    }) + host + normalized_path_spec(path) + "?sid="@ + sid
}

/// Build the upgrade URL for one connection attempt.
pub fn build_ws_url(use_wss: bool, host: &str, path: &str, sid: &str) -> (r: String)
    ensures
        r@ == ws_url_spec(use_wss, host@, path@, sid@),
{
    let mut out = if use_wss {
        String::from_str("wss://")
    } else {
        String::from_str("ws://")
    };
    out.append(host);
    let plen = path.unicode_len();
    if !(plen > 0 && path.get_char(0) == '/') {
        out.append("/");
    }
    out.append(path);
    out.append("?sid=");
    out.append(sid);
    assert(out@ =~= ws_url_spec(use_wss, host@, path@, sid@));
    out
}

/// The public URL under which the tunnelled service is reachable.
pub open spec fn public_url_spec(use_wss: bool, host: Seq<char>, sid: Seq<char>) -> Seq<char> {
    (if use_wss {
        "https://"@
    } else {
        "http://"@
    }) + host + "/s/"@ + sid + "/"@
}

/// Build the public URL announced after a successful upgrade.
pub fn public_url(use_wss: bool, host: &str, sid: &str) -> (r: String)
    ensures
        r@ == public_url_spec(use_wss, host@, sid@),
{
    let mut out = if use_wss {
        String::from_str("https://")
    } else {
        String::from_str("http://")
    };
    out.append(host);
    out.append("/s/");
    out.append(sid);
    out.append("/");
    assert(out@ =~= public_url_spec(use_wss, host@, sid@));
    out
}

/// The host header value for the local target of `local_base`: always
/// `localhost` with the target's port, defaulting to 80.
pub open spec fn host_header_spec(local_base: Seq<char>) -> Seq<char> {
    let stripped = if starts_with(local_base, "http://"@) {
        local_base.subrange(7, local_base.len() as int)
    } else if starts_with(local_base, "https://"@) {
        local_base.subrange(8, local_base.len() as int)
    } else {
        local_base
    };
    let c1 = index_of_from(stripped, ':', 0);
    if c1 < 0 {
        "localhost:80"@
    } else {
        let c2 = index_of_from(stripped, ':', c1 + 1);
        let port = if c2 < 0 {
            stripped.subrange(c1 + 1, stripped.len() as int)
        } else {
            stripped.subrange(c1 + 1, c2)
        };
        "localhost:"@ + port
    }
}

/// Compute the rewritten host header for the configured local target.
pub fn host_header_for(local_base: &str) -> (r: String)
    ensures
        r@ == host_header_spec(local_base@),
{
    let blen = local_base.unicode_len();
    let stripped: &str = if str_starts_with(local_base, "http://") {
        proof {
            reveal_strlit("http://");
        }
        local_base.substring_char(7, blen)
    } else if str_starts_with(local_base, "https://") {
        proof {
            reveal_strlit("https://");
        }
        local_base.substring_char(8, blen)
    } else {
        local_base
    };
    let slen = stripped.unicode_len();
    match find_char_from(stripped, 0, ':') {
        None => {
            proof {
                lemma_index_of_from_missing(stripped@, ':', 0);
            }
            String::from_str("localhost:80")
        },
        Some(c1) => {
            proof {
                lemma_index_of_from_found(stripped@, ':', 0, c1 as int);
            }
            let stop = match find_char_from(stripped, c1 + 1, ':') {
                None => {
                    proof {
                        lemma_index_of_from_missing(stripped@, ':', c1 as int + 1);
                    }
                    slen
                },
                Some(c2) => {
                    proof {
                        lemma_index_of_from_found(stripped@, ':', c1 as int + 1, c2 as int);
                    }
                    c2
                },
            };
            let mut out = String::from_str("localhost:");
            out.append(stripped.substring_char(c1 + 1, stop));
            assert(out@ =~= host_header_spec(local_base@));
            out
        },
    }
}

/// The upstream URL for an envelope: the local base joined with the
/// envelope's path and query.
pub open spec fn upstream_url_spec(local_base: Seq<char>, uri: Seq<char>) -> Seq<char> {
    if uri.len() > 0 && uri[0] == '/' {
        local_base + uri
    } else {
        strip_trailing_slashes(local_base) + "/"@ + uri
    }
}

/// `s` without its trailing slashes.
pub open spec fn strip_trailing_slashes(s: Seq<char>) -> Seq<char>
    decreases s.len(),
{
    if s.len() > 0 && s[s.len() - 1] == '/' {
        strip_trailing_slashes(s.drop_last())
    } else {
        s
    }
}

proof fn lemma_strip_trailing_slashes_skip(s: Seq<char>, i: int)
    requires
        0 <= i <= s.len(),
        forall|j: int| i <= j < s.len() ==> s[j] == '/',
        i == 0 || s[i - 1] != '/',
    ensures
        strip_trailing_slashes(s) == s.subrange(0, i),
    decreases s.len() - i,
{
    if i < s.len() {
        assert(s[s.len() - 1] == '/');
        let t = s.drop_last();
        assert(t =~= s.subrange(0, s.len() - 1));
        lemma_strip_trailing_slashes_skip(t, i);
        assert(t.subrange(0, i) =~= s.subrange(0, i));
    } else {
        assert(s.subrange(0, s.len() as int) =~= s);
    }
}

/// The headers the agent forwards upstream: hop-by-hop entries dropped and
/// the host header rewritten to the local target.
pub open spec fn agent_headers_spec(
    h: Seq<(Seq<char>, Seq<char>)>,
    host_value: Seq<char>,
) -> Seq<(Seq<char>, Seq<char>)>
    decreases h.len(),
{
    if h.len() == 0 {
        h
    } else if is_hop_by_hop_spec(h.last().0) {
        agent_headers_spec(h.drop_last(), host_value)
    } else if lower(h.last().0) == "host"@ {
        agent_headers_spec(h.drop_last(), host_value).push(("host"@, host_value))
    } else {
        agent_headers_spec(h.drop_last(), host_value).push(h.last())
    }
}

/// A plan for one upstream request: where to send it, with which headers,
/// and with which body bytes.
pub struct UpstreamPlan {
    pub method: String,
    pub url: String,
    pub headers: Vec<(String, String)>,
    pub body: Vec<u8>,
}

/// Translate a request envelope into the local upstream request: join the
/// URL, filter and rewrite headers, and decode the body.
pub fn plan_upstream_request(local_base: &str, env: &ProxyRequest) -> (r: UpstreamPlan)
    ensures
        r.method@ == env.method@,
        r.url@ == upstream_url_spec(local_base@, env.uri@),
        hdr_views(r.headers@) == agent_headers_spec(
            hdr_views(env.headers@),
            host_header_spec(local_base@),
        ),
        r.body@ == decoded_body_spec(env.body_b64@, env.is_compressed),
{
    let ulen = env.uri.as_str().unicode_len();
    let url = if ulen > 0 && env.uri.as_str().get_char(0) == '/' {
        let mut u = local_base.to_owned();
        u.append(env.uri.as_str());
        u
    } else {
        let blen = local_base.unicode_len();
        let mut b: usize = blen;
        while b > 0 && local_base.get_char(b - 1) == '/'
            invariant
                blen == local_base@.len(),
                b <= blen,
                forall|j: int| b <= j < blen ==> local_base@[j] == '/',
            decreases b,
        {
            b = b - 1;
        }
        proof {
            lemma_strip_trailing_slashes_skip(local_base@, b as int);
        }
        let mut u = local_base.substring_char(0, b).to_owned();
        u.append("/");
        u.append(env.uri.as_str());
        assert(u@ =~= upstream_url_spec(local_base@, env.uri@));
        u
    };
    let host_value = host_header_for(local_base);
    let mut headers: Vec<(String, String)> = Vec::new();
    let n = env.headers.len();
    let mut i: usize = 0;
    while i < n
        invariant
            n == env.headers@.len(),
            i <= n,
            host_value@ == host_header_spec(local_base@),
            hdr_views(headers@) =~= agent_headers_spec(
                hdr_views(env.headers@).subrange(0, i as int),
                host_value@,
            ),
        decreases n - i,
    {
        proof {
            assert(hdr_views(env.headers@).subrange(0, i + 1).drop_last() =~= hdr_views(
                env.headers@,
            ).subrange(0, i as int));
        }
        if !is_hop_by_hop(env.headers[i].0.as_str()) {
            if eq_lower(env.headers[i].0.as_str(), "host") {
                let hv = host_value.clone();
                headers.push((String::from_str("host"), hv));
            } else {
                let k = env.headers[i].0.clone();
                let v = env.headers[i].1.clone();
                headers.push((k, v));
            }
        }
        assert(hdr_views(headers@) =~= agent_headers_spec(
            hdr_views(env.headers@).subrange(0, i + 1),
            host_value@,
        ));
        i = i + 1;
    }
    proof {
        assert(hdr_views(env.headers@).subrange(0, n as int) =~= hdr_views(env.headers@));
    }
    let body = decompress_body(env.body_b64.as_str(), env.is_compressed);
    let method = env.method.clone();
    UpstreamPlan { method, url, headers, body }
}

/// Assemble the response envelope for a completed upstream request: the
/// upstream status, filtered headers, and the encoded body.
pub fn make_response_envelope(
    id: u64,
    status: u16,
    headers: &Vec<(String, String)>,
    body: &[u8],
) -> (r: ProxyResponse)
    ensures
        r.id == id,
        r.status == status,
        hdr_views(r.headers@) == filter_hdrs(hdr_views(headers@)),
        decoded_body_spec(r.body_b64@, r.is_compressed) == body@,
        r.is_compressed <==> body@.len() >= COMPRESS_THRESHOLD && deflate_of(body@).len()
            < body@.len(),
{
    let filtered = filter_headers(headers);
    let (body_b64, is_compressed) = compress_body(body);
    ProxyResponse { id, status, headers: filtered, body_b64, is_compressed }
}

/// Assemble the plain-text bad-gateway envelope for a failed upstream
/// request.
pub fn error_envelope(id: u64, msg: &[u8]) -> (r: ProxyResponse)
    ensures
        r.id == id,
        r.status == 502,
        hdr_views(r.headers@) =~= seq![("content-type"@, "text/plain"@)],
        decoded_body_spec(r.body_b64@, r.is_compressed) == msg@,
{
    let mut headers: Vec<(String, String)> = Vec::new();
    headers.push((String::from_str("content-type"), String::from_str("text/plain")));
    let (body_b64, is_compressed) = compress_body(msg);
    ProxyResponse { id, status: 502, headers, body_b64, is_compressed }
}

/// A fetched token body is treated as JSON when the content type says so
/// or the body opens with a brace.
pub open spec fn token_body_is_json_spec(ctype: Seq<char>, body: Seq<char>) -> bool {
    index_of_seq_from(ctype, "application/json"@, 0) >= 0 || {
        let t = trim_start_spec(body);
        t.len() > 0 && t[0] == '{'
    }
}

/// Decide whether a fetched token body should be parsed as JSON.
pub fn token_body_is_json(ctype: &str, body: &str) -> (r: bool)
    ensures
        r == token_body_is_json_spec(ctype@, body@),
{
    let is_json_ctype = match find_substr(ctype, "application/json") {
        Some(i) => {
            proof {
                lemma_index_of_seq_found(ctype@, "application/json"@, i as int);
            }
            true
        },
        None => {
            proof {
                lemma_index_of_seq_missing(ctype@, "application/json"@);
            }
            false
        },
    };
    if is_json_ctype {
        return true;
    }
    let blen = body.unicode_len();
    let mut a: usize = 0;
    while a < blen && char_is_space(body.get_char(a))
        invariant
            blen == body@.len(),
            a <= blen,
            forall|j: int| 0 <= j < a ==> is_space_char(body@[j]),
        decreases blen - a,
    {
        a = a + 1;
    }
    proof {
        crate::text::lemma_trim_start_skip(body@, a as int);
    }
    if a < blen {
        assert(trim_start_spec(body@) =~= body@.subrange(a as int, blen as int));
        body.get_char(a) == '{'
    } else {
        assert(trim_start_spec(body@) =~= body@.subrange(a as int, blen as int));
        false
    }
}


/// The token taken from one configuration line: a trimmed, non-comment
/// line opening with `token` yields the value after the first `:` or `=`,
/// else the line's second whitespace-separated word, trimmed and with
/// surrounding double quotes removed.
pub open spec fn parse_line_spec(raw: Seq<char>) -> Option<Seq<char>> {
    let l = trim_spec(raw);
    if l.len() == 0 || l[0] == '#' || !starts_with(lower(l), "token"@) {
        None
    } else {
        let c = index_of_from(l, ':', 0);
        let e = index_of_from(l, '=', 0);
        if c >= 0 {
            Some(strip_quotes_spec(trim_spec(l.subrange(c + 1, l.len() as int))))
        } else if e >= 0 {
            Some(strip_quotes_spec(trim_spec(l.subrange(e + 1, l.len() as int))))
        } else {
            let sp = index_of_space_from(l, 0);
            if sp < 0 {
                None
            } else {
                let v = index_of_nonspace_from(l, sp);
                if v < 0 {
                    None
                } else {
                    let sp2 = index_of_space_from(l, v);
                    let stop = if sp2 < 0 {
                        l.len() as int
                    } else {
                        sp2
                    };
                    Some(strip_quotes_spec(trim_spec(l.subrange(v, stop))))
                }
            }
        }
    }
}

fn parse_line(raw: &str) -> (r: Option<String>)
    ensures
        match r {
            Some(v) => parse_line_spec(raw@) == Some(v@),
            None => parse_line_spec(raw@) is None,
        },
{
    let l = trim_str(raw);
    let ls = l.as_str();
    let llen = ls.unicode_len();
    if llen == 0 {
        return None;
    }
    if ls.get_char(0) == '#' {
        return None;
    }
    if !crate::text::str_starts_with_lower(ls, "token") {
        return None;
    }
    match find_char_from(ls, 0, ':') {
        Some(c) => {
            proof {
                lemma_index_of_from_found(ls@, ':', 0, c as int);
            }
            let v = trim_str(ls.substring_char(c + 1, llen));
            Some(crate::text::strip_quotes(v.as_str()))
        },
        None => {
            proof {
                lemma_index_of_from_missing(ls@, ':', 0);
            }
            match find_char_from(ls, 0, '=') {
                Some(e) => {
                    proof {
                        lemma_index_of_from_found(ls@, '=', 0, e as int);
                    }
                    let v = trim_str(ls.substring_char(e + 1, llen));
                    Some(crate::text::strip_quotes(v.as_str()))
                },
                None => {
                    proof {
                        lemma_index_of_from_missing(ls@, '=', 0);
                    }
                    match find_space_from(ls, 0) {
                        None => None,
                        Some(sp) => match find_nonspace_from(ls, sp) {
                            None => None,
                            Some(vpos) => {
                                let stop = match find_space_from(ls, vpos) {
                                    None => llen,
                                    Some(s2) => s2,
                                };
                                let v = trim_str(ls.substring_char(vpos, stop));
                                Some(crate::text::strip_quotes(v.as_str()))
                            },
                        },
                    }
                },
            }
        },
    }
}

/// The first token a configuration text yields, scanning line by line.
pub open spec fn parse_token_config_spec(s: Seq<char>) -> Option<Seq<char>>
    decreases s.len(),
{
    let nl = index_of_from(s, '\n', 0);
    let line = if 0 <= nl < s.len() {
        s.subrange(0, nl)
    } else {
        s
    };
    match parse_line_spec(line) {
        Some(v) => Some(v),
        None => if 0 <= nl < s.len() {
            parse_token_config_spec(s.subrange(nl + 1, s.len() as int))
        } else {
            None
        },
    }
}

/// Scan a configuration text for a token line.
pub fn parse_token_config(content: &str) -> (r: Option<String>)
    ensures
        match r {
            Some(v) => parse_token_config_spec(content@) == Some(v@),
            None => parse_token_config_spec(content@) is None,
        },
    decreases content@.len(),
{
    let clen = content.unicode_len();
    match find_char_from(content, 0, '\n') {
        Some(nl) => {
            proof {
                lemma_index_of_from_found(content@, '\n', 0, nl as int);
            }
            match parse_line(content.substring_char(0, nl)) {
                Some(v) => Some(v),
                None => parse_token_config(content.substring_char(nl + 1, clen)),
            }
        },
        None => {
            proof {
                lemma_index_of_from_missing(content@, '\n', 0);
            }
            parse_line(content)
        },
    }
}

} // verus!
