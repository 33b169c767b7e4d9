//! Compact signed bearer tokens: a JSON claims object, base64url segments,
//! and an HMAC-SHA256 signature over the signing input. Only the MAC
//! primitive and the base64url engine are trusted; the claims serialization
//! and parsing are verified here.
use vstd::prelude::*;
use vstd::string::StringExecFns;
use crate::text::{
    matches_at, str_matches_at, index_of_from, find_char_from, all_digits, dec_val, dec_of,
    digit_char, digit_val, parse_u64, u64_to_dec, str_eq, lemma_index_of_from_found,
    lemma_index_of_from_missing,
};

verus! {

/// The claims carried by an issued credential: the bound session id, the
/// bound client address, the expiry in unix seconds, and the single-use
/// credential id.
#[derive(Clone)]
pub struct Claims {
    pub sub: String,
    pub ip: String,
    pub exp: usize,
    pub jti: String,
}

/// JSON escaping of one character: only quote and backslash are escaped.
pub open spec fn esc_char(c: char) -> Seq<char> {
    if c == '"' || c == '\\' {
        seq!['\\', c]
    } else {
        seq![c]
    }
}

/// JSON escaping of a whole string value.
pub open spec fn esc(s: Seq<char>) -> Seq<char>
    decreases s.len(),
{
    if s.len() == 0 {
        Seq::<char>::empty()
    } else {
        esc_char(s[0]) + esc(s.drop_first())
    }
}

proof fn lemma_esc_snoc(s: Seq<char>, c: char)
    ensures
        esc(s.push(c)) == esc(s) + esc_char(c),
    decreases s.len(),
{
    if s.len() == 0 {
        assert(s.push(c)[0] == c);
        assert(s.push(c).drop_first() =~= Seq::<char>::empty());
        assert(esc(s.push(c)) == esc_char(c) + esc(Seq::<char>::empty()));
        assert(esc(Seq::<char>::empty()) =~= Seq::<char>::empty());
        assert(esc(s) =~= Seq::<char>::empty());
        assert(esc(s.push(c)) =~= esc(s) + esc_char(c));
    } else {
        assert(s.push(c)[0] == s[0]);
        assert(s.push(c).drop_first() =~= s.drop_first().push(c));
        lemma_esc_snoc(s.drop_first(), c);
        assert(esc(s.push(c)) =~= esc(s) + esc_char(c));
    }
}

/// Escape a string value for embedding in a JSON object.
fn escape_json(s: &str) -> (r: String)
    ensures
        r@ == esc(s@),
{
    let slen = s.unicode_len();
    let mut out = String::new();
    let mut i: usize = 0;
    while i < slen
        invariant
            slen == s@.len(),
            i <= slen,
            out@ == esc(s@.subrange(0, i as int)),
        decreases slen - i,
    {
        proof {
            assert(s@.subrange(0, i + 1) =~= s@.subrange(0, i as int).push(s@[i as int]));
            lemma_esc_snoc(s@.subrange(0, i as int), s@[i as int]);
        }
        let c = s.get_char(i);
        if c == '"' {
            out.append("\\\"");
            proof {
                reveal_strlit("\\\"");
                assert(("\\\"")@ =~= esc_char('"'));
            }
        } else if c == '\\' {
            out.append("\\\\");
            proof {
                reveal_strlit("\\\\");
                assert(("\\\\")@ =~= esc_char('\\'));
            }
        } else {
            out.append(s.substring_char(i, i + 1));
            assert(s@.subrange(i as int, i + 1) =~= esc_char(s@[i as int]));
        }
        assert(out@ =~= esc(s@.subrange(0, i + 1)));
        i = i + 1;
    }
    proof {
        assert(s@.subrange(0, slen as int) =~= s@);
    }
    out
}

/// The serialized claims object.
pub open spec fn claims_json(sub: Seq<char>, ip: Seq<char>, exp: nat, jti: Seq<char>) -> Seq<
    char,
> {
    "{\"sub\":\""@ + esc(sub) + "\",\"ip\":\""@ + esc(ip) + "\",\"exp\":"@ + dec_of(exp)
        + ",\"jti\":\""@ + esc(jti) + "\"}"@
}

/// Serialize a claims object to its JSON text.
pub fn write_claims(c: &Claims) -> (r: String)
    ensures
        r@ == claims_json(c.sub@, c.ip@, c.exp as nat, c.jti@),
{
    let mut out = String::from_str("{\"sub\":\"");
    out.append(escape_json(c.sub.as_str()).as_str());
    out.append("\",\"ip\":\"");
    out.append(escape_json(c.ip.as_str()).as_str());
    out.append("\",\"exp\":");
    out.append(u64_to_dec(c.exp as u64).as_str());
    out.append(",\"jti\":\"");
    out.append(escape_json(c.jti.as_str()).as_str());
    out.append("\"}");
    assert(out@ =~= claims_json(c.sub@, c.ip@, c.exp as nat, c.jti@));
    out
}

/// Scan a JSON string value starting at `i`: unescape until the closing
/// quote, yielding the value and the index just past the quote. Fails on a
/// missing quote or an escape other than `\"` and `\\`.
pub open spec fn unesc_scan(s: Seq<char>, i: int) -> Option<(Seq<char>, int)>
    decreases s.len() - i,
{
    if i < 0 || i >= s.len() {
        None
    } else if s[i] == '"' {
        Some((Seq::<char>::empty(), i + 1))
    } else if s[i] == '\\' {
        if i + 1 < s.len() && (s[i + 1] == '"' || s[i + 1] == '\\') {
            match unesc_scan(s, i + 2) {
                None => None,
                Some((v, n)) => Some((seq![s[i + 1]] + v, n)),
            }
        } else {
            None
        }
    } else {
        match unesc_scan(s, i + 1) {
            None => None,
            Some((v, n)) => Some((seq![s[i]] + v, n)),
        }
    }
}

/// Scan a JSON string value in `s` from `start`.
fn scan_string(s: &str, start: usize) -> (r: Option<(String, usize)>)
    requires
        start <= s@.len(),
    ensures
        match r {
            Some(p) => unesc_scan(s@, start as int) == Some((p.0@, p.1 as int)) && start < p.1
                <= s@.len(),
            None => unesc_scan(s@, start as int) is None,
        },
    decreases s@.len() - start,
{
    let slen = s.unicode_len();
    if start >= slen {
        return None;
    }
    let c = s.get_char(start);
    if c == '"' {
        Some((String::new(), start + 1))
    } else if c == '\\' {
        if start + 1 < slen {
            let c2 = s.get_char(start + 1);
            if c2 == '"' || c2 == '\\' {
                match scan_string(s, start + 2) {
                    None => None,
                    Some((v, n)) => {
                        let mut out = s.substring_char(start + 1, start + 2).to_owned();
                        out.append(v.as_str());
                        assert(s@.subrange(start + 1, start + 2) =~= seq![s@[start + 1]]);
                        Some((out, n))
                    },
                }
            } else {
                None
            }
        } else {
            None
        }
    } else {
        match scan_string(s, start + 1) {
            None => None,
            Some((v, n)) => {
                let mut out = s.substring_char(start, start + 1).to_owned();
                out.append(v.as_str());
                assert(s@.subrange(start as int, start + 1) =~= seq![s@[start as int]]);
                Some((out, n))
            },
        }
    }
}

/// Structural parse of the serialized claims object: the four fields in
/// their fixed order, with the expiry required to fit the platform's usize.
pub open spec fn parse_claims_spec(s: Seq<char>) -> Option<(Seq<char>, Seq<char>, int, Seq<char>)> {
    if !matches_at(s, "{\"sub\":\""@, 0) {
        None
    } else {
        match unesc_scan(s, 8) {
            None => None,
            Some((sub, i1)) => {
                if !matches_at(s, ",\"ip\":\""@, i1) {
                    None
                } else {
                    match unesc_scan(s, i1 + 7) {
                        None => None,
                        Some((ip, i2)) => {
                            if !matches_at(s, ",\"exp\":"@, i2) {
                                None
                            } else {
                                let dstart = i2 + 7;
                                let comma = index_of_from(s, ',', dstart);
                                if comma < 0 {
                                    None
                                } else {
                                    let ds = s.subrange(dstart, comma);
                                    if ds.len() == 0 || !all_digits(ds) || dec_val(ds)
                                        > usize::MAX as int {
                                        None
                                    } else if !matches_at(s, ",\"jti\":\""@, comma) {
                                        None
                                    } else {
                                        match unesc_scan(s, comma + 8) {
                                            None => None,
                                            Some((jti, i3)) => {
                                                if i3 == s.len() - 1 && s[i3] == '}' {
                                                    Some((sub, ip, dec_val(ds), jti))
                                                } else {
                                                    None
                                                }
                                            },
                                        }
                                    }
                                }
                            }
                        },
                    }
                }
            },
        }
    }
}

/// Parse the serialized claims object back into a claims value.
pub fn parse_claims(s: &str) -> (r: Option<Claims>)
    ensures
        match r {
            Some(c) => parse_claims_spec(s@) == Some((c.sub@, c.ip@, c.exp as int, c.jti@)),
            None => parse_claims_spec(s@) is None,
        },
{
    let slen = s.unicode_len();
    if !str_matches_at(s, "{\"sub\":\"", 0) {
        return None;
    }
    proof {
        reveal_strlit("{\"sub\":\"");
    }
    let (sub, i1) = match scan_string(s, 8) {
        None => {
            return None;
        },
        Some(p) => p,
    };
    if !str_matches_at(s, ",\"ip\":\"", i1) {
        return None;
    }
    proof {
        reveal_strlit(",\"ip\":\"");
    }
    let (ip, i2) = match scan_string(s, i1 + 7) {
        None => {
            return None;
        },
        Some(p) => p,
    };
    if !str_matches_at(s, ",\"exp\":", i2) {
        return None;
    }
    proof {
        reveal_strlit(",\"exp\":");
    }
    let dstart = i2 + 7;
    let comma = match find_char_from(s, dstart, ',') {
        None => {
            proof {
                lemma_index_of_from_missing(s@, ',', dstart as int);
            }
            return None;
        },
        Some(x) => {
            proof {
                lemma_index_of_from_found(s@, ',', dstart as int, x as int);
            }
            x
        },
    };
    let exp64 = match parse_u64(s.substring_char(dstart, comma)) {
        None => {
            return None;
        },
        Some(v) => v,
    };
    if exp64 > usize::MAX as u64 {
        return None;
    }
    if !str_matches_at(s, ",\"jti\":\"", comma) {
        return None;
    }
    proof {
        reveal_strlit(",\"jti\":\"");
    }
    let (jti, i3) = match scan_string(s, comma + 8) {
        None => {
            return None;
        },
        Some(p) => p,
    };
    if i3 == slen - 1 && i3 < slen && s.get_char(i3) == '}' {
        Some(Claims { sub, ip, exp: exp64 as usize, jti })
    } else {
        None
    }
}

/// base64url (unpadded) of the UTF-8 bytes of a string.
pub uninterp spec fn b64url_of_chars(s: Seq<char>) -> Seq<char>;

/// base64url (unpadded) decoding back to a string; `None` when the text is
/// not valid base64url or its bytes are not valid UTF-8.
pub uninterp spec fn b64url_chars_decode_of(s: Seq<char>) -> Option<Seq<char>>;

/// Relies on base64's URL_SAFE_NO_PAD engine `encode` over the UTF-8 bytes
/// of `s`: a deterministic function of the input, inverted by `decode`; its
/// output uses only the URL-safe alphabet, which has no dot.
#[verifier::external_body]
fn b64url_encode_str(s: &str) -> (r: String)
    ensures
        r@ == b64url_of_chars(s@),
        b64url_chars_decode_of(r@) == Some(s@),
        forall|k: int| 0 <= k < r@.len() ==> r@[k] != '.',
{
    base64::Engine::encode(&base64::engine::general_purpose::URL_SAFE_NO_PAD, s.as_bytes())
}

/// Relies on base64's URL_SAFE_NO_PAD engine `decode`: a deterministic
/// decode failing exactly on invalid base64url or non-UTF-8 payload bytes.
#[verifier::external_body]
fn b64url_decode_str(s: &str) -> (r: Option<String>)
    ensures
        r is Some <==> b64url_chars_decode_of(s@) is Some,
        r is Some ==> r->0@ == b64url_chars_decode_of(s@)->0,
{
    match base64::Engine::decode(&base64::engine::general_purpose::URL_SAFE_NO_PAD, s) {
        Ok(b) => String::from_utf8(b).ok(),
        Err(_) => None,
    }
}

/// The base64url signature text produced by HMAC-SHA256 over the UTF-8
/// bytes of `message` with `secret`.
pub uninterp spec fn hs256_sig_of(secret: Seq<u8>, message: Seq<char>) -> Seq<char>;

/// Relies on jsonwebtoken::crypto::sign with HS256: the signature is a
/// deterministic function of the secret and the message bytes, and the
/// HS256 arm of `sign` returns Ok unconditionally, so signing is total.
#[verifier::external_body]
fn hs256_sign(secret: &[u8], message: &str) -> (r: String)
    ensures
        r@ == hs256_sig_of(secret@, message@),
{
    jsonwebtoken::crypto::sign(
        message.as_bytes(),
        &jsonwebtoken::EncodingKey::from_secret(secret),
        jsonwebtoken::Algorithm::HS256,
    ).unwrap()
}

/// The fixed serialized token header.
pub open spec fn header_json() -> Seq<char> {
    "{\"alg\":\"HS256\",\"typ\":\"JWT\"}"@
}

/// The unsigned part of a token: both base64url segments joined by a dot.
pub open spec fn signing_input_of(sub: Seq<char>, ip: Seq<char>, exp: nat, jti: Seq<char>) -> Seq<
    char,
> {
    b64url_of_chars(header_json()) + "."@ + b64url_of_chars(claims_json(sub, ip, exp, jti))
}

/// A complete signed token for the given secret and claims.
pub open spec fn token_of(secret: Seq<u8>, sub: Seq<char>, ip: Seq<char>, exp: nat, jti: Seq<
    char,
>) -> Seq<char> {
    let m = signing_input_of(sub, ip, exp, jti);
    m + "."@ + hs256_sig_of(secret, m)
}

/// Sign a claims object into a complete token. Signing is total; the
/// produced token verifies and decodes back to exactly the claims it was
/// made from.
pub fn token_encode(secret: &[u8], claims: &Claims) -> (r: String)
    ensures
        r@ == token_of(secret@, claims.sub@, claims.ip@, claims.exp as nat, claims.jti@),
        token_decode_spec(secret@, r@) == Some(
            (claims.sub@, claims.ip@, claims.exp as int, claims.jti@),
        ),
{
    let cj = write_claims(claims);
    let seg2 = b64url_encode_str(cj.as_str());
    let seg1 = b64url_encode_str("{\"alg\":\"HS256\",\"typ\":\"JWT\"}");
    let mut msg = seg1.clone();
    msg.append(".");
    msg.append(seg2.as_str());
    assert(msg@ =~= signing_input_of(claims.sub@, claims.ip@, claims.exp as nat, claims.jti@));
    let sig = hs256_sign(secret, msg.as_str());
    let mut t = msg;
    t.append(".");
    t.append(sig.as_str());
    assert(t@ =~= token_of(secret@, claims.sub@, claims.ip@, claims.exp as nat, claims.jti@));
    proof {
        lemma_token_self_decode(
            secret@,
            seg1@,
            seg2@,
            sig@,
            t@,
            cj@,
            claims.sub@,
            claims.ip@,
            claims.exp as nat,
            claims.jti@,
        );
    }
    t
}

/// A token assembled from dot-free segments, with its trailing segment the
/// recomputed signature of its signing input and its payload decoding to a
/// well-formed claims object, is accepted by the structural decoder and
/// yields exactly those claims.
proof fn lemma_token_self_decode(
    secret: Seq<u8>,
    seg1: Seq<char>,
    seg2: Seq<char>,
    sig: Seq<char>,
    t: Seq<char>,
    cj: Seq<char>,
    sub: Seq<char>,
    ip: Seq<char>,
    exp: nat,
    jti: Seq<char>,
)
    requires
        exp <= usize::MAX,
        forall|k: int| 0 <= k < seg1.len() ==> seg1[k] != '.',
        forall|k: int| 0 <= k < seg2.len() ==> seg2[k] != '.',
        t =~= seg1 + "."@ + seg2 + "."@ + sig,
        sig == hs256_sig_of(secret, seg1 + "."@ + seg2),
        b64url_chars_decode_of(seg2) == Some(cj),
        cj == claims_json(sub, ip, exp, jti),
    ensures
        token_decode_spec(secret, t) == Some((sub, ip, exp as int, jti)),
{
    reveal_strlit(".");
    let n1 = seg1.len() as int;
    let n2 = seg2.len() as int;
    let p1 = n1;
    let p2 = n1 + 1 + n2;
    assert(t.len() == n1 + 1 + n2 + 1 + sig.len());
    let whole = seg1 + "."@ + seg2 + "."@ + sig;
    assert(forall|k: int| 0 <= k < t.len() ==> t[k] == whole[k]);
    assert(t[p1] == '.');
    assert(t[p2] == '.');
    assert forall|j: int| 0 <= j < p1 implies t[j] != '.' by {
        assert(t[j] == seg1[j]);
    }
    assert forall|j: int| p1 + 1 <= j < p2 implies t[j] != '.' by {
        assert(t[j] == seg2[j - n1 - 1]);
    }
    lemma_index_of_from_found(t, '.', 0, p1);
    lemma_index_of_from_found(t, '.', p1 + 1, p2);
    assert(t.subrange(0, p2) =~= seg1 + "."@ + seg2);
    assert(t.subrange(p2 + 1, t.len() as int) =~= sig);
    assert(t.subrange(p1 + 1, p2) =~= seg2);
    lemma_claims_round_trip(sub, ip, exp, jti);
}

/// Structural acceptance of a token against an expected signature text: the
/// token splits at its first two dots, the trailing segment must equal the
/// expected signature, and the payload segment must decode and parse.
pub open spec fn token_claims_spec(t: Seq<char>, expected: Seq<char>) -> Option<
    (Seq<char>, Seq<char>, int, Seq<char>),
> {
    let p1 = index_of_from(t, '.', 0);
    if p1 < 0 {
        None
    } else {
        let p2 = index_of_from(t, '.', p1 + 1);
        if p2 < 0 {
            None
        } else {
            let sig = t.subrange(p2 + 1, t.len() as int);
            if sig != expected {
                None
            } else {
                match b64url_chars_decode_of(t.subrange(p1 + 1, p2)) {
                    None => None,
                    Some(cj) => parse_claims_spec(cj),
                }
            }
        }
    }
}

/// A token accepted with the signature recomputed from `secret`.
pub open spec fn token_decode_spec(secret: Seq<u8>, t: Seq<char>) -> Option<
    (Seq<char>, Seq<char>, int, Seq<char>),
> {
    let p1 = index_of_from(t, '.', 0);
    let p2 = index_of_from(t, '.', p1 + 1);
    if p1 >= 0 && p2 >= 0 {
        token_claims_spec(t, hs256_sig_of(secret, t.subrange(0, p2)))
    } else {
        None
    }
}

/// Accept or reject a token given the expected signature text for its
/// signing input. Exact: succeeds precisely on structurally valid tokens
/// whose trailing segment equals `expected`.
pub fn token_claims(token: &str, expected: &str) -> (r: Option<Claims>)
    ensures
        match r {
            Some(c) => token_claims_spec(token@, expected@) == Some(
                (c.sub@, c.ip@, c.exp as int, c.jti@),
            ),
            None => token_claims_spec(token@, expected@) is None,
        },
{
    let tlen = token.unicode_len();
    let p1 = match find_char_from(token, 0, '.') {
        None => {
            proof {
                lemma_index_of_from_missing(token@, '.', 0);
            }
            return None;
        },
        Some(x) => {
            proof {
                lemma_index_of_from_found(token@, '.', 0, x as int);
            }
            x
        },
    };
    let p2 = match find_char_from(token, p1 + 1, '.') {
        None => {
            proof {
                lemma_index_of_from_missing(token@, '.', p1 as int + 1);
            }
            return None;
        },
        Some(x) => {
            proof {
                lemma_index_of_from_found(token@, '.', p1 as int + 1, x as int);
            }
            x
        },
    };
    let sig = token.substring_char(p2 + 1, tlen);
    if !str_eq(sig, expected) {
        return None;
    }
    let payload = token.substring_char(p1 + 1, p2);
    match b64url_decode_str(payload) {
        None => None,
        Some(cj) => parse_claims(cj.as_str()),
    }
}

/// Verify and decode a token with the shared secret. Exact: a token is
/// accepted precisely when it is structurally valid and its trailing
/// segment equals the signature recomputed under `secret`, and then the
/// decoded claims are exactly what its payload carries.
pub fn token_decode(secret: &[u8], token: &str) -> (r: Option<Claims>)
    ensures
        match r {
            Some(c) => token_decode_spec(secret@, token@) == Some(
                (c.sub@, c.ip@, c.exp as int, c.jti@),
            ),
            None => token_decode_spec(secret@, token@) is None,
        },
{
    let tlen = token.unicode_len();
    let p1 = match find_char_from(token, 0, '.') {
        None => {
            proof {
                lemma_index_of_from_missing(token@, '.', 0);
            }
            return None;
        },
        Some(x) => {
            proof {
                lemma_index_of_from_found(token@, '.', 0, x as int);
            }
            x
        },
    };
    let p2 = match find_char_from(token, p1 + 1, '.') {
        None => {
            proof {
                lemma_index_of_from_missing(token@, '.', p1 as int + 1);
            }
            return None;
        },
        Some(x) => {
            proof {
                lemma_index_of_from_found(token@, '.', p1 as int + 1, x as int);
            }
            x
        },
    };
    let msg = token.substring_char(0, p2);
    let expected = hs256_sign(secret, msg);
    token_claims(token, expected.as_str())
}


proof fn lemma_esc_unesc(s: Seq<char>, i: int, v: Seq<char>, rest: Seq<char>)
    requires
        0 <= i <= s.len(),
        s.subrange(i, s.len() as int) =~= esc(v) + seq!['"'] + rest,
    ensures
        unesc_scan(s, i) == Some((v, i + esc(v).len() + 1)),
    decreases v.len(),
{
    let t = esc(v) + seq!['"'] + rest;
    assert(s.len() - i == t.len());
    assert forall|k: int| 0 <= k < t.len() implies s[i + k] == t[k] by {
        assert(s.subrange(i, s.len() as int)[k] == s[i + k]);
    }
    if v.len() == 0 {
        assert(esc(v) =~= Seq::<char>::empty());
        assert(t[0] == '"');
        assert(s[i] == t[0]);
    } else {
        let c = v[0];
        let v2 = v.drop_first();
        assert(esc(v) == esc_char(c) + esc(v2));
        let t2 = esc(v2) + seq!['"'] + rest;
        if c == '"' || c == '\\' {
            assert(esc_char(c) =~= seq!['\\', c]);
            assert(t[0] == '\\' && t[1] == c);
            assert(s[i] == '\\');
            assert(s[i + 1] == c);
            assert(s.subrange(i + 2, s.len() as int) =~= t2) by {
                assert forall|k: int| 0 <= k < t2.len() implies s.subrange(
                    i + 2,
                    s.len() as int,
                )[k] == t2[k] by {
                    assert(s.subrange(i + 2, s.len() as int)[k] == s[i + 2 + k]);
                    assert(s[i + 2 + k] == t[k + 2]);
                    assert(t[k + 2] == t2[k]);
                }
            }
            lemma_esc_unesc(s, i + 2, v2, rest);
            assert(unesc_scan(s, i) == Some((seq![c] + v2, i + 2 + esc(v2).len() + 1)));
            assert(seq![c] + v2 =~= v);
        } else {
            assert(esc_char(c) =~= seq![c]);
            assert(t[0] == c);
            assert(s[i] == c);
            assert(s[i] != '"' && s[i] != '\\');
            assert(s.subrange(i + 1, s.len() as int) =~= t2) by {
                assert forall|k: int| 0 <= k < t2.len() implies s.subrange(
                    i + 1,
                    s.len() as int,
                )[k] == t2[k] by {
                    assert(s.subrange(i + 1, s.len() as int)[k] == s[i + 1 + k]);
                    assert(s[i + 1 + k] == t[k + 1]);
                    assert(t[k + 1] == t2[k]);
                }
            }
            lemma_esc_unesc(s, i + 1, v2, rest);
            assert(unesc_scan(s, i) == Some((seq![c] + v2, i + 1 + esc(v2).len() + 1)));
            assert(seq![c] + v2 =~= v);
        }
    }
}

proof fn lemma_dec_of_shape(n: nat)
    ensures
        dec_of(n).len() >= 1,
        all_digits(dec_of(n)),
    decreases n,
{
    if n >= 10 {
        lemma_dec_of_shape(n / 10);
        assert forall|i: int| 0 <= i < dec_of(n).len() implies '0' <= #[trigger] dec_of(n)[i]
            <= '9' by {
            if i < dec_of(n / 10).len() {
                assert(dec_of(n)[i] == dec_of(n / 10)[i]);
            } else {
                assert(dec_of(n)[i] == digit_char((n % 10) as int));
            }
        }
    }
}

proof fn lemma_dec_val_of(n: nat)
    ensures
        dec_val(dec_of(n)) == n,
    decreases n,
{
    if n < 10 {
        assert(dec_of(n) == seq![digit_char(n as int)]);
        assert(dec_of(n).drop_last() =~= Seq::<char>::empty());
        assert(dec_val(Seq::<char>::empty()) == 0);
        assert(dec_of(n).last() == digit_char(n as int));
        assert(dec_val(dec_of(n)) == digit_val(digit_char(n as int)));
        assert(digit_val(digit_char(n as int)) == n);
    } else {
        lemma_dec_val_of(n / 10);
        assert(dec_of(n) == dec_of(n / 10) + seq![digit_char((n % 10) as int)]);
        assert(dec_of(n).drop_last() =~= dec_of(n / 10));
        assert(dec_of(n).last() == digit_char((n % 10) as int));
        assert(dec_val(dec_of(n)) == dec_val(dec_of(n / 10)) * 10 + digit_val(
            digit_char((n % 10) as int),
        ));
    }
}

/// Serialization and parsing of the claims object are inverse: every
/// claims value the gateway writes parses back to exactly its fields.
pub proof fn lemma_claims_round_trip(sub: Seq<char>, ip: Seq<char>, exp: nat, jti: Seq<char>)
    requires
        exp <= usize::MAX,
    ensures
        parse_claims_spec(claims_json(sub, ip, exp, jti)) == Some(
            (sub, ip, exp as int, jti),
        ),
{
    reveal_strlit("{\"sub\":\"");
    reveal_strlit("\",\"ip\":\"");
    reveal_strlit(",\"ip\":\"");
    reveal_strlit("\",\"exp\":");
    reveal_strlit(",\"exp\":");
    reveal_strlit(",\"jti\":\"");
    reveal_strlit("\"}");
    let a = ("{\"sub\":\"")@;
    let b = ("\",\"ip\":\"")@;
    let c = ("\",\"exp\":")@;
    let d = (",\"jti\":\"")@;
    let e = ("\"}")@;
    let s = claims_json(sub, ip, exp, jti);
    assert(s == a + esc(sub) + b + esc(ip) + c + dec_of(exp) + d + esc(jti) + e);
    lemma_dec_of_shape(exp);
    lemma_dec_val_of(exp);
    let dn = dec_of(exp).len() as int;

    // The opening literal.
    assert(a.len() == 8);
    assert(s.subrange(0, 8) =~= a);
    assert(matches_at(s, ("{\"sub\":\"")@, 0));

    // The sub value, closed by the first character of the next literal.
    let rest1 = b.drop_first() + esc(ip) + c + dec_of(exp) + d + esc(jti) + e;
    assert(s.subrange(8, s.len() as int) =~= esc(sub) + seq!['"'] + rest1) by {
        assert(b[0] == '"');
        assert(b =~= seq!['"'] + b.drop_first());
    }
    lemma_esc_unesc(s, 8, sub, rest1);
    let i1 = 8 + esc(sub).len() as int + 1;

    // The ip literal and value.
    assert(b.drop_first() =~= (",\"ip\":\"")@);
    assert(s.subrange(i1, i1 + 7) =~= (",\"ip\":\"")@);
    assert(matches_at(s, (",\"ip\":\"")@, i1));
    let rest2 = c.drop_first() + dec_of(exp) + d + esc(jti) + e;
    assert(s.subrange(i1 + 7, s.len() as int) =~= esc(ip) + seq!['"'] + rest2) by {
        assert(c[0] == '"');
        assert(c =~= seq!['"'] + c.drop_first());
    }
    lemma_esc_unesc(s, i1 + 7, ip, rest2);
    let i2 = i1 + 7 + esc(ip).len() as int + 1;

    // The exp literal and digits, ended by the first comma.
    assert(c.drop_first() =~= (",\"exp\":")@);
    assert(s.subrange(i2, i2 + 7) =~= (",\"exp\":")@);
    assert(matches_at(s, (",\"exp\":")@, i2));
    let dstart = i2 + 7;
    assert(s.subrange(dstart, dstart + dn) =~= dec_of(exp));
    assert(d[0] == ',');
    assert(s[dstart + dn] == ',');
    assert forall|j: int| dstart <= j < dstart + dn implies s[j] != ',' by {
        assert(s[j] == dec_of(exp)[j - dstart]);
        assert('0' <= dec_of(exp)[j - dstart] <= '9');
    }
    crate::text::lemma_index_of_from_found(s, ',', dstart, dstart + dn);
    let ds = s.subrange(dstart, dstart + dn);
    assert(ds =~= dec_of(exp));
    assert(ds.len() >= 1 && all_digits(ds) && dec_val(ds) == exp);

    // The jti literal and value, then the closing brace ends the text.
    let comma = dstart + dn;
    assert(s.subrange(comma, comma + 8) =~= (",\"jti\":\"")@);
    assert(matches_at(s, (",\"jti\":\"")@, comma));
    let rest3 = seq!['}'];
    assert(s.subrange(comma + 8, s.len() as int) =~= esc(jti) + seq!['"'] + rest3) by {
        assert(e =~= seq!['"'] + seq!['}']);
    }
    lemma_esc_unesc(s, comma + 8, jti, rest3);
    let i3 = comma + 8 + esc(jti).len() as int + 1;
    assert(i3 == s.len() - 1);
    assert(s[i3] == '}');
}

} // verus!
