//! The gateway-wide state and its operations: credential issuance, upgrade
//! validation, proxy-request preparation, response assembly, completion
//! correlation, and the periodic sweeps.
use vstd::prelude::*;
use vstd::string::StringExecFns;
use crate::credentials::{AuthMode, CredentialStore, IssuedCredential, TokenResponse, ephemeral_accepts};
use crate::jws::{Claims, token_encode, token_decode, token_of, token_decode_spec};
use crate::limiter::{bucket_idx, RateDecision, RateLimiter};
use crate::codec::{compress_body, decompress_body, decoded_body_spec, deflate_of,
    COMPRESS_THRESHOLD};
use crate::headers::{filter_headers, filter_hdrs, hdr_views};
use crate::protocol::{AccessLogEntry, ProxyRequest, ProxyResponse};
use crate::rewrite::{build_upstream_uri, rewrite_location, rewrite_location_spec,
    upstream_uri_spec};
use crate::session::{SessionTable, sid_idx, lemma_sid_idx_found, lemma_sid_idx_props};
use crate::text::{starts_with, str_starts_with, str_eq, lower};
use crate::{RL_MAX_PER_WINDOW, RL_WINDOW_SECS, PROXY_RL_MAX_PER_WINDOW, PROXY_RL_WINDOW_SECS,
    TOKEN_TTL_SECS, SESSION_IDLE_TTL_SECS, MAX_BODY_BYTES, generate_session_id};

verus! {

/// The process-wide gateway state: authentication configuration, the
/// request-id counter, issued credentials, live sessions and both
/// rate-limit tables.
pub struct AppState {
    pub auth_mode: AuthMode,
    pub jwt_secret: Vec<u8>,
    pub req_id: u64,
    pub issued_tokens: CredentialStore,
    pub sessions: SessionTable,
    pub rl: RateLimiter,
    pub proxy_rl: RateLimiter,
    pub allow_token_query: bool,
    pub internal_key: Option<String>,
}

/// The internal-key gate: open when no key is configured, else the caller
/// must present exactly the configured key.
pub open spec fn internal_key_ok(cfg: Option<String>, provided: Seq<char>) -> bool {
    match cfg {
        None => true,
        Some(k) => k@ == provided,
    }
}

/// The outcome of a credential-issuance request. Issuance is total on the
/// admitted path: the signing primitive cannot fail.
pub enum IssueOutcome {
    Issued(TokenResponse),
    Forbidden,
    Unauthorized,
    RateLimited { retry_after: u64 },
}

/// The outcome of an upgrade-validation request.
pub enum UpgradeOutcome {
    MissingSid,
    MissingToken,
    Invalid,
    Accept,
}

/// The token an upgrade request presents: the bearer token when the
/// authorization header carries one, else the query token when the
/// operator allows it.
pub open spec fn chosen_token_spec(
    auth: Option<Seq<char>>,
    allow_query: bool,
    query: Option<Seq<char>>,
) -> Option<Seq<char>> {
    match auth {
        Some(h) => if starts_with(h, "Bearer "@) {
            Some(h.subrange(7, h.len() as int))
        } else if allow_query {
            query
        } else {
            None
        },
        None => if allow_query {
            query
        } else {
            None
        },
    }
}

impl AppState {
    /// All component invariants, the configured limiter parameters, and
    /// freshness of the id counter over every pending slot.
    pub open spec fn wf(self) -> bool {
        &&& self.issued_tokens.wf()
        &&& self.sessions.wf()
        &&& self.rl.wf()
        &&& self.proxy_rl.wf()
        &&& self.rl.max_per_window == RL_MAX_PER_WINDOW
        &&& self.rl.window_secs == RL_WINDOW_SECS
        &&& self.proxy_rl.max_per_window == PROXY_RL_MAX_PER_WINDOW
        &&& self.proxy_rl.window_secs == PROXY_RL_WINDOW_SECS
        &&& forall|i: int, j: int|
            0 <= i < self.sessions.sessions@.len() && 0 <= j < (#[trigger] self.sessions.sessions@[i]).pending@.len()
                ==> #[trigger] self.sessions.sessions@[i].pending@[j] < self.req_id
    }

    /// A fresh gateway state with no sessions, credentials or counters.
    pub fn new(
        auth_mode: AuthMode,
        jwt_secret: Vec<u8>,
        allow_token_query: bool,
        internal_key: Option<String>,
    ) -> (r: AppState)
        ensures
            r.wf(),
            r.auth_mode == auth_mode,
            r.jwt_secret == jwt_secret,
            r.req_id == 1,
            r.allow_token_query == allow_token_query,
            r.internal_key == internal_key,
            r.issued_tokens.entries@.len() == 0,
            r.sessions.sessions@.len() == 0,
            r.rl.buckets@.len() == 0,
            r.proxy_rl.buckets@.len() == 0,
    {
        AppState {
            auth_mode,
            jwt_secret,
            req_id: 1,
            issued_tokens: CredentialStore::new(),
            sessions: SessionTable::new(),
            rl: RateLimiter::new(RL_MAX_PER_WINDOW, RL_WINDOW_SECS),
            proxy_rl: RateLimiter::new(PROXY_RL_MAX_PER_WINDOW, PROXY_RL_WINDOW_SECS),
            allow_token_query,
            internal_key,
        }
    }

    /// Issue a fresh single-use credential bound to `ip`. Forbidden in
    /// fixed-token mode; gated by the internal key when one is configured;
    /// rate limited per address. On success the credential is recorded and
    /// the signed token returned with its session id and time to live.
    pub fn issue_token(&mut self, ip: &str, provided_internal_key: &str, now: u64) -> (r:
        IssueOutcome)
        requires
            old(self).wf(),
            now + TOKEN_TTL_SECS <= usize::MAX,
        ensures
            final(self).wf(),
            final(self).sessions == old(self).sessions,
            final(self).proxy_rl == old(self).proxy_rl,
            final(self).req_id == old(self).req_id,
            final(self).auth_mode == old(self).auth_mode,
            final(self).jwt_secret == old(self).jwt_secret,
            final(self).allow_token_query == old(self).allow_token_query,
            final(self).internal_key == old(self).internal_key,
            r is Forbidden <==> old(self).auth_mode is Fixed,
            r is Forbidden ==> final(self).issued_tokens == old(self).issued_tokens && final(self).rl == old(self).rl,
            r is Unauthorized <==> old(self).auth_mode is Ephemeral && !internal_key_ok(
                old(self).internal_key,
                provided_internal_key@,
            ),
            r is Unauthorized ==> final(self).issued_tokens == old(self).issued_tokens && final(self).rl == old(self).rl,
            (old(self).auth_mode is Ephemeral && internal_key_ok(
                old(self).internal_key,
                provided_internal_key@,
            )) ==> ((old(self).rl.decision_spec(ip@, now) matches RateDecision::Limited {
                retry_after,
            } ==> r == (IssueOutcome::RateLimited { retry_after }))),
            (r matches IssueOutcome::RateLimited { retry_after } ==> old(self).rl.decision_spec(
                ip@,
                now,
            ) == (RateDecision::Limited { retry_after })),
            r is RateLimited ==> final(self).issued_tokens == old(self).issued_tokens && final(self).rl.buckets@ == old(self).rl.buckets@,
            r is Issued <==> old(self).auth_mode is Ephemeral && internal_key_ok(
                old(self).internal_key,
                provided_internal_key@,
            ) && old(self).rl.decision_spec(ip@, now) is Allowed,
            r matches IssueOutcome::Issued(tr) ==> ({
                &&& tr.expires_in == TOKEN_TTL_SECS
                &&& exists|jti: Seq<char>|
                    {
                        &&& tr.token@ == token_of(
                            old(self).jwt_secret@,
                            tr.session@,
                            ip@,
                            (now + TOKEN_TTL_SECS) as nat,
                            jti,
                        )
                        &&& token_decode_spec(old(self).jwt_secret@, tr.token@) == Some(
                            (tr.session@, ip@, (now + TOKEN_TTL_SECS) as int, jti),
                        )
                        &&& final(self).issued_tokens.contains_jti(jti)
                        &&& exists|e: int|
                            0 <= e < final(self).issued_tokens.entries@.len() && {
                                let c = #[trigger] final(self).issued_tokens.entries@[e];
                                c.jti@ == jti && c.ip@ == ip@ && c.expires_at == now
                                    + TOKEN_TTL_SECS && c.sid@ == tr.session@
                            }
                    }
            }),
    {
        match &self.auth_mode {
            AuthMode::Fixed(_) => {
                return IssueOutcome::Forbidden;
            },
            AuthMode::Ephemeral => {},
        }
        let key_ok = match &self.internal_key {
            Some(k) => str_eq(provided_internal_key, k.as_str()),
            None => true,
        };
        if !key_ok {
            return IssueOutcome::Unauthorized;
        }
        match self.rl.check(ip, now) {
            RateDecision::Limited { retry_after } => {
                return IssueOutcome::RateLimited { retry_after };
            },
            RateDecision::Allowed => {},
        }
        let jti = generate_session_id();
        let sid = generate_session_id();
        let claims = Claims {
            sub: sid.clone(),
            ip: ip.to_owned(),
            exp: (now + TOKEN_TTL_SECS) as usize,
            jti: jti.clone(),
        };
        let token = token_encode(self.jwt_secret.as_slice(), &claims);
        let cred = IssuedCredential {
            jti,
            ip: ip.to_owned(),
            expires_at: now + TOKEN_TTL_SECS,
            sid: sid.clone(),
        };
        let ghost jti_view = claims.jti@;
        self.issued_tokens.insert(cred);
        let out = IssueOutcome::Issued(
            TokenResponse { token, session: sid, expires_in: TOKEN_TTL_SECS },
        );
        proof {
            let tr = out->Issued_0;
            assert(tr.token@ == token_of(
                old(self).jwt_secret@,
                tr.session@,
                ip@,
                (now + TOKEN_TTL_SECS) as nat,
                jti_view,
            ));
            assert(final(self).issued_tokens.contains_jti(jti_view));
        }
        out
    }

    /// Validate a duplex-channel upgrade. In fixed-token mode the upgrade
    /// is accepted exactly when the presented token equals the configured
    /// one. In ephemeral mode it is accepted exactly when the token
    /// verifies under the gateway secret, binds the caller's address and
    /// session, has not expired, and its single-use id was still unused;
    /// acceptance consumes the id, and every rejection leaves the
    /// credential records unchanged.
    pub fn validate_upgrade(
        &mut self,
        sid: Option<&str>,
        auth_header: Option<&str>,
        query_token: Option<&str>,
        ip: &str,
        now: u64,
    ) -> (r: UpgradeOutcome)
        requires
            old(self).wf(),
        ensures
            final(self).wf(),
            final(self).sessions == old(self).sessions,
            final(self).rl == old(self).rl,
            final(self).proxy_rl == old(self).proxy_rl,
            final(self).req_id == old(self).req_id,
            final(self).auth_mode == old(self).auth_mode,
            final(self).jwt_secret == old(self).jwt_secret,
            final(self).allow_token_query == old(self).allow_token_query,
            final(self).internal_key == old(self).internal_key,
            r is MissingSid <==> (match sid {
                Some(s) => s@.len() == 0,
                None => true,
            }),
            !(r is MissingSid) ==> ((r is MissingToken) <==> chosen_token_spec(
                match auth_header {
                    Some(h) => Some(h@),
                    None => None,
                },
                old(self).allow_token_query,
                match query_token {
                    Some(q) => Some(q@),
                    None => None,
                },
            ) is None),
            !(r is Accept) ==> final(self).issued_tokens.entries@ == old(self).issued_tokens.entries@,
            (r is Accept && old(self).auth_mode is Fixed) ==> (match sid {
                Some(s) => chosen_token_spec(
                    match auth_header {
                        Some(h) => Some(h@),
                        None => None,
                    },
                    old(self).allow_token_query,
                    match query_token {
                        Some(q) => Some(q@),
                        None => None,
                    },
                ) == Some(old(self).auth_mode->Fixed_0@) && final(self).issued_tokens == old(self).issued_tokens,
                None => false,
            }),
            (r is Accept && old(self).auth_mode is Ephemeral) ==> (match sid {
                Some(s) => exists|sub: Seq<char>, cip: Seq<char>, exp: int, jti: Seq<char>|
                    {
                        &&& #[trigger] ephemeral_accepts(
                            old(self).issued_tokens,
                            sub,
                            cip,
                            exp,
                            jti,
                            ip@,
                            s@,
                            now as int,
                        )
                        &&& (match chosen_token_spec(
                            match auth_header {
                                Some(h) => Some(h@),
                                None => None,
                            },
                            old(self).allow_token_query,
                            match query_token {
                                Some(q) => Some(q@),
                                None => None,
                            },
                        ) {
                            Some(t) => token_decode_spec(old(self).jwt_secret@, t) == Some(
                                (sub, cip, exp, jti),
                            ),
                            None => false,
                        })
                        &&& !final(self).issued_tokens.contains_jti(jti)
                        &&& forall|k: Seq<char>|
                            k != jti ==> (final(self).issued_tokens.contains_jti(k) <==> old(self).issued_tokens.contains_jti(k))
                    },
                None => false,
            }),
            (!(r is MissingSid) && !(r is MissingToken) && old(self).auth_mode is Fixed) ==> ((
            r is Accept) <==> chosen_token_spec(
                match auth_header {
                    Some(h) => Some(h@),
                    None => None,
                },
                old(self).allow_token_query,
                match query_token {
                    Some(q) => Some(q@),
                    None => None,
                },
            ) == Some(old(self).auth_mode->Fixed_0@)),
            (!(r is MissingSid) && !(r is MissingToken) && old(self).auth_mode is Ephemeral)
                ==> (match sid {
                Some(x) => forall|sub: Seq<char>, cip: Seq<char>, exp: int, jti: Seq<char>|
                    ((match chosen_token_spec(
                        match auth_header {
                            Some(h) => Some(h@),
                            None => None,
                        },
                        old(self).allow_token_query,
                        match query_token {
                            Some(q) => Some(q@),
                            None => None,
                        },
                    ) {
                        Some(t) => token_decode_spec(old(self).jwt_secret@, t) == Some(
                            (sub, cip, exp, jti),
                        ),
                        None => false,
                    }) && #[trigger] ephemeral_accepts(
                        old(self).issued_tokens,
                        sub,
                        cip,
                        exp,
                        jti,
                        ip@,
                        x@,
                        now as int,
                    )) ==> r is Accept,
                None => true,
            }),
    {
        let s = match sid {
            None => {
                return UpgradeOutcome::MissingSid;
            },
            Some(s) => {
                if s.is_empty() {
                    return UpgradeOutcome::MissingSid;
                }
                s
            },
        };
        let bearer: Option<String> = match auth_header {
            Some(h) => {
                if str_starts_with(h, "Bearer ") {
                    proof {
                        reveal_strlit("Bearer ");
                    }
                    let hlen = h.unicode_len();
                    Some(h.substring_char(7, hlen).to_owned())
                } else {
                    None
                }
            },
            None => None,
        };
        let token: String = match bearer {
            Some(t) => t,
            None => {
                if self.allow_token_query {
                    match query_token {
                        Some(q) => q.to_owned(),
                        None => {
                            return UpgradeOutcome::MissingToken;
                        },
                    }
                } else {
                    return UpgradeOutcome::MissingToken;
                }
            },
        };
        proof {
            assert(chosen_token_spec(
                match auth_header {
                    Some(h) => Some(h@),
                    None => None,
                },
                old(self).allow_token_query,
                match query_token {
                    Some(q) => Some(q@),
                    None => None,
                },
            ) == Some(token@));
        }
        match &self.auth_mode {
            AuthMode::Fixed(expected) => {
                if str_eq(token.as_str(), expected.as_str()) {
                    UpgradeOutcome::Accept
                } else {
                    UpgradeOutcome::Invalid
                }
            },
            AuthMode::Ephemeral => {
                let claims = match token_decode(self.jwt_secret.as_slice(), token.as_str()) {
                    None => {
                        return UpgradeOutcome::Invalid;
                    },
                    Some(c) => c,
                };
                if !str_eq(claims.ip.as_str(), ip) {
                    return UpgradeOutcome::Invalid;
                }
                if !str_eq(claims.sub.as_str(), s) {
                    return UpgradeOutcome::Invalid;
                }
                if !(claims.exp as u64 > now) {
                    return UpgradeOutcome::Invalid;
                }
                match self.issued_tokens.take(claims.jti.as_str()) {
                    None => UpgradeOutcome::Invalid,
                    Some(_) => {
                        proof {
                            assert(ephemeral_accepts(
                                old(self).issued_tokens,
                                claims.sub@,
                                claims.ip@,
                                claims.exp as int,
                                claims.jti@,
                                ip@,
                                s@,
                                now as int,
                            ));
                        }
                        UpgradeOutcome::Accept
                    },
                }
            },
        }
    }

    /// Prepare one proxied request: admit it past the proxy rate limit,
    /// find the session, refresh its activity, assign a fresh id, build the
    /// request envelope with filtered headers and encoded body, and record
    /// the completion slot. The envelope's body decodes back to the input
    /// and the slot for its id is outstanding exactly once.
    pub fn prepare_proxy_request(
        &mut self,
        ip: &str,
        sid: &str,
        method: &str,
        tail: &str,
        query: Option<&str>,
        headers: &Vec<(String, String)>,
        body: &[u8],
        now: u64,
    ) -> (r: ProxyPrepared)
        requires
            old(self).wf(),
            old(self).req_id < u64::MAX,
        ensures
            final(self).wf(),
            final(self).issued_tokens == old(self).issued_tokens,
            final(self).rl == old(self).rl,
            final(self).auth_mode == old(self).auth_mode,
            final(self).jwt_secret == old(self).jwt_secret,
            r matches ProxyPrepared::RateLimited { retry_after } ==> old(self).proxy_rl
                .decision_spec(ip@, now) == (RateDecision::Limited { retry_after }),
            (old(self).proxy_rl.decision_spec(ip@, now) matches RateDecision::Limited {
                retry_after,
            } ==> r == (ProxyPrepared::RateLimited { retry_after })),
            ({
                let i = bucket_idx(old(self).proxy_rl.buckets@, ip@);
                if i < 0 {
                    &&& final(self).proxy_rl.buckets@.len() == old(self).proxy_rl.buckets@.len()
                        + 1
                    &&& final(self).proxy_rl.buckets@.subrange(
                        0,
                        old(self).proxy_rl.buckets@.len() as int,
                    ) =~= old(self).proxy_rl.buckets@
                    &&& final(self).proxy_rl.buckets@.last().ip@ == ip@
                    &&& final(self).proxy_rl.buckets@.last().count == 1
                    &&& final(self).proxy_rl.buckets@.last().window_start == now
                } else {
                    final(self).proxy_rl.buckets@ =~= old(self).proxy_rl.after_check_spec(
                        ip@,
                        now,
                    )
                }
            }),
            r is RateLimited ==> final(self).sessions == old(self).sessions && final(self).req_id
                == old(self).req_id,
            (old(self).proxy_rl.decision_spec(ip@, now) is Allowed) ==> ((r is NoSession) <==> !old(self).sessions.contains_sid(sid@)),
            r is NoSession ==> final(self).sessions.sessions@ == old(self).sessions.sessions@
                && final(self).req_id == old(self).req_id,
            (old(self).proxy_rl.decision_spec(ip@, now) is Allowed && old(self).sessions.contains_sid(sid@)) ==> ((r is Oversize) <==> body@.len()
                > MAX_BODY_BYTES),
            (r is Oversize || r is Prepared) ==> final(self).req_id == old(self).req_id + 1,
            r is Oversize ==> ({
                let i = sid_idx(old(self).sessions.sessions@, sid@);
                &&& final(self).sessions.sessions@.len() == old(self).sessions.sessions@.len()
                &&& forall|j: int|
                    0 <= j < old(self).sessions.sessions@.len() && j != i ==> final(self).sessions.sessions@[j] == old(self).sessions.sessions@[j]
                &&& final(self).sessions.sessions@[i].sid == old(self).sessions.sessions@[i].sid
                &&& final(self).sessions.sessions@[i].created_at == old(self).sessions.sessions@[i].created_at
                &&& final(self).sessions.sessions@[i].access_log == old(self).sessions.sessions@[i].access_log
                &&& final(self).sessions.sessions@[i].pending == old(self).sessions.sessions@[i].pending
                &&& final(self).sessions.sessions@[i].last_seen == now
            }),
            r matches ProxyPrepared::Prepared(env) ==> ({
                let i = sid_idx(old(self).sessions.sessions@, sid@);
                &&& env.id == old(self).req_id
                &&& env.method@ == method@
                &&& env.uri@ == upstream_uri_spec(
                    tail@,
                    match query {
                        Some(q) => Some(q@),
                        None => None,
                    },
                )
                &&& hdr_views(env.headers@) == filter_hdrs(hdr_views(headers@))
                &&& decoded_body_spec(env.body_b64@, env.is_compressed) == body@
                &&& (env.is_compressed <==> body@.len() >= COMPRESS_THRESHOLD && deflate_of(
                    body@,
                ).len() < body@.len())
                &&& final(self).sessions.sessions@.len() == old(self).sessions.sessions@.len()
                &&& forall|j: int|
                    0 <= j < old(self).sessions.sessions@.len() && j != i ==> final(self).sessions.sessions@[j] == old(self).sessions.sessions@[j]
                &&& final(self).sessions.sessions@[i].sid == old(self).sessions.sessions@[i].sid
                &&& final(self).sessions.sessions@[i].created_at == old(self).sessions.sessions@[i].created_at
                &&& final(self).sessions.sessions@[i].access_log == old(self).sessions.sessions@[i].access_log
                &&& final(self).sessions.sessions@[i].last_seen == now
                &&& final(self).sessions.sessions@[i].has_pending(env.id)
                &&& !old(self).sessions.sessions@[i].has_pending(env.id)
                &&& forall|k: u64|
                    k != env.id ==> (final(self).sessions.sessions@[i].has_pending(k) <==> old(self).sessions.sessions@[i].has_pending(k))
            }),
    {
        match self.proxy_rl.check(ip, now) {
            RateDecision::Limited { retry_after } => {
                return ProxyPrepared::RateLimited { retry_after };
            },
            RateDecision::Allowed => {},
        }
        let uri = build_upstream_uri(tail, query);
        if !self.sessions.touch(sid, now) {
            return ProxyPrepared::NoSession;
        }
        let id = self.req_id;
        self.req_id = self.req_id + 1;
        proof {
            let i = sid_idx(old(self).sessions.sessions@, sid@);
            lemma_sid_idx_props(old(self).sessions.sessions@, sid@);
            assert(self.sessions.sessions@[i].pending == old(self).sessions.sessions@[i].pending);
            assert forall|a: int, b: int|
                0 <= a < self.sessions.sessions@.len() && 0 <= b < (
                #[trigger] self.sessions.sessions@[a]).pending@.len() implies #[trigger] self
                .sessions.sessions@[a].pending@[b] < self.req_id by {
                if a == i {
                    assert(self.sessions.sessions@[a].pending == old(self).sessions.sessions@[a].pending);
                }
                assert(old(self).sessions.sessions@[a].pending@[b] < old(self).req_id);
            }
        }
        if body.len() > MAX_BODY_BYTES {
            return ProxyPrepared::Oversize;
        }
        let headers_vec = filter_headers(headers);
        let (body_b64, is_compressed) = compress_body(body);
        let env = ProxyRequest {
            id,
            method: method.to_owned(),
            uri,
            headers: headers_vec,
            body_b64,
            is_compressed,
        };
        let ghost mid = *self;
        let found = self.sessions.insert_pending(sid, id);
        proof {
            let i = sid_idx(old(self).sessions.sessions@, sid@);
            lemma_sid_idx_props(old(self).sessions.sessions@, sid@);
            assert(sid_idx(mid.sessions.sessions@, sid@) == i) by {
                assert(mid.sessions.sessions@[i].sid == old(self).sessions.sessions@[i].sid);
                assert(forall|j: int|
                    0 <= j < i ==> (#[trigger] mid.sessions.sessions@[j].sid)@ != sid@);
                lemma_sid_idx_found(mid.sessions.sessions@, sid@, i);
            }
            assert(found);
            assert(!mid.sessions.sessions@[i].has_pending(id)) by {
                if mid.sessions.sessions@[i].has_pending(id) {
                    let b = choose|b: int|
                        0 <= b < mid.sessions.sessions@[i].pending@.len() && mid.sessions
                            .sessions@[i].pending@[b] == id;
                    assert(mid.sessions.sessions@[i].pending@[b] < mid.req_id);
                }
            }
            assert forall|a: int, b: int|
                0 <= a < self.sessions.sessions@.len() && 0 <= b < (
                #[trigger] self.sessions.sessions@[a]).pending@.len() implies #[trigger] self
                .sessions.sessions@[a].pending@[b] < self.req_id by {
                if a == i {
                    assert(self.sessions.sessions@[a].pending@ =~= mid.sessions.sessions@[
                        a].pending@.push(id));
                    if b < mid.sessions.sessions@[a].pending@.len() {
                        assert(mid.sessions.sessions@[a].pending@[b] < mid.req_id);
                    } else {
                        assert(self.sessions.sessions@[a].pending@[b] == id);
                    }
                } else {
                    assert(self.sessions.sessions@[a] == mid.sessions.sessions@[a]);
                    assert(mid.sessions.sessions@[a].pending@[b] < mid.req_id);
                }
            }
        }
        ProxyPrepared::Prepared(env)
    }

    /// Record an inbound response frame for `sid`: refresh activity and
    /// claim the completion slot for `id`. `None` when the session is
    /// gone; otherwise whether the slot was still outstanding, in which
    /// case it is removed here and the response is delivered exactly once.
    pub fn complete_proxy_response(&mut self, sid: &str, id: u64, now: u64) -> (r: Option<bool>)
        requires
            old(self).wf(),
        ensures
            final(self).wf(),
            final(self).issued_tokens == old(self).issued_tokens,
            final(self).rl == old(self).rl,
            final(self).proxy_rl == old(self).proxy_rl,
            final(self).req_id == old(self).req_id,
            r is Some <==> old(self).sessions.contains_sid(sid@),
            r is None ==> final(self).sessions.sessions@ == old(self).sessions.sessions@,
            r matches Some(claimed) ==> ({
                let i = sid_idx(old(self).sessions.sessions@, sid@);
                &&& claimed <==> old(self).sessions.sessions@[i].has_pending(id)
                &&& final(self).sessions.sessions@.len() == old(self).sessions.sessions@.len()
                &&& forall|j: int|
                    0 <= j < old(self).sessions.sessions@.len() && j != i ==> final(self).sessions.sessions@[j] == old(self).sessions.sessions@[j]
                &&& final(self).sessions.sessions@[i].sid == old(self).sessions.sessions@[i].sid
                &&& final(self).sessions.sessions@[i].created_at == old(self).sessions.sessions@[i].created_at
                &&& final(self).sessions.sessions@[i].access_log == old(self).sessions.sessions@[i].access_log
                &&& final(self).sessions.sessions@[i].last_seen == now
                &&& !final(self).sessions.sessions@[i].has_pending(id)
                &&& forall|k: u64|
                    k != id ==> (final(self).sessions.sessions@[i].has_pending(k) <==> old(self).sessions.sessions@[i].has_pending(k))
            }),
    {
        if !self.sessions.touch(sid, now) {
            return None;
        }
        let ghost mid = *self;
        proof {
            let i = sid_idx(old(self).sessions.sessions@, sid@);
            lemma_sid_idx_props(old(self).sessions.sessions@, sid@);
            assert(sid_idx(mid.sessions.sessions@, sid@) == i) by {
                assert(mid.sessions.sessions@[i].sid == old(self).sessions.sessions@[i].sid);
                assert(forall|j: int|
                    0 <= j < i ==> (#[trigger] mid.sessions.sessions@[j].sid)@ != sid@);
                lemma_sid_idx_found(mid.sessions.sessions@, sid@, i);
            }
        }
        let r = self.sessions.take_pending(sid, id);
        proof {
            let i = sid_idx(old(self).sessions.sessions@, sid@);
            assert forall|a: int, b: int|
                0 <= a < self.sessions.sessions@.len() && 0 <= b < (
                #[trigger] self.sessions.sessions@[a]).pending@.len() implies #[trigger] self
                .sessions.sessions@[a].pending@[b] < self.req_id by {
                let k = self.sessions.sessions@[a].pending@[b];
                assert(self.sessions.sessions@[a].has_pending(k));
                if a == i {
                    assert(mid.sessions.sessions@[a].has_pending(k));
                    let c = choose|c: int|
                        0 <= c < mid.sessions.sessions@[a].pending@.len() && mid.sessions
                            .sessions@[a].pending@[c] == k;
                    assert(mid.sessions.sessions@[a].pending@[c] < mid.req_id);
                } else {
                    assert(self.sessions.sessions@[a] == mid.sessions.sessions@[a]);
                    assert(mid.sessions.sessions@[a].pending@[b] < mid.req_id);
                }
            }
        }
        r
    }

    /// Abandon the completion slot for `id` in `sid`'s session: the
    /// timeout and failed-enqueue paths. Activity is not refreshed. The
    /// slot is gone afterwards whether or not it was still outstanding.
    pub fn abandon_pending(&mut self, sid: &str, id: u64) -> (r: Option<bool>)
        requires
            old(self).wf(),
        ensures
            final(self).wf(),
            final(self).issued_tokens == old(self).issued_tokens,
            final(self).rl == old(self).rl,
            final(self).proxy_rl == old(self).proxy_rl,
            final(self).req_id == old(self).req_id,
            r is Some <==> old(self).sessions.contains_sid(sid@),
            r is None ==> final(self).sessions.sessions@ == old(self).sessions.sessions@,
            r matches Some(was) ==> ({
                let i = sid_idx(old(self).sessions.sessions@, sid@);
                &&& was <==> old(self).sessions.sessions@[i].has_pending(id)
                &&& final(self).sessions.sessions@.len() == old(self).sessions.sessions@.len()
                &&& forall|j: int|
                    0 <= j < old(self).sessions.sessions@.len() && j != i ==> final(self).sessions.sessions@[j] == old(self).sessions.sessions@[j]
                &&& !final(self).sessions.sessions@[i].has_pending(id)
                &&& final(self).sessions.sessions@[i].sid == old(self).sessions.sessions@[i].sid
                &&& final(self).sessions.sessions@[i].created_at == old(self).sessions.sessions@[i].created_at
                &&& final(self).sessions.sessions@[i].access_log == old(self).sessions.sessions@[i].access_log
                &&& final(self).sessions.sessions@[i].last_seen == old(self).sessions.sessions@[i].last_seen
                &&& forall|k: u64|
                    k != id ==> (final(self).sessions.sessions@[i].has_pending(k) <==> old(self).sessions.sessions@[i].has_pending(k))
            }),
    {
        let ghost mid = *self;
        let r = self.sessions.take_pending(sid, id);
        proof {
            let i = sid_idx(old(self).sessions.sessions@, sid@);
            if i >= 0 {
                assert forall|a: int, b: int|
                    0 <= a < self.sessions.sessions@.len() && 0 <= b < (
                    #[trigger] self.sessions.sessions@[a]).pending@.len() implies #[trigger] self
                    .sessions.sessions@[a].pending@[b] < self.req_id by {
                    let k = self.sessions.sessions@[a].pending@[b];
                    assert(self.sessions.sessions@[a].has_pending(k));
                    if a == i {
                        assert(mid.sessions.sessions@[a].has_pending(k));
                        let c = choose|c: int|
                            0 <= c < mid.sessions.sessions@[a].pending@.len() && mid.sessions
                                .sessions@[a].pending@[c] == k;
                        assert(mid.sessions.sessions@[a].pending@[c] < mid.req_id);
                    } else {
                        assert(self.sessions.sessions@[a] == mid.sessions.sessions@[a]);
                        assert(mid.sessions.sessions@[a].pending@[b] < mid.req_id);
                    }
                }
            }
        }
        r
    }

    /// Create the session on a completed upgrade.
    pub fn session_opened(&mut self, sid: &str, now: u64)
        requires
            old(self).wf(),
        ensures
            final(self).wf(),
            final(self).issued_tokens == old(self).issued_tokens,
            final(self).rl == old(self).rl,
            final(self).proxy_rl == old(self).proxy_rl,
            final(self).req_id == old(self).req_id,
            final(self).sessions.contains_sid(sid@),
            ({
                let i = sid_idx(old(self).sessions.sessions@, sid@);
                let n = final(self).sessions.sessions@.len() as int;
                if i < 0 {
                    &&& n == old(self).sessions.sessions@.len() + 1
                    &&& final(self).sessions.sessions@.subrange(0, n - 1) =~= old(self).sessions.sessions@
                    &&& final(self).sessions.sessions@[n - 1].sid@ == sid@
                    &&& final(self).sessions.sessions@[n - 1].pending@.len() == 0
                    &&& final(self).sessions.sessions@[n - 1].created_at == now
                    &&& final(self).sessions.sessions@[n - 1].last_seen == now
                    &&& final(self).sessions.sessions@[n - 1].access_log@.len() == 0
                } else {
                    &&& n == old(self).sessions.sessions@.len()
                    &&& forall|j: int|
                        0 <= j < n && j != i ==> final(self).sessions.sessions@[j] == old(self).sessions.sessions@[j]
                    &&& final(self).sessions.sessions@[i].sid@ == sid@
                    &&& final(self).sessions.sessions@[i].pending@.len() == 0
                    &&& final(self).sessions.sessions@[i].created_at == now
                    &&& final(self).sessions.sessions@[i].last_seen == now
                    &&& final(self).sessions.sessions@[i].access_log@.len() == 0
                }
            }),
    {
        let ghost pre = *self;
        self.sessions.insert_session(sid, now);
        proof {
            let i = sid_idx(pre.sessions.sessions@, sid@);
            assert forall|a: int, b: int|
                0 <= a < self.sessions.sessions@.len() && 0 <= b < (
                #[trigger] self.sessions.sessions@[a]).pending@.len() implies #[trigger] self
                .sessions.sessions@[a].pending@[b] < self.req_id by {
                if i < 0 {
                    if a < pre.sessions.sessions@.len() {
                        assert(self.sessions.sessions@[a] == pre.sessions.sessions@[a]);
                        assert(pre.sessions.sessions@[a].pending@[b] < pre.req_id);
                    }
                } else {
                    if a != i {
                        assert(self.sessions.sessions@[a] == pre.sessions.sessions@[a]);
                        assert(pre.sessions.sessions@[a].pending@[b] < pre.req_id);
                    }
                }
            }
        }
    }

    /// Tear the session down when its channel closes; idempotent.
    pub fn session_closed(&mut self, sid: &str) -> (was: bool)
        requires
            old(self).wf(),
        ensures
            final(self).wf(),
            final(self).issued_tokens == old(self).issued_tokens,
            final(self).rl == old(self).rl,
            final(self).proxy_rl == old(self).proxy_rl,
            final(self).req_id == old(self).req_id,
            was <==> old(self).sessions.contains_sid(sid@),
            !final(self).sessions.contains_sid(sid@),
    {
        let ghost pre = *self;
        let was = self.sessions.remove_session(sid);
        proof {
            let i = sid_idx(pre.sessions.sessions@, sid@);
            assert forall|a: int, b: int|
                0 <= a < self.sessions.sessions@.len() && 0 <= b < (
                #[trigger] self.sessions.sessions@[a]).pending@.len() implies #[trigger] self
                .sessions.sessions@[a].pending@[b] < self.req_id by {
                if i >= 0 {
                    if a < i {
                        assert(self.sessions.sessions@[a] == pre.sessions.sessions@[a]);
                        assert(pre.sessions.sessions@[a].pending@[b] < pre.req_id);
                    } else {
                        assert(self.sessions.sessions@[a] == pre.sessions.sessions@[a + 1]);
                        assert(pre.sessions.sessions@[a + 1].pending@[b] < pre.req_id);
                    }
                } else {
                    assert(self.sessions.sessions@[a] == pre.sessions.sessions@[a]);
                    assert(pre.sessions.sessions@[a].pending@[b] < pre.req_id);
                }
            }
        }
        was
    }

    /// Append an access-log entry to `sid`'s bounded log.
    pub fn log_access(&mut self, sid: &str, e: AccessLogEntry) -> (found: bool)
        requires
            old(self).wf(),
        ensures
            final(self).wf(),
            final(self).issued_tokens == old(self).issued_tokens,
            final(self).rl == old(self).rl,
            final(self).proxy_rl == old(self).proxy_rl,
            final(self).req_id == old(self).req_id,
            found <==> old(self).sessions.contains_sid(sid@),
            !found ==> final(self).sessions.sessions@ == old(self).sessions.sessions@,
            ({
                let i = sid_idx(old(self).sessions.sessions@, sid@);
                i >= 0 ==> {
                    &&& final(self).sessions.sessions@.len() == old(self).sessions.sessions@.len()
                    &&& forall|j: int|
                        0 <= j < old(self).sessions.sessions@.len() && j != i ==> final(self).sessions.sessions@[j] == old(self).sessions.sessions@[j]
                    &&& final(self).sessions.sessions@[i].sid == old(self).sessions.sessions@[i].sid
                    &&& final(self).sessions.sessions@[i].pending == old(self).sessions.sessions@[i].pending
                    &&& final(self).sessions.sessions@[i].created_at == old(self).sessions.sessions@[i].created_at
                    &&& final(self).sessions.sessions@[i].last_seen == old(self).sessions.sessions@[i].last_seen
                    &&& final(self).sessions.sessions@[i].access_log@ =~= SessionTable::ring_push(
                        old(self).sessions.sessions@[i].access_log@,
                        e,
                    )
                }
            }),
    {
        let ghost pre = *self;
        let found = self.sessions.log_append(sid, e);
        proof {
            let i = sid_idx(pre.sessions.sessions@, sid@);
            assert forall|a: int, b: int|
                0 <= a < self.sessions.sessions@.len() && 0 <= b < (
                #[trigger] self.sessions.sessions@[a]).pending@.len() implies #[trigger] self
                .sessions.sessions@[a].pending@[b] < self.req_id by {
                if i >= 0 && a == i {
                    assert(self.sessions.sessions@[a].pending == pre.sessions.sessions@[a].pending);
                    assert(pre.sessions.sessions@[a].pending@[b] < pre.req_id);
                } else {
                    assert(self.sessions.sessions@[a] == pre.sessions.sessions@[a]);
                    assert(pre.sessions.sessions@[a].pending@[b] < pre.req_id);
                }
            }
        }
        found
    }

    /// The periodic sweeps: expired credentials are dropped and sessions
    /// idle for the TTL or longer are removed; every surviving session was
    /// active within the TTL.
    pub fn gc_sweep(&mut self, now: u64)
        requires
            old(self).wf(),
        ensures
            final(self).wf(),
            final(self).rl == old(self).rl,
            final(self).proxy_rl == old(self).proxy_rl,
            final(self).req_id == old(self).req_id,
            forall|i: int|
                0 <= i < final(self).issued_tokens.entries@.len() ==> #[trigger] final(self).issued_tokens.entries@[i].expires_at > now,
            final(self).sessions.sessions@ == SessionTable::live_sessions(
                old(self).sessions.sessions@,
                now,
                SESSION_IDLE_TTL_SECS,
            ),
            forall|i: int|
                0 <= i < final(self).sessions.sessions@.len() ==> now < (#[trigger] final(self).sessions.sessions@[i]).last_seen + SESSION_IDLE_TTL_SECS,
    {
        self.issued_tokens.sweep_expired(now);
        let ghost mid = *self;
        self.sessions.gc_idle(now, SESSION_IDLE_TTL_SECS);
        proof {
            assert forall|a: int, b: int|
                0 <= a < self.sessions.sessions@.len() && 0 <= b < (
                #[trigger] self.sessions.sessions@[a]).pending@.len() implies #[trigger] self
                .sessions.sessions@[a].pending@[b] < self.req_id by {
                let y = choose|y: int|
                    0 <= y < mid.sessions.sessions@.len() && #[trigger] self.sessions.sessions@[a]
                        == mid.sessions.sessions@[y];
                assert(mid.sessions.sessions@[y].pending@[b] < mid.req_id);
            }
        }
    }
}

/// Replay is rejected: a token decodes to one fixed set of claims, so
/// once a successful upgrade has consumed the credential id those claims
/// carry, no later upgrade presenting the same token can satisfy the
/// acceptance conditions, whatever address, session or time it comes with.
pub proof fn lemma_upgrade_replay_rejected(
    secret: Seq<u8>,
    t: Seq<char>,
    jti: Seq<char>,
    store_after: CredentialStore,
)
    requires
        (exists|sub: Seq<char>, cip: Seq<char>, exp: int|
            token_decode_spec(secret, t) == Some((sub, cip, exp, jti))),
        !store_after.contains_jti(jti),
    ensures
        forall|sub: Seq<char>, cip: Seq<char>, exp: int, jti2: Seq<char>, ip: Seq<char>, sid: Seq<
            char,
        >, now: int|
            token_decode_spec(secret, t) == Some((sub, cip, exp, jti2))
                ==> !#[trigger] ephemeral_accepts(store_after, sub, cip, exp, jti2, ip, sid, now),
{
    assert forall|sub: Seq<char>, cip: Seq<char>, exp: int, jti2: Seq<char>, ip: Seq<char>,
        sid: Seq<char>, now: int|
        token_decode_spec(secret, t) == Some((sub, cip, exp, jti2)) implies !#[trigger] ephemeral_accepts(
        store_after,
        sub,
        cip,
        exp,
        jti2,
        ip,
        sid,
        now,
    ) by {
        if token_decode_spec(secret, t) == Some((sub, cip, exp, jti2)) {
            assert(jti2 == jti);
        }
    }
}

/// The outcome of preparing one proxied request.
pub enum ProxyPrepared {
    RateLimited { retry_after: u64 },
    NoSession,
    Oversize,
    Prepared(ProxyRequest),
}

/// The response the gateway hands the public client, assembled from an
/// agent response envelope.
pub struct GatewayResponse {
    pub status: u16,
    pub headers: Vec<(String, String)>,
    pub body: Vec<u8>,
}

/// The session cookie persisted on every proxied response.
pub open spec fn cookie_value_of(sid: Seq<char>) -> Seq<char> {
    "tunly_sid="@ + sid + "; Path=/; Max-Age=600; HttpOnly; SameSite=Lax"@
}

/// One response header after Location confinement.
pub open spec fn rewritten_header(sid: Seq<char>, p: (Seq<char>, Seq<char>)) -> (
    Seq<char>,
    Seq<char>,
) {
    if lower(p.0) == "location"@ {
        (p.0, rewrite_location_spec(sid, p.1))
    } else {
        p
    }
}

/// The headers of the public response: the agent's headers with hop-by-hop
/// entries stripped and Location confined, then the fixed no-store,
/// no-index and referrer-policy headers and the session cookie.
pub open spec fn rewritten_headers(sid: Seq<char>, hdrs: Seq<(Seq<char>, Seq<char>)>) -> Seq<
    (Seq<char>, Seq<char>),
> {
    Seq::new(filter_hdrs(hdrs).len(), |a: int| rewritten_header(sid, filter_hdrs(hdrs)[a]))
}

pub open spec fn response_headers_spec(sid: Seq<char>, hdrs: Seq<(Seq<char>, Seq<char>)>) -> Seq<
    (Seq<char>, Seq<char>),
> {
    rewritten_headers(sid, hdrs) + seq![
        ("cache-control"@, "no-store"@),
        ("x-robots-tag"@, "noindex, nofollow"@),
        ("referrer-policy"@, "same-origin"@),
        ("set-cookie"@, cookie_value_of(sid)),
    ]
}

/// Assemble the public response for a response envelope: the envelope's
/// status, its headers filtered and confined with the security headers and
/// session cookie appended, and the envelope's body decoded.
pub fn build_gateway_response(sid: &str, resp: &ProxyResponse) -> (r: GatewayResponse)
    ensures
        r.status == resp.status,
        hdr_views(r.headers@) == response_headers_spec(sid@, hdr_views(resp.headers@)),
        r.body@ == decoded_body_spec(resp.body_b64@, resp.is_compressed),
{
    let filtered = filter_headers(&resp.headers);
    let mut out: Vec<(String, String)> = Vec::new();
    let n = filtered.len();
    let ghost target = rewritten_headers(sid@, hdr_views(resp.headers@));
    proof {
        assert(hdr_views(filtered@).len() == filtered@.len());
        assert(target.len() == n);
    }
    let mut i: usize = 0;
    while i < n
        invariant
            n == filtered@.len(),
            i <= n,
            hdr_views(filtered@) == filter_hdrs(hdr_views(resp.headers@)),
            target == rewritten_headers(sid@, hdr_views(resp.headers@)),
            target.len() == n,
            out@.len() == i,
            forall|a: int| 0 <= a < i ==> hdr_views(out@)[a] == target[a],
        decreases n - i,
    {
        proof {
            assert(hdr_views(filtered@)[i as int] == (filtered@[i as int].0@, filtered@[
                i as int].1@));
            assert(target[i as int] == rewritten_header(sid@, hdr_views(filtered@)[i as int]));
        }
        let k = filtered[i].0.clone();
        let v = if crate::headers::eq_lower(filtered[i].0.as_str(), "location") {
            rewrite_location(sid, filtered[i].1.as_str())
        } else {
            filtered[i].1.clone()
        };
        proof {
            assert((k@, v@) == target[i as int]);
        }
        out.push((k, v));
        proof {
            assert(hdr_views(out@)[i as int] == (k@, v@));
            assert(forall|a: int|
                0 <= a < i ==> hdr_views(out@)[a] == hdr_views(out@.drop_last())[a]);
        }
        i = i + 1;
    }
    out.push((String::from_str("cache-control"), String::from_str("no-store")));
    out.push((String::from_str("x-robots-tag"), String::from_str("noindex, nofollow")));
    out.push((String::from_str("referrer-policy"), String::from_str("same-origin")));
    let mut cookie = String::from_str("tunly_sid=");
    cookie.append(sid);
    cookie.append("; Path=/; Max-Age=600; HttpOnly; SameSite=Lax");
    out.push((String::from_str("set-cookie"), cookie));
    let body = decompress_body(resp.body_b64.as_str(), resp.is_compressed);
    proof {
        let spec_h = response_headers_spec(sid@, hdr_views(resp.headers@));
        assert(out@.len() == n + 4);
        assert(spec_h.len() == n + 4);
        assert forall|a: int| 0 <= a < out@.len() implies hdr_views(out@)[a] == spec_h[a] by {
            assert(hdr_views(out@)[a] == (out@[a].0@, out@[a].1@));
            if a < n {
                assert(spec_h[a] == target[a]);
            }
        }
        assert(hdr_views(out@) =~= spec_h);
    }
    GatewayResponse { status: resp.status, headers: out, body }
}

} // verus!
