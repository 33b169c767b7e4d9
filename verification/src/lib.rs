//! Core logic of a session-multiplexed HTTP tunnel: framing and body codec,
//! hop-by-hop header filtering, location rewriting, credential issuance and
//! validation, per-session request correlation, and rate limiting.
use vstd::prelude::*;

pub mod agent;
pub mod codec;
pub mod credentials;
pub mod gateway;
pub mod headers;
pub mod jws;
pub mod limiter;
pub mod protocol;
pub mod rewrite;
pub mod routes;
pub mod session;
pub mod text;

verus! {

/// Fixed-window rate limit for credential issuance: requests per window.
pub const RL_MAX_PER_WINDOW: u32 = 10;

/// Fixed-window rate limit for credential issuance: window length in seconds.
pub const RL_WINDOW_SECS: u64 = 60;

/// Fixed-window rate limit for proxy ingress: requests per window.
pub const PROXY_RL_MAX_PER_WINDOW: u32 = 120;

/// Fixed-window rate limit for proxy ingress: window length in seconds.
pub const PROXY_RL_WINDOW_SECS: u64 = 60;

/// Seconds of inactivity after which a session is garbage-collected.
pub const SESSION_IDLE_TTL_SECS: u64 = 600;

/// Seconds an issued credential stays valid.
pub const TOKEN_TTL_SECS: u64 = 300;

/// Largest request body relayed through the tunnel, in bytes.
pub const MAX_BODY_BYTES: usize = 2 * 1024 * 1024;

/// A character of the URL-safe base64 alphabet.
pub open spec fn is_url_safe_char(c: char) -> bool {
    ('A' <= c <= 'Z') || ('a' <= c <= 'z') || ('0' <= c <= '9') || c == '-' || c == '_'
}

/// Relies on rand's thread-local generator `fill_bytes` and base64's
/// URL_SAFE_NO_PAD engine: a fresh random 128-bit identifier, 22 characters
/// long, each from the URL-safe base64 alphabet.
#[verifier::external_body]
pub fn generate_session_id() -> (r: String)
    ensures
        r@.len() == 22,
        forall|i: int| 0 <= i < r@.len() ==> is_url_safe_char(#[trigger] r@[i]),
{
    let mut bytes = [0u8; 16];
    rand::RngCore::fill_bytes(&mut rand::rng(), &mut bytes);
    base64::Engine::encode(&base64::engine::general_purpose::URL_SAFE_NO_PAD, bytes)
}

} // verus!
