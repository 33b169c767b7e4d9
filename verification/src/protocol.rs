//! Wire-level data model: the two envelope kinds carried over the duplex
//! channel, tagged frame types for each direction, and the access-log entry
//! kept per session.
use vstd::prelude::*;

verus! {

/// A request forwarded from the gateway to the agent. The body travels
/// base64-encoded, compressed according to the codec policy.
#[derive(Clone)]
pub struct ProxyRequest {
    pub id: u64,
    pub method: String,
    pub uri: String,
    pub headers: Vec<(String, String)>,
    pub body_b64: String,
    pub is_compressed: bool,
}

/// A response returned from the agent to the gateway, correlated to its
/// request by `id`.
#[derive(Clone)]
pub struct ProxyResponse {
    pub id: u64,
    pub status: u16,
    pub headers: Vec<(String, String)>,
    pub body_b64: String,
    pub is_compressed: bool,
}

/// Frames sent from the gateway to the agent.
#[derive(Clone)]
pub enum ServerToClient {
    ProxyRequest(ProxyRequest),
}

/// Frames sent from the agent to the gateway.
#[derive(Clone)]
pub enum ClientToServer {
    ProxyResponse(ProxyResponse),
}

/// One entry of a session's bounded access log.
#[derive(Clone)]
pub struct AccessLogEntry {
    pub method: String,
    pub uri: String,
    pub status: u16,
    pub dur_ms: u128,
}

/// A request envelope for the alternative framed transport, with the body
/// held as plain bytes.
#[derive(Clone)]
pub struct RequestEnvelope {
    pub id: u64,
    pub method: String,
    pub uri: String,
    pub headers: Vec<(String, String)>,
    pub body: Vec<u8>,
}

/// A response envelope for the alternative framed transport.
#[derive(Clone)]
pub struct ResponseEnvelope {
    pub id: u64,
    pub status: u16,
    pub headers: Vec<(String, String)>,
    pub body: Vec<u8>,
}

/// A tagged message of the alternative framed transport.
#[derive(Clone)]
pub enum WireMessage {
    Request(RequestEnvelope),
    Response(ResponseEnvelope),
}

/// A transport that drops every message: the placeholder implementation of
/// the alternative transport.
pub struct NullMoq;

impl NullMoq {
    pub fn new() -> NullMoq {
        NullMoq
    }
}

} // verus!
