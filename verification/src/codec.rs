//! Body codec for envelope transport: bodies below a size threshold travel
//! as plain base64; larger ones are zlib-compressed first when that is a
//! strict win. Decoding is best-effort and never fails.
use vstd::prelude::*;

verus! {

/// Number of body bytes below which compression is not attempted.
pub const COMPRESS_THRESHOLD: usize = 1024;

/// Standard (padded) base64 text of a byte sequence.
pub uninterp spec fn b64_of(data: Seq<u8>) -> Seq<char>;

/// Standard base64 decoding; `None` on text that is not valid base64.
pub uninterp spec fn b64_decode_of(s: Seq<char>) -> Option<Seq<u8>>;

/// Zlib compression of a byte sequence at the default level.
pub uninterp spec fn deflate_of(data: Seq<u8>) -> Seq<u8>;

/// Zlib decompression; `None` on bytes that are not a valid zlib stream.
pub uninterp spec fn inflate_of(data: Seq<u8>) -> Option<Seq<u8>>;

/// Relies on base64's STANDARD engine: `encode` is a deterministic function
/// of the input bytes, and `decode` of its output restores them.
#[verifier::external_body]
fn b64_encode(data: &[u8]) -> (r: String)
    ensures
        r@ == b64_of(data@),
        b64_decode_of(r@) == Some(data@),
{
    base64::Engine::encode(&base64::engine::general_purpose::STANDARD, data)
}

/// Relies on base64's STANDARD engine `decode`: a deterministic function of
/// the input text that fails exactly on invalid base64.
#[verifier::external_body]
fn b64_decode(s: &str) -> (r: Option<Vec<u8>>)
    ensures
        r is Some <==> b64_decode_of(s@) is Some,
        r is Some ==> r->0@ == b64_decode_of(s@)->0,
{
    base64::Engine::decode(&base64::engine::general_purpose::STANDARD, s).ok()
}

/// Relies on flate2's ZlibEncoder read from a byte slice: the output is
/// the zlib stream for the input and ZlibDecoder restores the input from
/// it. Reading cannot fail, as the only error source is the underlying
/// reader and a byte slice never errors.
#[verifier::external_body]
fn zlib_compress(data: &[u8]) -> (r: Vec<u8>)
    ensures
        r@ == deflate_of(data@),
        inflate_of(r@) == Some(data@),
{
    let mut encoder = flate2::read::ZlibEncoder::new(data, flate2::Compression::default());
    let mut out = Vec::new();
    std::io::Read::read_to_end(&mut encoder, &mut out).unwrap();
    out
}

/// Relies on flate2's ZlibDecoder read from a byte slice: a deterministic
/// decode that fails exactly on input that is not a valid zlib stream.
#[verifier::external_body]
fn zlib_decompress(data: &[u8]) -> (r: Option<Vec<u8>>)
    ensures
        r is Some <==> inflate_of(data@) is Some,
        r is Some ==> r->0@ == inflate_of(data@)->0,
{
    let mut decoder = flate2::read::ZlibDecoder::new(data);
    let mut out = Vec::new();
    match std::io::Read::read_to_end(&mut decoder, &mut out) {
        Ok(_) => Some(out),
        Err(_) => None,
    }
}

/// What a transmitted body decodes back to: base64-decode, then inflate when
/// the compression flag is set, keeping the raw bytes when inflation fails
/// and yielding no bytes when the text is not base64.
pub open spec fn decoded_body_spec(s: Seq<char>, is_compressed: bool) -> Seq<u8> {
    match b64_decode_of(s) {
        None => Seq::<u8>::empty(),
        Some(raw) => if !is_compressed {
            raw
        } else {
            match inflate_of(raw) {
                Some(d) => d,
                None => raw,
            }
        },
    }
}

/// Encode a body for transport. Bodies shorter than the threshold travel
/// uncompressed; longer ones are compressed exactly when the zlib stream is
/// strictly shorter than the raw bytes. Decoding the result restores the
/// input bytes.
pub fn compress_body(data: &[u8]) -> (r: (String, bool))
    ensures
        decoded_body_spec(r.0@, r.1) == data@,
        r.1 <==> data@.len() >= COMPRESS_THRESHOLD && deflate_of(data@).len() < data@.len(),
        r.1 ==> r.0@ == b64_of(deflate_of(data@)),
        !r.1 ==> r.0@ == b64_of(data@),
{
    if data.len() < COMPRESS_THRESHOLD {
        return (b64_encode(data), false);
    }
    let compressed = zlib_compress(data);
    if compressed.len() < data.len() {
        (b64_encode(compressed.as_slice()), true)
    } else {
        (b64_encode(data), false)
    }
}

/// Decode a transported body: base64-decode, then inflate when flagged.
/// Best-effort: invalid base64 yields no bytes and a failed inflation yields
/// the raw decoded bytes; this never fails.
pub fn decompress_body(b64_data: &str, is_compressed: bool) -> (r: Vec<u8>)
    ensures
        r@ == decoded_body_spec(b64_data@, is_compressed),
{
    match b64_decode(b64_data) {
        None => Vec::new(),
        Some(raw) => {
            if !is_compressed {
                raw
            } else {
                match zlib_decompress(raw.as_slice()) {
                    Some(d) => d,
                    None => raw,
                }
            }
        },
    }
}

} // verus!
