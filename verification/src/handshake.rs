//! The HTTP-upgrade handshake: validate the client's key and compute the
//! accept value through the hashing and encoding collaborators.

use vstd::prelude::*;

use base64::Engine;
use sha1::Digest;

verus! {

use vstd::utf8::encode_utf8;
use crate::http::{
    HttpHeader,
    lookup_field,
    spec_parse_http,
    parse_http_header,
    response_101_fields,
    append_bytes,
};
use vstd::string::StrSliceExecFns;

/// The SHA-1 digest of a byte sequence; a function of the input alone.
pub uninterp spec fn sha1_of(msg: Seq<u8>) -> Seq<u8>;

/// The standard Base64 encoding of a byte sequence, with padding; a
/// function of the input alone.
pub uninterp spec fn base64_of(data: Seq<u8>) -> Seq<u8>;

/// Relies on sha1::Sha1::digest: a 20-byte digest computed from the input
/// bytes alone.
#[verifier::external_body]
fn sha1_digest(msg: &Vec<u8>) -> (r: Vec<u8>)
    ensures
        r@ == sha1_of(msg@),
        r@.len() == 20,
{
    sha1::Sha1::digest(msg.as_slice()).to_vec()
}

/// Relies on base64's standard engine: a padded encoding, four ASCII bytes
/// for every started group of three input bytes, computed from the input
/// alone.
#[verifier::external_body]
fn base64_encode(data: &Vec<u8>) -> (r: Vec<u8>)
    ensures
        r@ == base64_of(data@),
        r@.len() == 4 * ((data@.len() + 2) / 3),
{
    base64::engine::general_purpose::STANDARD.encode(data.as_slice()).into_bytes()
}

/// The fixed GUID the accept value concatenates after the client's key.
pub open spec fn ws_guid_bytes() -> Seq<u8> {
    encode_utf8("258EAFA5-E914-47DA-95CA-C5AB0DC85B11"@)
}

/// The accept value owed for a client key: Base64 of SHA-1 of the key
/// followed by the GUID.
pub open spec fn accept_key_of(key: Seq<u8>) -> Seq<u8> {
    base64_of(sha1_of(key + ws_guid_bytes()))
}

pub open spec fn sec_websocket_key_name() -> Seq<u8> {
    encode_utf8("sec-websocket-key"@)
}

pub open spec fn accept_field_name() -> Seq<u8> {
    encode_utf8("Sec-WebSocket-Accept"@)
}

/// The client key a request head offers, provided the head parses and the
/// key has the exact 24 characters of a Base64-encoded 16-byte nonce.
pub open spec fn handshake_key(b: Seq<u8>) -> Option<Seq<u8>> {
    match spec_parse_http(b) {
        None => None,
        Some(h) => match lookup_field(h.fields, sec_websocket_key_name()) {
            Some(v) => if v.len() == 24 {
                Some(v)
            } else {
                None
            },
            None => None,
        },
    }
}

/// Negotiate the upgrade for a raw request head. A request offering a valid
/// key gets the 101 response carrying the owed accept value, and the parsed
/// request head to keep; anything else gets the 400 response.
pub fn handshake_response(buf: &[u8]) -> (r: (HttpHeader, Option<HttpHeader>))
    ensures
        r.0@.request_line == Seq::<u8>::empty(),
        match handshake_key(buf@) {
            Some(k) => {
                &&& r.0@.status == 101
                &&& r.0@.fields == response_101_fields().push((accept_field_name(), accept_key_of(
                    k,
                )))
                &&& r.1 matches Some(h) && spec_parse_http(buf@) == Some(h@)
            },
            None => {
                &&& r.0@.status == 400
                &&& r.0@.fields == Seq::<(Seq<u8>, Seq<u8>)>::empty()
                &&& r.1 is None
            },
        },
{
    let parsed = match parse_http_header(buf) {
        Ok(h) => h,
        Err(()) => {
            return (HttpHeader::response_400(), None);
        },
    };
    let key: Vec<u8> = match parsed.get_field("sec-websocket-key".as_bytes_vec().as_slice()) {
        Some(v) => {
            if v.len() != 24 {
                return (HttpHeader::response_400(), None);
            }
            let mut k: Vec<u8> = Vec::new();
            append_bytes(&mut k, v.as_slice());
            k
        },
        None => {
            return (HttpHeader::response_400(), None);
        },
    };
    let mut request_key: Vec<u8> = key;
    append_bytes(&mut request_key, "258EAFA5-E914-47DA-95CA-C5AB0DC85B11".as_bytes_vec().as_slice());
    let digest = sha1_digest(&request_key);
    let accept = base64_encode(&digest);
    let mut response = HttpHeader::response_101();
    response.insert_field("Sec-WebSocket-Accept".as_bytes_vec(), accept);
    (response, Some(parsed))
}

} // verus!
