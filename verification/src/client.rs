//! The client side of the wire protocol: request bytes and the errors a
//! client surfaces.
//!
//! A client sends each command as an array of simple strings and decodes
//! the single object that comes back with [`crate::object::parse`]; the
//! socket work belongs to the caller.

use vstd::prelude::*;

verus! {

use vstd::utf8::encode_utf8;
use vstd::string::StringExecFns;
use crate::object;
use crate::object::{crlf, push_crlf};

/// What a client call can fail with: a transport failure, or a reply that
/// did not decode.
#[derive(Debug)]
pub enum ClientError {
    Io,
    Object(object::Error),
}

/// The bytes of a `get` request: a two-element array of simple strings.
pub open spec fn get_request_bytes(k: Seq<char>) -> Seq<u8> {
    seq![0x2au8, 0x32u8] + crlf() + seq![0x2bu8, 0x67u8, 0x65u8, 0x74u8] + crlf()
        + seq![0x2bu8] + encode_utf8(k) + crlf()
}

/// The bytes of a `set` request: a three-element array of simple strings.
pub open spec fn set_request_bytes(k: Seq<char>, v: Seq<char>) -> Seq<u8> {
    seq![0x2au8, 0x33u8] + crlf() + seq![0x2bu8, 0x73u8, 0x65u8, 0x74u8] + crlf()
        + seq![0x2bu8] + encode_utf8(k) + crlf() + seq![0x2bu8] + encode_utf8(v) + crlf()
}

/// The bytes of a `remove` request: a two-element array of simple strings.
pub open spec fn remove_request_bytes(k: Seq<char>) -> Seq<u8> {
    seq![0x2au8, 0x32u8] + crlf() + seq![0x2bu8, 0x72u8, 0x65u8, 0x6du8, 0x6fu8, 0x76u8, 0x65u8]
        + crlf() + seq![0x2bu8] + encode_utf8(k) + crlf()
}

/// The request a client sends for `get key`.
pub fn get_request(key: &String) -> (r: Vec<u8>)
    ensures
        r@ == get_request_bytes(key@),
{
    let mut out: Vec<u8> = Vec::new();
    out.push(0x2a);
    out.push(0x32);
    push_crlf(&mut out);
    out.push(0x2b);
    out.push(0x67);
    out.push(0x65);
    out.push(0x74);
    push_crlf(&mut out);
    out.push(0x2b);
    out.extend_from_slice(key.as_str().as_bytes());
    push_crlf(&mut out);
    proof {
        assert(out@ =~= get_request_bytes(key@));
    }
    out
}

/// The request a client sends for `set key value`.
pub fn set_request(key: &String, value: &String) -> (r: Vec<u8>)
    ensures
        r@ == set_request_bytes(key@, value@),
{
    let mut out: Vec<u8> = Vec::new();
    out.push(0x2a);
    out.push(0x33);
    push_crlf(&mut out);
    out.push(0x2b);
    out.push(0x73);
    out.push(0x65);
    out.push(0x74);
    push_crlf(&mut out);
    out.push(0x2b);
    out.extend_from_slice(key.as_str().as_bytes());
    push_crlf(&mut out);
    out.push(0x2b);
    out.extend_from_slice(value.as_str().as_bytes());
    push_crlf(&mut out);
    proof {
        assert(out@ =~= set_request_bytes(key@, value@));
    }
    out
}

/// The request a client sends for `remove key`.
pub fn remove_request(key: &String) -> (r: Vec<u8>)
    ensures
        r@ == remove_request_bytes(key@),
{
    let mut out: Vec<u8> = Vec::new();
    out.push(0x2a);
    out.push(0x32);
    push_crlf(&mut out);
    out.push(0x2b);
    out.push(0x72);
    out.push(0x65);
    out.push(0x6d);
    out.push(0x6f);
    out.push(0x76);
    out.push(0x65);
    push_crlf(&mut out);
    out.push(0x2b);
    out.extend_from_slice(key.as_str().as_bytes());
    push_crlf(&mut out);
    proof {
        assert(out@ =~= remove_request_bytes(key@));
    }
    out
}

} // verus!
