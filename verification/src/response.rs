//! Framing of HTTP/1.1 responses: status line, length and type headers,
//! and body.

use vstd::prelude::*;
use vstd::utf8::encode_utf8;

use crate::request::MAX_REQUEST_BYTES;

verus! {

/// HTTP response status.
#[derive(Debug, Clone, Copy, PartialEq, Eq, Structural)]
pub enum Status {
    Okay,
    NotFound,
    BadRequest,
    MethodNotAllowed,
    RequestHeaderFieldsTooLarge,
    InternalServerError,
}

/// The numeric code of a status.
pub open spec fn status_code(status: Status) -> u16 {
    match status {
        Status::Okay => 200,
        Status::NotFound => 404,
        Status::BadRequest => 400,
        Status::MethodNotAllowed => 405,
        Status::RequestHeaderFieldsTooLarge => 431,
        Status::InternalServerError => 500,
    }
}

/// The reason phrase of a status.
pub open spec fn reason_phrase(status: Status) -> &'static str {
    match status {
        Status::Okay => "OK",
        Status::NotFound => "Not Found",
        Status::BadRequest => "Bad Request",
        Status::MethodNotAllowed => "Method Not Allowed",
        Status::RequestHeaderFieldsTooLarge => "Request Header Fields Too Large",
        Status::InternalServerError => "Internal Server Error",
    }
}

impl Status {
    pub fn code(self) -> (res: u16)
        ensures
            res == status_code(self),
    {
        match self {
            Self::Okay => 200,
            Self::NotFound => 404,
            Self::BadRequest => 400,
            Self::MethodNotAllowed => 405,
            Self::RequestHeaderFieldsTooLarge => 431,
            Self::InternalServerError => 500,
        }
    }

    fn reason(self) -> (res: &'static str)
        ensures
            res@ == reason_phrase(self)@,
    {
        match self {
            Self::Okay => "OK",
            Self::NotFound => "Not Found",
            Self::BadRequest => "Bad Request",
            Self::MethodNotAllowed => "Method Not Allowed",
            Self::RequestHeaderFieldsTooLarge => "Request Header Fields Too Large",
            Self::InternalServerError => "Internal Server Error",
        }
    }
}

/// The UTF-8 bytes of a string.
pub open spec fn text(s: &str) -> Seq<u8> {
    encode_utf8(s@)
}

/// The ASCII decimal digits of `n`, most significant first, without
/// leading zeros.
pub open spec fn decimal(n: nat) -> Seq<u8>
    decreases n,
{
    if n < 10 {
        seq![(48 + n) as u8]
    } else {
        decimal(n / 10) + seq![(48 + n % 10) as u8]
    }
}

/// The status line and headers of a response, up to and including the
/// blank line that ends them.
pub open spec fn response_head(status: Status, content_type: Seq<u8>, content_length: nat) -> Seq<
    u8,
> {
    text("HTTP/1.1 ") + decimal(status_code(status) as nat) + text(" ") + text(
        reason_phrase(status),
    ) + text("\r\nContent-Length: ") + decimal(content_length) + text("\r\nContent-Type: ")
        + content_type + text("\r\nConnection: close\r\n\r\n")
}

fn push_text(output: &mut Vec<u8>, s: &str)
    ensures
        final(output)@ == old(output)@ + text(s),
{
    output.extend_from_slice(s.as_bytes());
}

fn push_decimal(output: &mut Vec<u8>, value: u64)
    ensures
        final(output)@ == old(output)@ + decimal(value as nat),
    decreases value,
{
    if value >= 10 {
        push_decimal(output, value / 10);
    }
    output.push(48 + (value % 10) as u8);
}

fn response_headers(status: Status, content_type: &str, content_length: usize) -> (res: Vec<u8>)
    ensures
        res@ == response_head(status, text(content_type), content_length as nat),
{
    let reserve = if content_length < MAX_REQUEST_BYTES {
        content_length
    } else {
        MAX_REQUEST_BYTES
    };
    let mut response = Vec::with_capacity(128 + reserve);
    push_text(&mut response, "HTTP/1.1 ");
    push_decimal(&mut response, status.code() as u64);
    push_text(&mut response, " ");
    push_text(&mut response, status.reason());
    push_text(&mut response, "\r\nContent-Length: ");
    push_decimal(&mut response, content_length as u64);
    push_text(&mut response, "\r\nContent-Type: ");
    push_text(&mut response, content_type);
    push_text(&mut response, "\r\nConnection: close\r\n\r\n");
    response
}

/// Encode a complete HTTP response. The body is omitted for HEAD responses by
/// the caller; this function always emits the supplied bytes and its length.
pub fn encode_response(status: Status, content_type: &str, body: &[u8]) -> (res: Vec<u8>)
    ensures
        res@ == response_head(status, text(content_type), body@.len()) + body@,
{
    let mut response = response_headers(status, content_type, body.len());
    response.extend_from_slice(body);
    response
}

/// Encode a response for a HEAD request. The declared content length is the
/// length the corresponding GET response would have, but no body bytes are
/// emitted.
pub fn encode_head_response(status: Status, content_type: &str, content_length: usize) -> (res:
    Vec<u8>)
    ensures
        res@ == response_head(status, text(content_type), content_length as nat),
{
    response_headers(status, content_type, content_length)
}

} // verus!
