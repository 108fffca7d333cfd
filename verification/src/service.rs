//! The static-file service's decisions that involve no I/O: the answer to
//! a refused request, the file a request path names, and the response
//! that carries a file.

use vstd::prelude::*;

use crate::request::{parse_request, spec_parse_request, Method, ParseError, ParseOutcome, ParseResult};
use crate::response::{
    encode_head_response, encode_response, response_head, text, Status,
};
use crate::scan::bytes_equal;

verus! {

/// Body of the response for a file that cannot be read.
pub const NOT_FOUND_BODY: &'static str = "not found\n";

/// Body of the response for a request that cannot be served.
pub const BAD_REQUEST_BODY: &'static str = "bad request\n";

/// Body of the response for a method other than GET and HEAD.
pub const METHOD_BODY: &'static str = "method not allowed\n";

/// The status that answers a refused request.
pub open spec fn rejection_status(error: ParseError) -> Status {
    match error {
        ParseError::TooLarge | ParseError::TooManyHeaders => Status::RequestHeaderFieldsTooLarge,
        ParseError::UnsupportedMethod => Status::MethodNotAllowed,
        _ => Status::BadRequest,
    }
}

/// The body that answers a refused request.
pub open spec fn rejection_body(error: ParseError) -> &'static str {
    match error {
        ParseError::UnsupportedMethod => METHOD_BODY,
        _ => BAD_REQUEST_BODY,
    }
}

/// Status and plain-text body of the answer to a refused request: oversized
/// requests get 431, unsupported methods 405, everything else 400.
pub fn error_response(error: ParseError) -> (res: (Status, &'static str))
    ensures
        res.0 == rejection_status(error),
        res.1@ == rejection_body(error)@,
{
    match error {
        ParseError::TooLarge | ParseError::TooManyHeaders => (
            Status::RequestHeaderFieldsTooLarge,
            BAD_REQUEST_BODY,
        ),
        ParseError::UnsupportedMethod => (Status::MethodNotAllowed, METHOD_BODY),
        _ => (Status::BadRequest, BAD_REQUEST_BODY),
    }
}

/// `s` ends with `suffix`.
pub open spec fn ends_with(s: Seq<u8>, suffix: Seq<u8>) -> bool {
    &&& suffix.len() <= s.len()
    &&& s.skip(s.len() - suffix.len()) == suffix
}

fn has_suffix(s: &[u8], suffix: &[u8]) -> (res: bool)
    ensures
        res == ends_with(s@, suffix@),
{
    if suffix.len() > s.len() {
        return false;
    }
    let start = s.len() - suffix.len();
    let tail = &s[start..s.len()];
    assert(tail@ == s@.skip(start as int));
    bytes_equal(tail, suffix)
}

/// The media type served for a file, by the extension of its path.
pub open spec fn content_type_of(path: Seq<u8>) -> &'static str {
    if ends_with(path, text(".html")) {
        "text/html; charset=utf-8"
    } else if ends_with(path, text(".css")) {
        "text/css; charset=utf-8"
    } else if ends_with(path, text(".js")) {
        "text/javascript; charset=utf-8"
    } else if ends_with(path, text(".json")) {
        "application/json"
    } else {
        "application/octet-stream"
    }
}

/// The media type served for the file at `path`.
pub fn content_type(path: &str) -> (res: &'static str)
    ensures
        res@ == content_type_of(text(path))@,
{
    let bytes = path.as_bytes();
    if has_suffix(bytes, ".html".as_bytes()) {
        "text/html; charset=utf-8"
    } else if has_suffix(bytes, ".css".as_bytes()) {
        "text/css; charset=utf-8"
    } else if has_suffix(bytes, ".js".as_bytes()) {
        "text/javascript; charset=utf-8"
    } else if has_suffix(bytes, ".json".as_bytes()) {
        "application/json"
    } else {
        "application/octet-stream"
    }
}

/// The file that a request path names: the root stands for its index page.
pub fn file_path<'a>(path: &'a str) -> (res: &'a str)
    ensures
        text(path) == text("/") ==> res@ == "/index.html"@,
        text(path) != text("/") ==> res@ == path@,
{
    if bytes_equal(path.as_bytes(), "/".as_bytes()) {
        "/index.html"
    } else {
        path
    }
}

/// The response that serves the file at `path` with contents `body`: the
/// whole file for GET, only its status line and headers for HEAD.
pub fn file_response(method: Method, path: &str, body: &[u8]) -> (res: Vec<u8>)
    ensures
        res@ == match method {
            Method::Get => response_head(
                Status::Okay,
                text(content_type_of(text(path))),
                body@.len(),
            ) + body@,
            Method::Head => response_head(
                Status::Okay,
                text(content_type_of(text(path))),
                body@.len(),
            ),
        },
{
    let content_type = content_type(path);
    match method {
        Method::Get => encode_response(Status::Okay, content_type, body),
        Method::Head => encode_head_response(Status::Okay, content_type, body.len()),
    }
}

/// The answer owed to a request that will not be served from a file: none
/// for a complete request; 400 for one that never completed; the answer to
/// its refusal otherwise.
pub fn rejection_response(result: &ParseResult) -> (res: Option<(Status, &'static str)>)
    ensures
        match result@ {
            ParseOutcome::Complete(_) => res is None,
            ParseOutcome::Incomplete => res matches Some((status, body)) && status
                == Status::BadRequest && body@ == BAD_REQUEST_BODY@,
            ParseOutcome::Rejected(e) => res matches Some((status, body)) && status
                == rejection_status(e) && body@ == rejection_body(e)@,
        },
{
    match result {
        ParseResult::Complete(_) => None,
        ParseResult::Incomplete => Some((Status::BadRequest, BAD_REQUEST_BODY)),
        ParseResult::Rejected(error) => Some(error_response(*error)),
    }
}

/// Whether the bytes received so far hold a complete request, so that
/// receiving can stop.
pub fn request_complete(received: &[u8]) -> (res: bool)
    ensures
        res == spec_parse_request(received@) is Complete,
{
    match parse_request(received) {
        ParseResult::Complete(_) => true,
        _ => false,
    }
}

/// The length of the data that a receive reply announces: the low 32 bits
/// of the packed reply word, capped at the payload window.
pub fn announced_len(packed: u64, max_payload: usize) -> (res: usize)
    ensures
        res as int == if (packed as int) % 0x1_0000_0000 < max_payload as int {
            (packed as int) % 0x1_0000_0000
        } else {
            max_payload as int
        },
{
    assert((packed as u32) as u64 == packed % 0x1_0000_0000) by (bit_vector);
    let low = #[verifier::truncate] (packed as u32);
    let count = low as usize;
    if count < max_payload {
        count
    } else {
        max_payload
    }
}

/// The length of the buffered request once `count` more bytes are added, if
/// they fit in `capacity`.
pub fn appended_len(len: usize, count: usize, capacity: usize) -> (res: Option<usize>)
    ensures
        res == if len + count <= capacity {
            Some((len + count) as usize)
        } else {
            None::<usize>
        },
{
    match len.checked_add(count) {
        Some(total) => if total > capacity {
            None
        } else {
            Some(total)
        },
        None => None,
    }
}

/// The size of the next piece of a response to hand to the network: what
/// is left, capped at the payload window.
pub fn send_chunk_len(remaining: usize, max_payload: usize) -> (res: usize)
    ensures
        res == if remaining < max_payload {
            remaining
        } else {
            max_payload
        },
{
    if remaining < max_payload {
        remaining
    } else {
        max_payload
    }
}

} // verus!
