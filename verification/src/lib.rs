//! Bounded HTTP/1.1 protocol core for `webserv`: request parsing and
//! response framing over plain byte buffers, with no sockets, files or
//! process state of its own. A service adapter supplies those around it.

pub mod laws;
pub mod request;
pub mod response;
pub mod scan;
pub mod service;
pub mod text;

pub use request::{
    parse_request, Method, ParseError, ParseResult, Request, Version, MAX_HEADERS,
    MAX_REQUEST_BYTES, MAX_TARGET_BYTES,
};
pub use response::{encode_head_response, encode_response, Status};
