//! Parsing of one HTTP/1.x request header block.

use vstd::prelude::*;
use vstd::utf8::{decode_utf8, encode_utf8, valid_utf8};

use crate::scan::{
    bytes_equal, find_header_end, header_end, index_of, lemma_index_of, lemma_split_on, position,
    split_on, trim_cr, without_cr,
};
use crate::text::{
    bytes_eq_ignore_ascii_case, eq_ignore_ascii_case, is_header_name, is_safe_path,
    lemma_boundary_after_ascii, lemma_decoded, safe_path, str_from_utf8, str_trim, trim,
    valid_header_name,
};

verus! {

/// Maximum request header block accepted by the first server slice.
pub const MAX_REQUEST_BYTES: usize = 16 * 1024;

/// Maximum request-target length accepted by the first server slice.
pub const MAX_TARGET_BYTES: usize = 2048;

/// Maximum number of request headers retained by the first server slice.
pub const MAX_HEADERS: usize = 32;

/// A request parsing result. Incomplete input is distinct from malformed input
/// so a socket adapter can wait for more bytes without treating a slow client
/// as hostile.
#[derive(Debug, PartialEq, Eq)]
pub enum ParseResult<'a> {
    Complete(Request<'a>),
    Incomplete,
    Rejected(ParseError),
}

/// HTTP request parsing failure.
#[derive(Debug, Clone, Copy, PartialEq, Eq, Structural)]
pub enum ParseError {
    TooLarge,
    InvalidRequestLine,
    UnsupportedMethod,
    InvalidTarget,
    InvalidVersion,
    TooManyHeaders,
    InvalidHeader,
    MissingHost,
}

/// Methods supported by the first static-file server slice.
#[derive(Debug, Clone, Copy, PartialEq, Eq, Structural)]
pub enum Method {
    Get,
    Head,
}

/// An HTTP version accepted by the parser.
#[derive(Debug, Clone, Copy, PartialEq, Eq, Structural)]
pub enum Version {
    Http10,
    Http11,
}

/// Borrowed HTTP request. Header names are compared case-insensitively by
/// [`Request::header`].
#[derive(Debug, PartialEq, Eq)]
pub struct Request<'a> {
    pub method: Method,
    /// The path component only; query text is intentionally retained in
    /// `query` rather than being passed to filesystem lookup.
    pub path: &'a str,
    pub query: Option<&'a str>,
    pub version: Version,
    headers: Vec<Header<'a>>,
}

#[derive(Debug, PartialEq, Eq)]
struct Header<'a> {
    name: &'a str,
    value: &'a str,
}

/// A request as values: the characters of its path, query and headers.
pub struct RequestView {
    pub method: Method,
    pub path: Seq<char>,
    pub query: Option<Seq<char>>,
    pub version: Version,
    /// Name and value of each header, in the order of the request.
    pub headers: Seq<(Seq<char>, Seq<char>)>,
}

/// What parsing an input yields, as values.
pub enum ParseOutcome {
    Complete(RequestView),
    Incomplete,
    Rejected(ParseError),
}

/// The characters of an optional string slice.
pub open spec fn opt_view(s: Option<&str>) -> Option<Seq<char>> {
    match s {
        Some(t) => Some(t@),
        None => None,
    }
}

spec fn headers_view(headers: Seq<Header>) -> Seq<(Seq<char>, Seq<char>)> {
    headers.map_values(|h: Header| (h.name@, h.value@))
}

impl<'a> View for Request<'a> {
    type V = RequestView;

    closed spec fn view(&self) -> RequestView {
        RequestView {
            method: self.method,
            path: self.path@,
            query: opt_view(self.query),
            version: self.version,
            headers: headers_view(self.headers@),
        }
    }
}

impl<'a> View for ParseResult<'a> {
    type V = ParseOutcome;

    open spec fn view(&self) -> ParseOutcome {
        match self {
            ParseResult::Complete(r) => ParseOutcome::Complete(r@),
            ParseResult::Incomplete => ParseOutcome::Incomplete,
            ParseResult::Rejected(e) => ParseOutcome::Rejected(*e),
        }
    }
}

/// The method that a request-line token names.
pub open spec fn method_of(token: Seq<u8>) -> Option<Method> {
    if token == encode_utf8("GET"@) {
        Some(Method::Get)
    } else if token == encode_utf8("HEAD"@) {
        Some(Method::Head)
    } else {
        None
    }
}

/// The protocol version that a request-line token names.
pub open spec fn version_of(token: Seq<u8>) -> Option<Version> {
    if token == encode_utf8("HTTP/1.0"@) {
        Some(Version::Http10)
    } else if token == encode_utf8("HTTP/1.1"@) {
        Some(Version::Http11)
    } else {
        None
    }
}

/// A header's name is `name`, ignoring ASCII case.
pub open spec fn name_matches(header: (Seq<char>, Seq<char>), name: Seq<u8>) -> bool {
    eq_ignore_ascii_case(encode_utf8(header.0), name)
}

/// Some header is named `name`, ignoring ASCII case.
pub open spec fn has_header(headers: Seq<(Seq<char>, Seq<char>)>, name: Seq<u8>) -> bool {
    exists|k: int| 0 <= k < headers.len() && name_matches(#[trigger] headers[k], name)
}

/// The value of the first header named `name`, ignoring ASCII case.
pub open spec fn header_value(headers: Seq<(Seq<char>, Seq<char>)>, name: Seq<u8>) -> Option<
    Seq<char>,
>
    decreases headers.len(),
{
    if headers.len() == 0 {
        None
    } else if name_matches(headers[0], name) {
        Some(headers[0].1)
    } else {
        header_value(headers.drop_first(), name)
    }
}

/// Path and query of a request target: the characters before the first `?`
/// and, if there is one, those after it.
pub open spec fn parse_target(target: Seq<u8>) -> Result<(Seq<char>, Option<Seq<char>>), ParseError> {
    if target.len() == 0 || target.len() > MAX_TARGET_BYTES || target[0] != 47u8 {
        Err(ParseError::InvalidTarget)
    } else if !valid_utf8(target) {
        Err(ParseError::InvalidTarget)
    } else {
        let path = match index_of(target, 63u8) {
            Some(q) => target.take(q),
            None => target,
        };
        if path.len() == 0 || !is_safe_path(path) {
            Err(ParseError::InvalidTarget)
        } else {
            Ok(
                (
                    decode_utf8(path),
                    match index_of(target, 63u8) {
                        Some(q) => Some(decode_utf8(target.skip(q + 1))),
                        None => None,
                    },
                ),
            )
        }
    }
}

/// The headers of the header lines `lines`, appended to `headers`: empty
/// lines are skipped, and each other line is a name, a colon and a value,
/// whose surrounding whitespace is dropped.
pub open spec fn parse_header_lines(
    lines: Seq<Seq<u8>>,
    headers: Seq<(Seq<char>, Seq<char>)>,
) -> Result<Seq<(Seq<char>, Seq<char>)>, ParseError>
    decreases lines.len(),
{
    if lines.len() == 0 {
        Ok(headers)
    } else {
        let line = without_cr(lines[0]);
        if line.len() == 0 {
            parse_header_lines(lines.drop_first(), headers)
        } else {
            match index_of(line, 58u8) {
                None => Err(ParseError::InvalidHeader),
                Some(colon) => {
                    let name = line.take(colon);
                    let value = line.skip(colon + 1);
                    if headers.len() == MAX_HEADERS {
                        Err(ParseError::TooManyHeaders)
                    } else if !valid_utf8(name) || !is_header_name(name) {
                        Err(ParseError::InvalidHeader)
                    } else if !valid_utf8(value) {
                        Err(ParseError::InvalidHeader)
                    } else {
                        parse_header_lines(
                            lines.drop_first(),
                            headers.push((decode_utf8(name), trim(decode_utf8(value)))),
                        )
                    }
                },
            }
        }
    }
}

/// What a request with these request-line fields parses to, given the
/// result of parsing its header lines: an HTTP/1.1 request must name a host.
pub open spec fn finish_request(
    method: Method,
    version: Version,
    path: Seq<char>,
    query: Option<Seq<char>>,
    headers: Result<Seq<(Seq<char>, Seq<char>)>, ParseError>,
) -> ParseOutcome {
    match headers {
        Err(e) => ParseOutcome::Rejected(e),
        Ok(headers) => {
            if version == Version::Http11 && !has_header(headers, encode_utf8("host"@)) {
                ParseOutcome::Rejected(ParseError::MissingHost)
            } else {
                ParseOutcome::Complete(RequestView { method, path, query, version, headers })
            }
        },
    }
}

/// What a complete header block `head` parses to. Its lines are separated
/// by LF, each may end in CR; the first is the request line, of exactly three
/// space-separated fields: method, target and version.
pub open spec fn parse_head(head: Seq<u8>) -> ParseOutcome {
    let lines = split_on(head, 10u8);
    let fields = split_on(without_cr(lines[0]), 32u8);
    if fields.len() != 3 {
        ParseOutcome::Rejected(ParseError::InvalidRequestLine)
    } else {
        match method_of(fields[0]) {
            None => ParseOutcome::Rejected(ParseError::UnsupportedMethod),
            Some(method) => match version_of(fields[2]) {
                None => ParseOutcome::Rejected(ParseError::InvalidVersion),
                Some(version) => match parse_target(fields[1]) {
                    Err(e) => ParseOutcome::Rejected(e),
                    Ok((path, query)) => finish_request(
                        method,
                        version,
                        path,
                        query,
                        parse_header_lines(lines.drop_first(), seq![]),
                    ),
                },
            },
        }
    }
}

/// What parsing `input` yields: too large beyond `MAX_REQUEST_BYTES`,
/// incomplete until a blank line ends the header block, and otherwise what
/// that block parses to; bytes after the block are not read.
pub open spec fn spec_parse_request(input: Seq<u8>) -> ParseOutcome {
    if input.len() > MAX_REQUEST_BYTES {
        ParseOutcome::Rejected(ParseError::TooLarge)
    } else {
        match header_end(input) {
            None => ParseOutcome::Incomplete,
            Some(end) => parse_head(input.take(end)),
        }
    }
}

/// The first header named `name` holds the value that `header_value` finds.
pub proof fn lemma_header_value_found(
    headers: Seq<(Seq<char>, Seq<char>)>,
    name: Seq<u8>,
    i: int,
)
    requires
        0 <= i < headers.len(),
        name_matches(headers[i], name),
        forall|j: int| 0 <= j < i ==> !name_matches(#[trigger] headers[j], name),
    ensures
        header_value(headers, name) == Some(headers[i].1),
    decreases i,
{
    if i > 0 {
        assert(!name_matches(headers[0], name));
        let rest = headers.drop_first();
        assert forall|j: int| 0 <= j < i - 1 implies !name_matches(#[trigger] rest[j], name) by {
            assert(rest[j] == headers[j + 1]);
        }
        lemma_header_value_found(rest, name, i - 1);
    }
}

/// Without a header named `name` there is no value for it.
pub proof fn lemma_header_value_absent(headers: Seq<(Seq<char>, Seq<char>)>, name: Seq<u8>)
    requires
        forall|j: int| 0 <= j < headers.len() ==> !name_matches(#[trigger] headers[j], name),
    ensures
        header_value(headers, name) is None,
    decreases headers.len(),
{
    if headers.len() > 0 {
        let rest = headers.drop_first();
        assert forall|j: int| 0 <= j < rest.len() implies !name_matches(#[trigger] rest[j], name) by {
            assert(rest[j] == headers[j + 1]);
        }
        lemma_header_value_absent(rest, name);
    }
}

/// Index of the first header named `name`, ignoring ASCII case.
fn find_header(headers: &Vec<Header>, name: &[u8]) -> (res: Option<usize>)
    ensures
        match res {
            Some(i) => i < headers@.len() && name_matches(headers_view(headers@)[i as int], name@)
                && forall|j: int|
                0 <= j < i ==> !name_matches(#[trigger] headers_view(headers@)[j], name@),
            None => forall|j: int|
                0 <= j < headers@.len() ==> !name_matches(
                    #[trigger] headers_view(headers@)[j],
                    name@,
                ),
        },
{
    let mut i: usize = 0;
    while i < headers.len()
        invariant
            i <= headers@.len(),
            forall|j: int|
                0 <= j < i ==> !name_matches(#[trigger] headers_view(headers@)[j], name@),
        decreases headers.len() - i,
    {
        if bytes_eq_ignore_ascii_case(headers[i].name.as_bytes(), name) {
            return Some(i);
        }
        i = i + 1;
    }
    None
}

impl<'a> Request<'a> {
    /// Find a header by ASCII case-insensitive name.
    pub fn header(&self, name: &str) -> (res: Option<&'a str>)
        ensures
            opt_view(res) == header_value(self@.headers, encode_utf8(name@)),
    {
        let key = name.as_bytes();
        match find_header(&self.headers, key) {
            Some(i) => {
                proof {
                    lemma_header_value_found(headers_view(self.headers@), key@, i as int);
                }
                Some(self.headers[i].value)
            },
            None => {
                proof {
                    lemma_header_value_absent(headers_view(self.headers@), key@);
                }
                None
            },
        }
    }

    /// The parsed headers, as (name, value) pairs in request order.
    pub fn headers(&self) -> (res: Vec<(&'a str, &'a str)>)
        ensures
            res@.len() == self@.headers.len(),
            forall|i: int|
                0 <= i < res@.len() ==> (#[trigger] res@[i].0@, res@[i].1@) == self@.headers[i],
    {
        let mut out: Vec<(&'a str, &'a str)> = Vec::new();
        let mut i: usize = 0;
        while i < self.headers.len()
            invariant
                i <= self.headers@.len(),
                out@.len() == i,
                forall|j: int|
                    0 <= j < i ==> (#[trigger] out@[j].0@, out@[j].1@) == headers_view(
                        self.headers@,
                    )[j],
            decreases self.headers.len() - i,
        {
            out.push((self.headers[i].name, self.headers[i].value));
            i = i + 1;
        }
        out
    }
}

/// Splits a request line into exactly three space-separated fields.
fn split_request_line<'a>(line: &'a [u8]) -> (res: Option<(&'a [u8], &'a [u8], &'a [u8])>)
    ensures
        match res {
            Some((m, t, v)) => {
                let fields = split_on(line@, 32u8);
                &&& fields.len() == 3
                &&& m@ == fields[0]
                &&& t@ == fields[1]
                &&& v@ == fields[2]
            },
            None => split_on(line@, 32u8).len() != 3,
        },
{
    proof {
        lemma_split_on(line@, 32u8);
        lemma_index_of(line@, 32u8);
    }
    let i = match position(line, 32) {
        Some(i) => i,
        None => return None,
    };
    assert(i < line.len());
    let rest = &line[i + 1..line.len()];
    assert(rest@ == line@.skip(i + 1));
    proof {
        lemma_split_on(rest@, 32u8);
        lemma_index_of(rest@, 32u8);
    }
    let j = match position(rest, 32) {
        Some(j) => j,
        None => return None,
    };
    assert(j < rest.len());
    let tail = &rest[j + 1..rest.len()];
    assert(tail@ == rest@.skip(j + 1));
    proof {
        lemma_split_on(tail@, 32u8);
        lemma_index_of(tail@, 32u8);
        if let Some(k) = index_of(tail@, 32u8) {
            lemma_split_on(tail@.skip(k + 1), 32u8);
        }
    }
    match position(tail, 32) {
        Some(_) => return None,
        None => {},
    }
    let ghost fields = split_on(line@, 32u8);
    assert(fields[1] == split_on(rest@, 32u8)[0]);
    assert(fields[2] == split_on(rest@, 32u8).drop_first()[0]);
    Some((&line[0..i], &rest[0..j], tail))
}

/// The method a request-line token names.
fn parse_method(token: &[u8]) -> (res: Option<Method>)
    ensures
        res == method_of(token@),
{
    if bytes_equal(token, "GET".as_bytes()) {
        Some(Method::Get)
    } else if bytes_equal(token, "HEAD".as_bytes()) {
        Some(Method::Head)
    } else {
        None
    }
}

/// The protocol version a request-line token names.
fn parse_version(token: &[u8]) -> (res: Option<Version>)
    ensures
        res == version_of(token@),
{
    if bytes_equal(token, "HTTP/1.0".as_bytes()) {
        Some(Version::Http10)
    } else if bytes_equal(token, "HTTP/1.1".as_bytes()) {
        Some(Version::Http11)
    } else {
        None
    }
}

/// Splits a request target into its path and optional query.
fn split_target<'a>(target: &'a [u8]) -> (res: Result<(&'a str, Option<&'a str>), ParseError>)
    ensures
        match res {
            Ok((path, query)) => parse_target(target@) == Ok::<
                (Seq<char>, Option<Seq<char>>),
                ParseError,
            >((path@, opt_view(query))),
            Err(e) => parse_target(target@) == Err::<(Seq<char>, Option<Seq<char>>), ParseError>(
                e,
            ),
        },
{
    if target.len() == 0 || target.len() > MAX_TARGET_BYTES || target[0] != 47 {
        return Err(ParseError::InvalidTarget);
    }
    let whole = match str_from_utf8(target) {
        Some(s) => s,
        None => return Err(ParseError::InvalidTarget),
    };
    proof {
        lemma_decoded(whole@, target@);
        lemma_index_of(target@, 63u8);
    }
    let (path, query) = match position(target, 63) {
        Some(q) => {
            proof {
                lemma_boundary_after_ascii(target@, q as int);
            }
            let (path, _) = whole.split_at(q);
            let (_, query) = whole.split_at(q + 1);
            proof {
                lemma_decoded(path@, target@.take(q as int));
                lemma_decoded(query@, target@.skip(q + 1));
            }
            (path, Some(query))
        },
        None => (whole, None),
    };
    if path.len() == 0 || !safe_path(path) {
        return Err(ParseError::InvalidTarget);
    }
    Ok((path, query))
}

/// The header lines that follow the line before `rest`: none once `more`
/// is false.
spec fn remaining_lines(rest: Seq<u8>, more: bool) -> Seq<Seq<u8>> {
    if more {
        split_on(rest, 10u8)
    } else {
        seq![]
    }
}

/// Splits `s` at its first LF: the line before it, what follows it, and
/// whether there was one.
fn next_line<'a>(s: &'a [u8]) -> (res: (&'a [u8], &'a [u8], bool))
    ensures
        split_on(s@, 10u8) == seq![res.0@] + remaining_lines(res.1@, res.2),
        res.2 ==> res.1@.len() < s@.len(),
        !res.2 ==> res.1@ == s@,
{
    proof {
        lemma_index_of(s@, 10u8);
        lemma_split_on(s@, 10u8);
    }
    match position(s, 10) {
        Some(i) => {
            assert(i < s.len());
            let line = &s[0..i];
            let rest = &s[i + 1..s.len()];
            assert(rest@ == s@.skip(i + 1));
            let ghost pieces = split_on(s@, 10u8);
            assert(pieces =~= seq![pieces[0]] + pieces.drop_first());
            (line, rest, true)
        },
        None => {
            assert(split_on(s@, 10u8) =~= seq![s@] + remaining_lines(s@, false));
            (s, s, false)
        },
    }
}

/// Parses a complete header block.
fn parse_block<'a>(head: &'a [u8]) -> (res: ParseResult<'a>)
    ensures
        res@ == parse_head(head@),
{
    let (first, rest0, more0) = next_line(head);
    let ghost lines = split_on(head@, 10u8);
    assert(lines[0] == first@);
    assert(lines.drop_first() =~= remaining_lines(rest0@, more0));
    let request_line = trim_cr(first);
    let (m, t, v) = match split_request_line(request_line) {
        Some(fields) => fields,
        None => return ParseResult::Rejected(ParseError::InvalidRequestLine),
    };
    let method = match parse_method(m) {
        Some(method) => method,
        None => return ParseResult::Rejected(ParseError::UnsupportedMethod),
    };
    let version = match parse_version(v) {
        Some(version) => version,
        None => return ParseResult::Rejected(ParseError::InvalidVersion),
    };
    let (path, query) = match split_target(t) {
        Ok(parts) => parts,
        Err(e) => return ParseResult::Rejected(e),
    };
    let mut headers: Vec<Header<'a>> = Vec::new();
    let mut rest = rest0;
    let mut more = more0;
    assert(headers_view(headers@) =~= seq![]);
    while more
        invariant
            parse_head(head@) == finish_request(
                method,
                version,
                path@,
                opt_view(query),
                parse_header_lines(remaining_lines(rest@, more), headers_view(headers@)),
            ),
        decreases rest@.len() + (if more {
            1int
        } else {
            0int
        }),
    {
        let (raw, next, next_more) = next_line(rest);
        let ghost lines = remaining_lines(rest@, more);
        assert(lines[0] == raw@);
        assert(lines.drop_first() =~= remaining_lines(next@, next_more));
        let line = trim_cr(raw);
        if line.len() != 0 {
            proof {
                lemma_index_of(line@, 58u8);
            }
            let colon = match position(line, 58) {
                Some(c) => c,
                None => return ParseResult::Rejected(ParseError::InvalidHeader),
            };
            assert(colon < line.len());
            if headers.len() == MAX_HEADERS {
                return ParseResult::Rejected(ParseError::TooManyHeaders);
            }
            let name_bytes = &line[0..colon];
            let name = match str_from_utf8(name_bytes) {
                Some(name) => name,
                None => return ParseResult::Rejected(ParseError::InvalidHeader),
            };
            proof {
                lemma_decoded(name@, name_bytes@);
            }
            if !valid_header_name(name) {
                return ParseResult::Rejected(ParseError::InvalidHeader);
            }
            let value_bytes = &line[colon + 1..line.len()];
            let value = match str_from_utf8(value_bytes) {
                Some(value) => value,
                None => return ParseResult::Rejected(ParseError::InvalidHeader),
            };
            proof {
                lemma_decoded(value@, value_bytes@);
            }
            let value = str_trim(value);
            let ghost before = headers_view(headers@);
            headers.push(Header { name, value });
            assert(headers_view(headers@) =~= before.push((name@, value@)));
        }
        rest = next;
        more = next_more;
    }
    if version == Version::Http11 {
        let found = find_header(&headers, "host".as_bytes());
        if found.is_none() {
            return ParseResult::Rejected(ParseError::MissingHost);
        }
    }
    ParseResult::Complete(Request { method, path, query, version, headers })
}

/// Parse one complete HTTP request header block.
pub fn parse_request(input: &[u8]) -> (res: ParseResult<'_>)
    ensures
        res@ == spec_parse_request(input@),
{
    if input.len() > MAX_REQUEST_BYTES {
        return ParseResult::Rejected(ParseError::TooLarge);
    }
    let end = match find_header_end(input) {
        Some(end) => end,
        None => return ParseResult::Incomplete,
    };
    let head = &input[0..end];
    parse_block(head)
}

} // verus!
