use webserv_core::{parse_request, Method, ParseError, ParseResult, Version, MAX_HEADERS, MAX_REQUEST_BYTES};

fn format_header(index: usize) -> String {
    let mut header = String::from("X-Test-");
    push_decimal_string(&mut header, index);
    header.push_str(": value\r\n");
    header
}

fn push_decimal_string(output: &mut String, value: usize) {
    if value == 0 {
        output.push('0');
        return;
    }
    let mut digits = [0u8; 20];
    let mut value = value;
    let mut cursor = digits.len();
    while value != 0 {
        cursor -= 1;
        digits[cursor] = b'0' + (value % 10) as u8;
        value /= 10;
    }
    for digit in &digits[cursor..] {
        output.push(*digit as char);
    }
}

fn rejected(input: &[u8]) -> ParseError {
    match parse_request(input) {
        ParseResult::Rejected(error) => error,
        other => panic!("expected a rejection, got {:?}", other),
    }
}

#[test]
fn parses_get_with_query_and_case_insensitive_headers() {
    let request = b"GET /index.html?theme=dark HTTP/1.1\r\nHost: example\r\nX-Test: yes\r\n\r\n";
    let ParseResult::Complete(request) = parse_request(request) else {
        panic!("request should parse");
    };
    assert_eq!(request.method, Method::Get);
    assert_eq!(request.path, "/index.html");
    assert_eq!(request.query, Some("theme=dark"));
    assert_eq!(request.header("host"), Some("example"));
    assert_eq!(request.header("X-TEST"), Some("yes"));
}

#[test]
fn waits_for_the_end_of_headers() {
    assert_eq!(
        parse_request(b"GET / HTTP/1.1\r\nHost: example\r\n"),
        ParseResult::Incomplete
    );
}

#[test]
fn rejects_http11_without_host() {
    assert_eq!(
        parse_request(b"GET / HTTP/1.1\r\n\r\n"),
        ParseResult::Rejected(ParseError::MissingHost)
    );
}

#[test]
fn rejects_path_traversal() {
    assert_eq!(
        parse_request(b"GET /public/../secret HTTP/1.1\r\nHost: example\r\n\r\n"),
        ParseResult::Rejected(ParseError::InvalidTarget)
    );
}

#[test]
fn accepts_head_without_body_semantics_in_parser() {
    let ParseResult::Complete(request) = parse_request(b"HEAD / HTTP/1.0\r\n\r\n") else {
        panic!("request should parse");
    };
    assert_eq!(request.method, Method::Head);
    assert_eq!(request.version, Version::Http10);
}

#[test]
fn bounds_header_count_and_request_size() {
    let mut request = b"GET / HTTP/1.1\r\nHost: example\r\n".to_vec();
    for index in 0..MAX_HEADERS {
        request.extend_from_slice(format_header(index).as_bytes());
    }
    request.extend_from_slice(b"\r\n");
    assert_eq!(
        parse_request(&request),
        ParseResult::Rejected(ParseError::TooManyHeaders)
    );
    assert_eq!(
        parse_request(&vec![b'x'; MAX_REQUEST_BYTES + 1]),
        ParseResult::Rejected(ParseError::TooLarge)
    );
}

#[test]
fn accepts_exactly_the_maximum_number_of_headers() {
    let mut request = b"GET / HTTP/1.1\r\nHost: example\r\n".to_vec();
    for index in 1..MAX_HEADERS {
        request.extend_from_slice(format_header(index).as_bytes());
    }
    request.extend_from_slice(b"\r\n");
    let ParseResult::Complete(request) = parse_request(&request) else {
        panic!("request should parse");
    };
    assert_eq!(request.headers().len(), MAX_HEADERS);
    assert_eq!(request.header("x-test-31"), Some("value"));
}

#[test]
fn an_input_of_exactly_the_maximum_size_is_not_too_large() {
    assert_eq!(parse_request(&vec![b'x'; MAX_REQUEST_BYTES]), ParseResult::Incomplete);
}

#[test]
fn rejects_request_lines_without_three_fields() {
    assert_eq!(rejected(b"GET /\r\n\r\n"), ParseError::InvalidRequestLine);
    assert_eq!(rejected(b"GET / HTTP/1.1 extra\r\nHost: a\r\n\r\n"), ParseError::InvalidRequestLine);
    assert_eq!(rejected(b"GET  / HTTP/1.1\r\nHost: a\r\n\r\n"), ParseError::InvalidRequestLine);
}

#[test]
fn rejects_methods_other_than_get_and_head() {
    assert_eq!(rejected(b"POST / HTTP/1.1\r\nHost: a\r\n\r\n"), ParseError::UnsupportedMethod);
    assert_eq!(rejected(b"get / HTTP/1.1\r\nHost: a\r\n\r\n"), ParseError::UnsupportedMethod);
}

#[test]
fn rejects_unknown_versions_before_looking_at_the_target() {
    assert_eq!(rejected(b"GET / HTTP/2.0\r\nHost: a\r\n\r\n"), ParseError::InvalidVersion);
    assert_eq!(rejected(b"GET nope HTTP/1.2\r\n\r\n"), ParseError::InvalidVersion);
}

#[test]
fn rejects_bad_targets() {
    assert_eq!(rejected(b"GET index.html HTTP/1.0\r\n\r\n"), ParseError::InvalidTarget);
    assert_eq!(rejected(b"GET /a\x00b HTTP/1.0\r\n\r\n"), ParseError::InvalidTarget);
    assert_eq!(rejected(b"GET /\xff HTTP/1.0\r\n\r\n"), ParseError::InvalidTarget);
    assert_eq!(rejected(b"GET /.. HTTP/1.0\r\n\r\n"), ParseError::InvalidTarget);
    let mut long = b"GET /".to_vec();
    long.extend_from_slice(&vec![b'a'; 2048]);
    long.extend_from_slice(b" HTTP/1.0\r\n\r\n");
    assert_eq!(rejected(&long), ParseError::InvalidTarget);
}

#[test]
fn accepts_dots_that_do_not_climb() {
    let ParseResult::Complete(request) = parse_request(b"GET /a/.../b..c/./x HTTP/1.0\r\n\r\n") else {
        panic!("request should parse");
    };
    assert_eq!(request.path, "/a/.../b..c/./x");
    assert_eq!(request.query, None);
}

#[test]
fn splits_the_query_at_the_first_question_mark() {
    let ParseResult::Complete(request) = parse_request("GET /caf\u{e9}?a=1?b HTTP/1.0\r\n\r\n".as_bytes()) else {
        panic!("request should parse");
    };
    assert_eq!(request.path, "/caf\u{e9}");
    assert_eq!(request.query, Some("a=1?b"));
    let ParseResult::Complete(request) = parse_request(b"GET /x? HTTP/1.0\r\n\r\n") else {
        panic!("request should parse");
    };
    assert_eq!(request.query, Some(""));
}

#[test]
fn rejects_bad_header_lines() {
    assert_eq!(rejected(b"GET / HTTP/1.1\r\nHost example\r\n\r\n"), ParseError::InvalidHeader);
    assert_eq!(rejected(b"GET / HTTP/1.1\r\nBad Name: x\r\n\r\n"), ParseError::InvalidHeader);
    assert_eq!(rejected(b"GET / HTTP/1.1\r\n: x\r\n\r\n"), ParseError::InvalidHeader);
    assert_eq!(rejected(b"GET / HTTP/1.1\r\nHost: \xc3\r\n\r\n"), ParseError::InvalidHeader);
}

#[test]
fn trims_unicode_whitespace_around_header_values() {
    let input = "GET / HTTP/1.1\r\nHost:\u{a0} example \t\r\nX-Empty:   \r\n\r\n";
    let ParseResult::Complete(request) = parse_request(input.as_bytes()) else {
        panic!("request should parse");
    };
    assert_eq!(request.header("HOST"), Some("example"));
    assert_eq!(request.header("x-empty"), Some(""));
    assert_eq!(request.header("missing"), None);
}

#[test]
fn returns_the_first_of_repeated_headers_and_lists_all_in_order() {
    let input = b"GET / HTTP/1.1\r\nHost: one\r\nX-A: 1\r\nhost: two\r\n\r\n";
    let ParseResult::Complete(request) = parse_request(input) else {
        panic!("request should parse");
    };
    assert_eq!(request.header("Host"), Some("one"));
    assert_eq!(
        request.headers(),
        vec![("Host", "one"), ("X-A", "1"), ("host", "two")]
    );
}

#[test]
fn accepts_bare_lf_line_endings_after_the_first_blank_line() {
    let input = b"GET / HTTP/1.1\nHost: a\n\n\r\n\r\n";
    let ParseResult::Complete(request) = parse_request(input) else {
        panic!("request should parse");
    };
    assert_eq!(request.header("host"), Some("a"));
}

#[test]
fn ignores_bytes_after_the_header_block() {
    let head = b"GET /x HTTP/1.1\r\nHost: example\r\n\r\n".to_vec();
    let mut with_body = head.clone();
    with_body.extend_from_slice(b"garbage \x00\xff without end");
    assert_eq!(parse_request(&head), parse_request(&with_body));
    let bad = b"BREW /x HTTP/1.1\r\n\r\n".to_vec();
    let mut bad_more = bad.clone();
    bad_more.extend_from_slice(b"Host: a\r\n\r\n");
    assert_eq!(parse_request(&bad_more), ParseResult::Rejected(ParseError::UnsupportedMethod));
}

#[test]
fn incomplete_until_a_blank_line_appears() {
    assert_eq!(parse_request(b""), ParseResult::Incomplete);
    assert_eq!(parse_request(b"GET / HTTP/1.0\r\n\r"), ParseResult::Incomplete);
    assert_eq!(parse_request(b"GET / HTTP/1.0\n\n"), ParseResult::Incomplete);
    assert!(matches!(parse_request(b"GET / HTTP/1.0\r\n\r\n"), ParseResult::Complete(_)));
}
