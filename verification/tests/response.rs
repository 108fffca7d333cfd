use webserv_core::service::{
    content_type, error_response, file_path, file_response, BAD_REQUEST_BODY, METHOD_BODY,
    NOT_FOUND_BODY,
};
use webserv_core::{encode_head_response, encode_response, Method, ParseError, Status};

#[test]
fn encodes_status_headers_and_body() {
    let response = encode_response(Status::Okay, "text/plain; charset=utf-8", b"hello");
    assert!(response.starts_with(b"HTTP/1.1 200 OK\r\n"));
    assert!(response
        .windows(19)
        .any(|window| window == b"Content-Length: 5\r\n"));
    assert!(response.ends_with(b"\r\n\r\nhello"));
}

#[test]
fn encodes_head_without_body_and_keeps_get_length() {
    let response = encode_head_response(Status::Okay, "text/plain", 5);
    assert!(response
        .windows(19)
        .any(|window| window == b"Content-Length: 5\r\n"));
    assert!(response.ends_with(b"\r\n\r\n"));
}

#[test]
fn encodes_the_exact_response_bytes() {
    let response = encode_response(Status::NotFound, "text/plain", b"not found\n");
    assert_eq!(
        response,
        b"HTTP/1.1 404 Not Found\r\nContent-Length: 10\r\nContent-Type: text/plain\r\nConnection: close\r\n\r\nnot found\n".to_vec()
    );
    let empty = encode_response(Status::InternalServerError, "", b"");
    assert_eq!(
        empty,
        b"HTTP/1.1 500 Internal Server Error\r\nContent-Length: 0\r\nContent-Type: \r\nConnection: close\r\n\r\n".to_vec()
    );
}

#[test]
fn renders_large_content_lengths_in_decimal() {
    let response = encode_head_response(Status::Okay, "a", 1234567890);
    assert!(response.windows(28).any(|w| w == b"Content-Length: 1234567890\r\n"));
    let response = encode_head_response(Status::Okay, "a", usize::MAX);
    let expected = format!("Content-Length: {}\r\n", usize::MAX);
    assert!(response
        .windows(expected.len())
        .any(|w| w == expected.as_bytes()));
}

#[test]
fn head_response_is_get_response_without_body() {
    let body = b"<html>hi</html>";
    let get = encode_response(Status::Okay, "text/html; charset=utf-8", body);
    let head = encode_head_response(Status::Okay, "text/html; charset=utf-8", body.len());
    assert_eq!(&get[..head.len()], &head[..]);
    assert_eq!(&get[head.len()..], &body[..]);
}

#[test]
fn status_codes_and_reasons() {
    let cases = [
        (Status::Okay, 200, "200 OK\r\n"),
        (Status::NotFound, 404, "404 Not Found\r\n"),
        (Status::BadRequest, 400, "400 Bad Request\r\n"),
        (Status::MethodNotAllowed, 405, "405 Method Not Allowed\r\n"),
        (
            Status::RequestHeaderFieldsTooLarge,
            431,
            "431 Request Header Fields Too Large\r\n",
        ),
        (Status::InternalServerError, 500, "500 Internal Server Error\r\n"),
    ];
    for (status, code, line) in cases {
        assert_eq!(status.code(), code);
        let response = encode_response(status, "x", b"");
        assert!(response.starts_with(format!("HTTP/1.1 {}", line).as_bytes()));
    }
}

#[test]
fn answers_refused_requests() {
    assert_eq!(
        error_response(ParseError::TooLarge),
        (Status::RequestHeaderFieldsTooLarge, BAD_REQUEST_BODY)
    );
    assert_eq!(
        error_response(ParseError::TooManyHeaders),
        (Status::RequestHeaderFieldsTooLarge, BAD_REQUEST_BODY)
    );
    assert_eq!(
        error_response(ParseError::UnsupportedMethod),
        (Status::MethodNotAllowed, METHOD_BODY)
    );
    for error in [
        ParseError::InvalidRequestLine,
        ParseError::InvalidTarget,
        ParseError::InvalidVersion,
        ParseError::InvalidHeader,
        ParseError::MissingHost,
    ] {
        assert_eq!(error_response(error), (Status::BadRequest, BAD_REQUEST_BODY));
    }
    assert_eq!(BAD_REQUEST_BODY, "bad request\n");
    assert_eq!(METHOD_BODY, "method not allowed\n");
    assert_eq!(NOT_FOUND_BODY, "not found\n");
}

#[test]
fn picks_content_types_by_extension() {
    assert_eq!(content_type("/index.html"), "text/html; charset=utf-8");
    assert_eq!(content_type("/style.css"), "text/css; charset=utf-8");
    assert_eq!(content_type("/app.js"), "text/javascript; charset=utf-8");
    assert_eq!(content_type("/data.json"), "application/json");
    assert_eq!(content_type("/data.JSON"), "application/octet-stream");
    assert_eq!(content_type("/html"), "application/octet-stream");
    assert_eq!(content_type(""), "application/octet-stream");
}

#[test]
fn serves_the_index_for_the_root() {
    assert_eq!(file_path("/"), "/index.html");
    assert_eq!(file_path("/a.css"), "/a.css");
    assert_eq!(file_path("//"), "//");
}

#[test]
fn file_responses_follow_the_method() {
    let get = file_response(Method::Get, "/index.html", b"<p>");
    assert_eq!(
        get,
        b"HTTP/1.1 200 OK\r\nContent-Length: 3\r\nContent-Type: text/html; charset=utf-8\r\nConnection: close\r\n\r\n<p>".to_vec()
    );
    let head = file_response(Method::Head, "/index.html", b"<p>");
    assert_eq!(&get[..get.len() - 3], &head[..]);
}
