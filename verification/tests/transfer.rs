use webserv_core::service::{
    announced_len, appended_len, rejection_response, request_complete, send_chunk_len,
    BAD_REQUEST_BODY, METHOD_BODY,
};
use webserv_core::{parse_request, ParseResult, Status};

#[test]
fn refused_and_unfinished_requests_get_an_answer() {
    assert_eq!(
        rejection_response(&parse_request(b"GET / HTTP/1.1\r\n")),
        Some((Status::BadRequest, BAD_REQUEST_BODY))
    );
    assert_eq!(
        rejection_response(&parse_request(b"PUT / HTTP/1.1\r\n\r\n")),
        Some((Status::MethodNotAllowed, METHOD_BODY))
    );
    let complete = parse_request(b"GET / HTTP/1.0\r\n\r\n");
    assert!(matches!(complete, ParseResult::Complete(_)));
    assert_eq!(rejection_response(&complete), None);
}

#[test]
fn receiving_stops_once_a_request_is_complete() {
    assert!(!request_complete(b"GET / HTTP/1.0\r\n"));
    assert!(request_complete(b"GET / HTTP/1.0\r\n\r\n"));
    assert!(!request_complete(b"GET / HTTP/1.1\r\n\r\n"));
}

#[test]
fn receive_lengths_use_the_low_word_and_the_window() {
    assert_eq!(announced_len(512, 16000), 512);
    assert_eq!(announced_len(0xffff_0000_0000_0200, 16000), 512);
    assert_eq!(announced_len(20000, 16000), 16000);
    assert_eq!(announced_len(0, 16000), 0);
}

#[test]
fn appended_lengths_respect_the_buffer() {
    assert_eq!(appended_len(10, 5, 16), Some(15));
    assert_eq!(appended_len(10, 6, 16), Some(16));
    assert_eq!(appended_len(10, 7, 16), None);
    assert_eq!(appended_len(usize::MAX, 1, usize::MAX), None);
}

#[test]
fn send_chunks_are_capped_at_the_window() {
    assert_eq!(send_chunk_len(100, 16000), 100);
    assert_eq!(send_chunk_len(16000, 16000), 16000);
    assert_eq!(send_chunk_len(40000, 16000), 16000);
}
