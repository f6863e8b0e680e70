use reqparse::Error;
use reqparse::HttpRequest;
use reqparse::HttpStream;
use reqparse::Method;
use reqparse::Step;

/// Drives one parsing session over `data`, delivering it in chunks of at
/// most `chunk` bytes and marking the stream ended once a read comes up
/// short, as a reader of a finished stream would.
fn parse_all(data: &[u8], chunk: usize) -> Result<HttpRequest, Error> {
    let mut hs = HttpStream::new();
    let mut pos = 0usize;
    loop {
        match hs.parse_request_socket()? {
            Step::Complete(req) => return Ok(req),
            Step::Incomplete => {
                let n = std::cmp::min(chunk, data.len() - pos);
                hs.feed_chunk(&data[pos..pos + n]);
                pos += n;
                if n < chunk {
                    hs.mark_ended();
                }
            }
        }
    }
}

const BASIC: &[u8] = b"POST /wtfrouting HTTP/1.1\r\nContent-Length: 20\r\nHost: localhost:3333\r\n\r\n{\"field\": \"example\"}";

#[test]
fn basic_request() {
    let parsed_request = parse_all(BASIC, 32).unwrap();
    assert_eq!(parsed_request.method, Method::POST);
    assert_eq!(parsed_request.route, "/wtfrouting");
    assert_eq!(
        parsed_request.headers.get(&b"Content-Length".to_vec()),
        Some(&b"20".to_vec())
    );
    assert_eq!(
        parsed_request.headers.get(&b"Host".to_vec()),
        Some(&b"localhost:3333".to_vec())
    );
    assert_eq!(parsed_request.body, "{\"field\": \"example\"}");
}

#[test]
fn fragmentation_invariance() {
    for chunk in [1usize, 2, 3, 5, 7, 13, 26, 31, 64, 1024] {
        let req = parse_all(BASIC, chunk).unwrap();
        assert_eq!(req.method, Method::POST);
        assert_eq!(req.route, "/wtfrouting");
        assert_eq!(
            req.headers.get(&b"Content-Length".to_vec()),
            Some(&b"20".to_vec())
        );
        assert_eq!(
            req.headers.get(&b"Host".to_vec()),
            Some(&b"localhost:3333".to_vec())
        );
        assert_eq!(req.body, "{\"field\": \"example\"}");
    }
}

#[test]
fn empty_body_does_not_block() {
    // Everything is delivered, but the stream is never marked ended: with no
    // Content-Length header the parse must still complete, with empty body.
    let data = b"GET /index HTTP/1.1\r\nHost: localhost\r\n\r\n";
    let mut hs = HttpStream::new();
    hs.feed_chunk(data);
    match hs.parse_request_socket().unwrap() {
        Step::Complete(req) => {
            assert_eq!(req.method, Method::GET);
            assert_eq!(req.route, "/index");
            assert_eq!(req.body, "");
        }
        Step::Incomplete => panic!("parser waited for bytes that never arrive"),
    }
}

#[test]
fn malformed_method_is_syntax_error() {
    let err = parse_all(b"FOO /x HTTP/1.1\r\n\r\n", 32).unwrap_err();
    assert_eq!(err, Error::SyntaxError);
}

#[test]
fn missing_space_is_syntax_error() {
    let err = parse_all(b"GETX /x HTTP/1.1\r\n\r\n", 32).unwrap_err();
    assert_eq!(err, Error::SyntaxError);
}

#[test]
fn empty_route_is_syntax_error() {
    let err = parse_all(b"GET  /x HTTP/1.1\r\n\r\n", 32).unwrap_err();
    assert_eq!(err, Error::SyntaxError);
}

#[test]
fn header_without_colon_is_malformed() {
    let err = parse_all(b"GET /x HTTP/1.1\r\nBadHeader\r\n\r\n", 32).unwrap_err();
    assert_eq!(err, Error::MalformedHeader);
}

#[test]
fn truncated_mid_header_is_truncated_input() {
    let err = parse_all(b"POST /a HTTP/1.1\r\nHost: loc", 8).unwrap_err();
    assert_eq!(err, Error::TruncatedInput);
}

#[test]
fn truncated_body_is_truncated_input() {
    let err = parse_all(b"POST /a HTTP/1.1\r\nContent-Length: 10\r\n\r\nabcd", 8).unwrap_err();
    assert_eq!(err, Error::TruncatedInput);
}

#[test]
fn non_numeric_content_length_is_invalid() {
    let err = parse_all(b"POST /a HTTP/1.1\r\nContent-Length: abc\r\n\r\n", 32).unwrap_err();
    assert_eq!(err, Error::InvalidContentLength);
}

#[test]
fn overflowing_content_length_is_invalid() {
    let err = parse_all(
        b"POST /a HTTP/1.1\r\nContent-Length: 99999999999999999999999999\r\n\r\n",
        32,
    )
    .unwrap_err();
    assert_eq!(err, Error::InvalidContentLength);
}

#[test]
fn zero_content_length_is_empty_body() {
    let req = parse_all(b"POST /a HTTP/1.1\r\nContent-Length: 0\r\n\r\n", 32).unwrap();
    assert_eq!(req.body, "");
    assert_eq!(
        req.headers.get(&b"Content-Length".to_vec()),
        Some(&b"0".to_vec())
    );
}

#[test]
fn empty_content_length_is_invalid() {
    let err = parse_all(b"POST /a HTTP/1.1\r\nContent-Length:\r\n\r\n", 32).unwrap_err();
    assert_eq!(err, Error::InvalidContentLength);
}

#[test]
fn route_without_version_token() {
    // The version token after the route is not required.
    let req = parse_all(b"GET /hello\r\n\r\n", 4).unwrap();
    assert_eq!(req.method, Method::GET);
    assert_eq!(req.route, "/hello");
}

#[test]
fn all_methods_parse() {
    let get = parse_all(b"GET /r HTTP/1.1\r\n\r\n", 32).unwrap();
    assert_eq!(get.method, Method::GET);
    let post = parse_all(b"POST /r HTTP/1.1\r\n\r\n", 32).unwrap();
    assert_eq!(post.method, Method::POST);
    let put = parse_all(b"PUT /r HTTP/1.1\r\n\r\n", 32).unwrap();
    assert_eq!(put.method, Method::PUT);
    let delete = parse_all(b"DELETE /r HTTP/1.1\r\n\r\n", 32).unwrap();
    assert_eq!(delete.method, Method::DELETE);
}

#[test]
fn duplicate_header_last_write_wins() {
    let req = parse_all(b"GET /x HTTP/1.1\r\nHost: one\r\nHost: two\r\n\r\n", 5).unwrap();
    assert_eq!(req.headers.get(&b"Host".to_vec()), Some(&b"two".to_vec()));
}

#[test]
fn header_names_are_case_sensitive() {
    // The lookup matches the stored name exactly; a differently cased
    // content-length is another name and declares no body length.
    let req = parse_all(b"GET /x HTTP/1.1\r\ncontent-length: 5\r\n\r\nhello", 32).unwrap();
    assert_eq!(req.body, "");
    assert_eq!(
        req.headers.get(&b"content-length".to_vec()),
        Some(&b"5".to_vec())
    );
    assert_eq!(req.headers.get(&b"Content-Length".to_vec()), None);
}

#[test]
fn leading_spaces_of_value_are_stripped() {
    let req = parse_all(b"GET /x HTTP/1.1\r\nX-Pad:   spaced out\r\n\r\n", 6).unwrap();
    assert_eq!(req.headers.get(&b"X-Pad".to_vec()), Some(&b"spaced out".to_vec()));
}

#[test]
fn body_is_exactly_declared_length() {
    let req = parse_all(b"POST /x HTTP/1.1\r\nContent-Length: 2\r\n\r\nabcd", 32).unwrap();
    assert_eq!(req.body, "ab");
}

#[test]
fn invalid_utf8_body_is_replaced_not_failed() {
    let mut data: Vec<u8> = b"POST /x HTTP/1.1\r\nContent-Length: 3\r\n\r\n".to_vec();
    data.extend_from_slice(&[0xFF, 0x68, 0x69]);
    let req = parse_all(&data, 32).unwrap();
    assert_eq!(req.body, "\u{FFFD}hi");
}
