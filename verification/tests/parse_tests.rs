use minihttp::{parse_request, ParseError};

#[test]
fn round_trip_basic() {
    let raw = b"GET /home HTTP/1.1\r\nHost: x\r\nAccept-Encoding: gzip\r\n\r\nhello";
    let req = parse_request(raw).unwrap();
    assert_eq!(req.method, b"GET".to_vec());
    assert_eq!(req.url, b"/home".to_vec());
    assert_eq!(req.http_version, b"HTTP/1.1".to_vec());
    assert_eq!(req.headers.len(), 2);
    assert_eq!(req.headers[0].key, b"host".to_vec());
    assert_eq!(req.headers[0].value, b"x".to_vec());
    assert_eq!(req.headers[1].key, b"accept-encoding".to_vec());
    assert_eq!(req.headers[1].value, b"gzip".to_vec());
    assert_eq!(req.body, Some(b"hello".to_vec()));
}

#[test]
fn keys_lowercased_values_trimmed() {
    let raw = b"POST /a HTTP/1.1\r\nX-ThInG:  spaced out  \r\n\r\n";
    let req = parse_request(raw).unwrap();
    assert_eq!(req.headers.len(), 1);
    assert_eq!(req.headers[0].key, b"x-thing".to_vec());
    assert_eq!(req.headers[0].value, b"spaced out".to_vec());
}

#[test]
fn header_value_keeps_later_colons() {
    let raw = b"GET / HTTP/1.1\r\nHost: example.com:8080\r\n\r\n";
    let req = parse_request(raw).unwrap();
    assert_eq!(req.headers[0].key, b"host".to_vec());
    assert_eq!(req.headers[0].value, b"example.com:8080".to_vec());
}

#[test]
fn too_few_request_tokens_is_rejected() {
    let raw = b"GET /home\r\nHost: x\r\n\r\n";
    assert_eq!(parse_request(raw).unwrap_err(), ParseError::BadRequestLine);
}

#[test]
fn missing_blank_line_is_rejected() {
    let raw = b"GET / HTTP/1.1\r\nHost: x";
    assert_eq!(parse_request(raw).unwrap_err(), ParseError::MissingBlankLine);
}

#[test]
fn header_without_colon_is_rejected() {
    let raw = b"GET / HTTP/1.1\r\nnocolonhere\r\n\r\n";
    assert_eq!(parse_request(raw).unwrap_err(), ParseError::BadHeaderLine);
}

#[test]
fn absent_body_region_yields_no_body() {
    let raw = b"GET / HTTP/1.1\r\nHost: x\r\n";
    let req = parse_request(raw).unwrap();
    assert_eq!(req.body, None);
}

#[test]
fn empty_trailing_line_yields_empty_body() {
    let raw = b"GET / HTTP/1.1\r\nHost: x\r\n\r\n";
    let req = parse_request(raw).unwrap();
    assert_eq!(req.body, Some(Vec::new()));
}

#[test]
fn body_is_first_line_after_separator() {
    let raw = b"POST /form HTTP/1.1\r\n\r\na=1&b=2\r\nignored";
    let req = parse_request(raw).unwrap();
    assert_eq!(req.headers.len(), 0);
    assert_eq!(req.body, Some(b"a=1&b=2".to_vec()));
}

#[test]
fn empty_input_is_an_error_not_a_crash() {
    assert!(parse_request(b"").is_err());
    assert!(parse_request(b"\r\n").is_err());
}
