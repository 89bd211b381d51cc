use std::io::Read;

use minihttp::{build_response, encode_response};

fn split_response(resp: &[u8]) -> (String, Vec<u8>) {
    let pos = resp
        .windows(4)
        .position(|w| w == b"\r\n\r\n")
        .expect("no header/body separator in response");
    let head = String::from_utf8(resp[..pos].to_vec()).unwrap();
    let payload = resp[pos + 4..].to_vec();
    (head, payload)
}

fn content_length_of(head: &str) -> usize {
    for line in head.split("\r\n") {
        if let Some(rest) = line.strip_prefix("Content-Length: ") {
            return rest.parse().unwrap();
        }
    }
    panic!("no Content-Length header");
}

#[test]
fn uncompressed_response_is_exact() {
    let resp = encode_response(b"HELLO", false).unwrap();
    assert_eq!(
        resp,
        b"HTTP/1.1 200 OK\r\nContent-Length: 5\r\n\r\nHELLO".to_vec()
    );
}

#[test]
fn uncompressed_response_has_no_content_encoding() {
    let resp = encode_response(b"plain body", false).unwrap();
    let (head, payload) = split_response(&resp);
    assert!(!head.contains("Content-Encoding"));
    assert_eq!(payload, b"plain body".to_vec());
    assert_eq!(content_length_of(&head), payload.len());
}

#[test]
fn gzip_response_decompresses_to_the_body() {
    let body = b"The quick brown fox jumps over the lazy dog. \
                 The quick brown fox jumps over the lazy dog.";
    let resp = encode_response(body, true).unwrap();
    let (head, payload) = split_response(&resp);
    assert!(head.starts_with("HTTP/1.1 200 OK\r\n"));
    assert!(head.contains("Content-Encoding: gzip\r\n"));
    assert_eq!(content_length_of(&head), payload.len());
    let mut decoder = flate2::read::GzDecoder::new(payload.as_slice());
    let mut decompressed = Vec::new();
    decoder.read_to_end(&mut decompressed).unwrap();
    assert_eq!(decompressed, body.to_vec());
}

#[test]
fn gzip_response_of_empty_body() {
    let resp = encode_response(b"", true).unwrap();
    let (head, payload) = split_response(&resp);
    assert_eq!(content_length_of(&head), payload.len());
    let mut decoder = flate2::read::GzDecoder::new(payload.as_slice());
    let mut decompressed = Vec::new();
    decoder.read_to_end(&mut decompressed).unwrap();
    assert_eq!(decompressed, Vec::<u8>::new());
}

#[test]
fn content_length_counts_payload_bytes_exactly() {
    for body in [&b""[..], b"x", b"0123456789", &[0u8; 1024][..]] {
        let resp = build_response(body, false);
        let (head, payload) = split_response(&resp);
        assert_eq!(content_length_of(&head), body.len());
        assert_eq!(payload, body.to_vec());
    }
}

#[test]
fn compressed_content_length_matches_compressed_payload() {
    let body = vec![7u8; 4096];
    let resp = encode_response(&body, true).unwrap();
    let (head, payload) = split_response(&resp);
    assert_eq!(content_length_of(&head), payload.len());
    assert!(payload.len() < body.len());
}
