//! The response encoder: renders a handler's body into the final HTTP/1.1
//! payload — a fixed `200 OK` status line, `Content-Encoding: gzip` only when
//! compression was applied, a `Content-Length` equal to the exact byte length
//! of the payload that follows, a blank line, and the payload itself.

use vstd::prelude::*;
use vstd::string::StringSliceAdditionalSpecFns;
use crate::bytes::{dec_digits, dec_value, lemma_dec_digits_value, usize_to_decimal, append_slice};

verus! {

/// The fixed status line; this layer produces no other status code.
pub open spec fn status_line_bytes() -> Seq<u8> {
    "HTTP/1.1 200 OK\r\n".spec_bytes()
}

/// The header announcing that the payload was gzip-compressed.
pub open spec fn gzip_header_bytes() -> Seq<u8> {
    "Content-Encoding: gzip\r\n".spec_bytes()
}

/// The full response for a given payload: status line, optional encoding
/// header, a `Content-Length` of exactly `payload.len()` in decimal, the
/// blank line, then the payload bytes themselves.
pub open spec fn response_bytes(payload: Seq<u8>, gzipped: bool) -> Seq<u8> {
    status_line_bytes()
        + (if gzipped { gzip_header_bytes() } else { Seq::<u8>::empty() })
        + "Content-Length: ".spec_bytes()
        + dec_digits(payload.len())
        + "\r\n\r\n".spec_bytes()
        + payload
}

/// Renders the final response for an already-prepared payload. The emitted
/// `Content-Length` equals the exact byte length of the payload that follows,
/// compressed or not.
pub fn build_response(payload: &[u8], gzipped: bool) -> (r: Vec<u8>)
    ensures
        r@ == response_bytes(payload@, gzipped),
{
    let mut out: Vec<u8> = Vec::new();
    append_slice(&mut out, "HTTP/1.1 200 OK\r\n".as_bytes());
    if gzipped {
        append_slice(&mut out, "Content-Encoding: gzip\r\n".as_bytes());
    }
    append_slice(&mut out, "Content-Length: ".as_bytes());
    let mut digits = usize_to_decimal(payload.len());
    out.append(&mut digits);
    append_slice(&mut out, "\r\n\r\n".as_bytes());
    append_slice(&mut out, payload);
    proof {
        assert(out@ =~= response_bytes(payload@, gzipped));
    }
    out
}

/// What a gzip stream decompresses to: `None` for bytes that are not one
/// complete, well-formed gzip member. Decompression is a pure function of its
/// input, fixed by the gzip format, so the result can carry this name.
pub uninterp spec fn gunzip_of(s: Seq<u8>) -> Option<Seq<u8>>;

/// Relies on flate2's `flate2::write::GzEncoder`: `new`, `write_all` and
/// `finish` produce one complete, fully finalized gzip member at the highest
/// compression level whose decompression is exactly the bytes written — that
/// is all that is claimed of the compressed bytes, which themselves depend on
/// the flate2 version. An encoder error surfaces as `None`.
#[verifier::external_body]
fn gzip_compress(body: &[u8]) -> (r: Option<Vec<u8>>)
    ensures
        (r matches Some(v) ==> gunzip_of(v@) == Some(body@)),
{
    let mut e = flate2::write::GzEncoder::new(Vec::new(), flate2::Compression::best());
    if std::io::Write::write_all(&mut e, body).is_err() {
        return None;
    }
    match e.finish() {
        Ok(v) => Some(v),
        Err(_) => None,
    }
}

/// Encodes a handler's body into the response to transmit. Without gzip the
/// payload is the body itself, byte for byte. With gzip the payload is a
/// gzip member that decompresses to exactly the body, framed the same way;
/// `None` only if the compressor failed, which the caller treats as fatal to
/// the connection.
pub fn encode_response(body: &[u8], gzip_requested: bool) -> (r: Option<Vec<u8>>)
    ensures
        (match r {
            Some(resp) => {
                if gzip_requested {
                    exists|p: Seq<u8>|
                        resp@ == response_bytes(p, true) && gunzip_of(p) == Some(body@)
                } else {
                    resp@ == response_bytes(body@, false)
                }
            },
            None => gzip_requested,
        }),
{
    if gzip_requested {
        match gzip_compress(body) {
            Some(compressed) => {
                let resp = build_response(compressed.as_slice(), true);
                proof {
                    assert(resp@ == response_bytes(compressed@, true)
                        && gunzip_of(compressed@) == Some(body@));
                }
                Some(resp)
            },
            None => None,
        }
    } else {
        Some(build_response(body, false))
    }
}

/// Content-Length accuracy: in every response the digits emitted after
/// `Content-Length: ` denote exactly the byte length of the payload that
/// follows the blank line, on the compressed and uncompressed paths alike.
pub proof fn lemma_content_length_accurate(payload: Seq<u8>, gzipped: bool)
    ensures
        dec_value(dec_digits(payload.len())) == payload.len(),
        response_bytes(payload, gzipped) == (status_line_bytes()
            + (if gzipped { gzip_header_bytes() } else { Seq::<u8>::empty() })
            + "Content-Length: ".spec_bytes()
            + dec_digits(payload.len())
            + "\r\n\r\n".spec_bytes()) + payload,
        response_bytes(payload, gzipped).skip(
            response_bytes(payload, gzipped).len() - payload.len(),
        ) == payload,
{
    lemma_dec_digits_value(payload.len());
    let head = status_line_bytes()
        + (if gzipped { gzip_header_bytes() } else { Seq::<u8>::empty() })
        + "Content-Length: ".spec_bytes()
        + dec_digits(payload.len())
        + "\r\n\r\n".spec_bytes();
    assert(response_bytes(payload, gzipped) =~= head + payload);
    assert((head + payload).skip(head.len() as int) =~= payload);
}

} // verus!
