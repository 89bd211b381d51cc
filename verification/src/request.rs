//! The request model and the parser: raw bytes from the socket become an
//! `HttpRequest` (method, path, version, headers, optional single-line body),
//! or a `ParseError` naming exactly what was malformed.

use vstd::prelude::*;
use vstd::string::StringSliceAdditionalSpecFns;
use crate::bytes::{lower, trim, contains_bytes, to_lower, trim_bytes, subvec, bytes_eq, find_bytes};
use crate::split::{split_crlf, split_byte, byte_index, split_crlf_exec, split_byte_exec, find_byte,
    lemma_split_crlf_nonempty, lemma_split_crlf_prefix, lemma_split_crlf_whole,
    lemma_split_byte_prefix, lemma_split_byte_whole, lemma_byte_index_at,
    crlf, no_crlf, has_crlf_at, no_byte};

verus! {

/// The routing discriminator. Only `GET` and `POST` are ever produced by the
/// parser; any other request-line verb resolves as `GET`.
#[derive(Clone, Copy, PartialEq, Eq, Structural, Hash, Debug)]
pub enum HttpMethod {
    ANY,
    GET,
    POST,
    HEAD,
    DELETE,
    PATCH,
}

/// One parsed header: key lower-cased, value trimmed of surrounding whitespace.
#[derive(Debug)]
pub struct HttpHeader {
    pub key: Vec<u8>,
    pub value: Vec<u8>,
}

impl View for HttpHeader {
    type V = (Seq<u8>, Seq<u8>);

    open spec fn view(&self) -> (Seq<u8>, Seq<u8>) {
        (self.key@, self.value@)
    }
}

/// The views of a sequence of headers, in order.
pub open spec fn headers_view(hs: Seq<HttpHeader>) -> Seq<(Seq<u8>, Seq<u8>)> {
    hs.map_values(|h: HttpHeader| h@)
}

/// A parsed request. Built once per connection and immutable thereafter.
#[derive(Debug)]
pub struct HttpRequest {
    pub method: Vec<u8>,
    pub url: Vec<u8>,
    pub http_version: Vec<u8>,
    pub headers: Vec<HttpHeader>,
    pub body: Option<Vec<u8>>,
}

/// The mathematical shape of a parsed request.
pub ghost struct RequestView {
    pub method: Seq<u8>,
    pub url: Seq<u8>,
    pub http_version: Seq<u8>,
    pub headers: Seq<(Seq<u8>, Seq<u8>)>,
    pub body: Option<Seq<u8>>,
}

impl View for HttpRequest {
    type V = RequestView;

    open spec fn view(&self) -> RequestView {
        RequestView {
            method: self.method@,
            url: self.url@,
            http_version: self.http_version@,
            headers: headers_view(self.headers@),
            body: match self.body {
                Some(b) => Some(b@),
                None => None,
            },
        }
    }
}

/// Why a raw byte stream was rejected.
#[derive(Clone, Copy, PartialEq, Eq, Structural, Debug)]
pub enum ParseError {
    /// The request line has fewer than three space-separated tokens.
    BadRequestLine,
    /// No empty line separates the headers from the body region.
    MissingBlankLine,
    /// A header line has no colon.
    BadHeaderLine,
}

/// One header line split on its first colon: key lower-cased, value trimmed.
pub open spec fn header_of_line(line: Seq<u8>) -> Option<(Seq<u8>, Seq<u8>)> {
    let j = byte_index(line, 58) as int;
    if j < line.len() {
        Some((lower(line.take(j)), trim(line.skip(j + 1))))
    } else {
        None
    }
}

/// All header lines parsed in order; `None` if any line has no colon.
pub open spec fn parse_headers(lines: Seq<Seq<u8>>) -> Option<Seq<(Seq<u8>, Seq<u8>)>>
    decreases lines.len(),
{
    if lines.len() == 0 {
        Some(Seq::empty())
    } else {
        match (parse_headers(lines.drop_last()), header_of_line(lines.last())) {
            (Some(hs), Some(h)) => Some(hs.push(h)),
            _ => None,
        }
    }
}

/// Index of the first empty line, or `lines.len()` if there is none.
pub open spec fn first_empty_line(lines: Seq<Seq<u8>>) -> nat
    decreases lines.len(),
{
    if lines.len() == 0 {
        0
    } else if lines[0].len() == 0 {
        0
    } else {
        1 + first_empty_line(lines.skip(1))
    }
}

/// What the parser produces from a raw byte stream: line 0 must split into at
/// least three space-separated tokens; headers run from line 1 to the first
/// empty line; the first line after the separator, if any, is the body.
pub open spec fn parse_request_spec(raw: Seq<u8>) -> Result<RequestView, ParseError> {
    let lines = split_crlf(raw);
    let tokens = split_byte(lines[0], 32);
    if tokens.len() < 3 {
        Err(ParseError::BadRequestLine)
    } else {
        let sep = first_empty_line(lines) as int;
        if sep == lines.len() {
            Err(ParseError::MissingBlankLine)
        } else {
            match parse_headers(lines.subrange(1, sep)) {
                None => Err(ParseError::BadHeaderLine),
                Some(hs) => Ok(RequestView {
                    method: tokens[0],
                    url: tokens[1],
                    http_version: tokens[2],
                    headers: hs,
                    body: if sep + 1 < lines.len() {
                        Some(lines[sep + 1])
                    } else {
                        None
                    },
                }),
            }
        }
    }
}

proof fn lemma_first_empty_skip(lines: Seq<Seq<u8>>, k: int)
    requires
        0 <= k <= lines.len(),
        forall|j: int| 0 <= j < k ==> lines[j].len() != 0,
    ensures
        first_empty_line(lines) == k + first_empty_line(lines.skip(k)),
    decreases k,
{
    if k == 0 {
        assert(lines.skip(0) =~= lines);
    } else {
        assert(lines[0].len() != 0);
        assert(lines.skip(1).skip(k - 1) =~= lines.skip(k));
        assert forall|j: int| 0 <= j < k - 1 implies lines.skip(1)[j].len() != 0 by {
            assert(lines.skip(1)[j] == lines[j + 1]);
        }
        lemma_first_empty_skip(lines.skip(1), k - 1);
    }
}

proof fn lemma_parse_headers_none(lines: Seq<Seq<u8>>, idx: int)
    requires
        0 <= idx < lines.len(),
        header_of_line(lines[idx]) is None,
    ensures
        parse_headers(lines) is None,
    decreases lines.len(),
{
    if idx == lines.len() - 1 {
    } else {
        assert(lines.drop_last()[idx] == lines[idx]);
        lemma_parse_headers_none(lines.drop_last(), idx);
    }
}

/// Parses one raw request read off a socket. The result is exactly what
/// `parse_request_spec` says, success and each error alike.
pub fn parse_request(raw: &[u8]) -> (r: Result<HttpRequest, ParseError>)
    ensures
        (match r {
            Ok(req) => parse_request_spec(raw@) == Ok::<RequestView, ParseError>(req@),
            Err(e) => parse_request_spec(raw@) == Err::<RequestView, ParseError>(e),
        }),
{
    let lines = split_crlf_exec(raw);
    let ghost lv = split_crlf(raw@);
    proof {
        lemma_split_crlf_nonempty(raw@);
        assert forall|j: int| 0 <= j < lines@.len() implies lines.deep_view()[j] == lines@[j]@ by {
            assert(lines@[j].deep_view() =~= lines@[j]@);
        }
    }
    let line0: &Vec<u8> = &lines[0];
    let tokens = split_byte_exec(line0.as_slice(), 32);
    let ghost tv = split_byte(lv[0], 32);
    proof {
        assert forall|j: int| 0 <= j < tokens@.len() implies tokens.deep_view()[j] == tokens@[j]@ by {
            assert(tokens@[j].deep_view() =~= tokens@[j]@);
        }
    }
    if tokens.len() < 3 {
        return Err(ParseError::BadRequestLine);
    }
    // Find the header/body separator: the first empty line.
    let mut sep: usize = 0;
    while sep < lines.len() && lines[sep].len() != 0
        invariant
            sep <= lines@.len(),
            lines.deep_view() == lv,
            forall|j: int| 0 <= j < lines@.len() ==> lines.deep_view()[j] == lines@[j]@,
            forall|j: int| 0 <= j < sep ==> lv[j].len() != 0,
        decreases lines@.len() - sep,
    {
        proof {
            assert(lv[sep as int].len() != 0);
        }
        sep = sep + 1;
    }
    proof {
        lemma_first_empty_skip(lv, sep as int);
        if sep < lines@.len() {
            assert(lv.skip(sep as int)[0] == lv[sep as int]);
            assert(first_empty_line(lv) == sep);
        } else {
            assert(lv.skip(sep as int) =~= Seq::<Seq<u8>>::empty());
            assert(first_empty_line(lv) == sep);
        }
    }
    if sep == lines.len() {
        return Err(ParseError::MissingBlankLine);
    }
    // Parse the header lines between the request line and the separator.
    let mut headers: Vec<HttpHeader> = Vec::new();
    let mut i: usize = 1;
    proof {
        assert(lv.subrange(1, 1) =~= Seq::<Seq<u8>>::empty());
        assert(headers_view(headers@) =~= Seq::<(Seq<u8>, Seq<u8>)>::empty());
    }
    while i < sep
        invariant
            1 <= i <= sep < lines@.len(),
            lv == split_crlf(raw@),
            lines.deep_view() == lv,
            forall|j: int| 0 <= j < lines@.len() ==> lines.deep_view()[j] == lines@[j]@,
            split_byte(lv[0], 32).len() >= 3,
            first_empty_line(lv) == sep,
            parse_headers(lv.subrange(1, i as int)) == Some(headers_view(headers@)),
        decreases sep - i,
    {
        let line: &Vec<u8> = &lines[i];
        let j = find_byte(line.as_slice(), 58);
        if j == line.len() {
            proof {
                assert(header_of_line(lv[i as int]) is None);
                assert(lv.subrange(1, sep as int)[i - 1] == lv[i as int]);
                lemma_parse_headers_none(lv.subrange(1, sep as int), i - 1);
            }
            return Err(ParseError::BadHeaderLine);
        }
        let rawkey = subvec(line.as_slice(), 0, j);
        let key = to_lower(rawkey.as_slice());
        let rawval = subvec(line.as_slice(), j + 1, line.len());
        let value = trim_bytes(rawval.as_slice());
        proof {
            let lvi = lv[i as int];
            assert(rawkey@ =~= lvi.take(j as int));
            assert(rawval@ =~= lvi.skip(j as int + 1));
            assert(header_of_line(lvi) == Some::<(Seq<u8>, Seq<u8>)>((key@, value@)));
        }
        let ghost old_hv = headers_view(headers@);
        headers.push(HttpHeader { key, value });
        proof {
            assert(headers_view(headers@) =~= old_hv.push(headers@.last()@));
            assert(lv.subrange(1, i + 1).drop_last() =~= lv.subrange(1, i as int));
            assert(lv.subrange(1, i + 1).last() == lv[i as int]);
            assert(parse_headers(lv.subrange(1, i + 1)) == Some(headers_view(headers@)));
        }
        i = i + 1;
    }
    // The body region: everything after the separator; its first line, if any,
    // is taken verbatim.
    let body: Option<Vec<u8>>;
    if sep + 1 < lines.len() {
        let b: &Vec<u8> = &lines[sep + 1];
        let copy = subvec(b.as_slice(), 0, b.len());
        proof {
            assert(copy@ =~= lv[sep as int + 1]);
        }
        body = Some(copy);
    } else {
        body = None;
    }
    let t0: &Vec<u8> = &tokens[0];
    let method = subvec(t0.as_slice(), 0, t0.len());
    let t1: &Vec<u8> = &tokens[1];
    let url = subvec(t1.as_slice(), 0, t1.len());
    let t2: &Vec<u8> = &tokens[2];
    let http_version = subvec(t2.as_slice(), 0, t2.len());
    proof {
        assert(method@ =~= tv[0]);
        assert(url@ =~= tv[1]);
        assert(http_version@ =~= tv[2]);
    }
    let req = HttpRequest { method, url, http_version, headers, body };
    proof {
        assert(parse_request_spec(raw@) == Ok::<RequestView, ParseError>(req@));
    }
    Ok(req)
}

/// The routing method of a request-line verb: `GET` and `POST` are recognized;
/// anything else resolves as `GET`, matching the server's observed behavior.
pub open spec fn method_of_token(tok: Seq<u8>) -> HttpMethod {
    if tok == "GET".spec_bytes() {
        HttpMethod::GET
    } else if tok == "POST".spec_bytes() {
        HttpMethod::POST
    } else {
        HttpMethod::GET
    }
}

/// Maps the literal method token of a request to its routing method.
pub fn parse_method(tok: &[u8]) -> (m: HttpMethod)
    ensures
        m == method_of_token(tok@),
{
    if bytes_eq(tok, "GET".as_bytes()) {
        HttpMethod::GET
    } else if bytes_eq(tok, "POST".as_bytes()) {
        HttpMethod::POST
    } else {
        HttpMethod::GET
    }
}

/// A single header advertises gzip support: key `accept-encoding`, value
/// containing `gzip`.
pub open spec fn header_accepts_gzip(h: (Seq<u8>, Seq<u8>)) -> bool {
    h.0 == "accept-encoding".spec_bytes() && contains_bytes(h.1, "gzip".spec_bytes())
}

/// The client advertises gzip support somewhere among its headers.
pub open spec fn accepts_gzip(headers: Seq<(Seq<u8>, Seq<u8>)>) -> bool {
    exists|i: int| 0 <= i < headers.len() && header_accepts_gzip(headers[i])
}

/// Scans the parsed headers for an `accept-encoding` value containing `gzip`.
pub fn wants_gzip(headers: &Vec<HttpHeader>) -> (r: bool)
    ensures
        r == accepts_gzip(headers_view(headers@)),
{
    let ghost hv = headers_view(headers@);
    let mut i: usize = 0;
    while i < headers.len()
        invariant
            i <= headers@.len(),
            hv == headers_view(headers@),
            forall|j: int| 0 <= j < i ==> !header_accepts_gzip(hv[j]),
        decreases headers@.len() - i,
    {
        let h: &HttpHeader = &headers[i];
        if bytes_eq(h.key.as_slice(), "accept-encoding".as_bytes()) {
            if find_bytes(h.value.as_slice(), "gzip".as_bytes()) {
                proof {
                    assert(hv[i as int] == h@);
                    assert(header_accepts_gzip(hv[i as int]));
                }
                return true;
            }
        }
        proof {
            assert(hv[i as int] == h@);
            assert(!header_accepts_gzip(hv[i as int]));
        }
        i = i + 1;
    }
    false
}

/// A request-line token that renders and parses back unchanged: free of the
/// space separator and of the line terminator.
pub open spec fn token_wf(t: Seq<u8>) -> bool {
    no_byte(t, 32) && no_crlf(t)
}

/// A header pair that renders to one well-formed `key: value` line: the key
/// free of colons, both parts free of the line terminator.
pub open spec fn header_wf(h: (Seq<u8>, Seq<u8>)) -> bool {
    no_byte(h.0, 58) && no_crlf(h.0) && no_crlf(h.1)
}

/// One header rendered as its wire line.
pub open spec fn render_header(h: (Seq<u8>, Seq<u8>)) -> Seq<u8> {
    h.0 + seq![58u8] + h.1
}

/// All header lines rendered in order, each terminated by CR LF.
pub open spec fn render_headers(hs: Seq<(Seq<u8>, Seq<u8>)>) -> Seq<u8>
    decreases hs.len(),
{
    if hs.len() == 0 {
        Seq::empty()
    } else {
        render_header(hs[0]) + crlf() + render_headers(hs.skip(1))
    }
}

/// A whole request on the wire: the request line, the header lines, the blank
/// separator line, and an optional single-line body.
pub open spec fn render_request(
    method: Seq<u8>,
    url: Seq<u8>,
    version: Seq<u8>,
    hs: Seq<(Seq<u8>, Seq<u8>)>,
    body: Option<Seq<u8>>,
) -> Seq<u8> {
    method + seq![32u8] + url + seq![32u8] + version + crlf() + render_headers(hs) + (match body {
        Some(b) => crlf() + b,
        None => Seq::empty(),
    })
}

proof fn lemma_no_crlf_concat(a: Seq<u8>, b: Seq<u8>)
    requires
        no_crlf(a),
        no_crlf(b),
        a.len() == 0 || b.len() == 0 || !(a.last() == 13 && b[0] == 10),
    ensures
        no_crlf(a + b),
{
    let s = a + b;
    assert forall|j: int| !has_crlf_at(s, j) by {
        if 0 <= j && j + 1 < s.len() {
            if j + 1 < a.len() {
                assert(s[j] == a[j] && s[j + 1] == a[j + 1]);
                assert(!has_crlf_at(a, j));
            } else if j < a.len() {
                assert(s[j] == a[a.len() - 1] && s[j + 1] == b[0]);
            } else {
                assert(s[j] == b[j - a.len()] && s[j + 1] == b[j + 1 - a.len()]);
                assert(!has_crlf_at(b, j - a.len()));
            }
        }
    }
}

/// The rendered header lines, as the lines they split back into.
pub open spec fn header_lines(hs: Seq<(Seq<u8>, Seq<u8>)>) -> Seq<Seq<u8>> {
    hs.map_values(|h: (Seq<u8>, Seq<u8>)| render_header(h))
}

proof fn lemma_render_header_no_crlf(h: (Seq<u8>, Seq<u8>))
    requires
        header_wf(h),
    ensures
        no_crlf(render_header(h)),
        render_header(h).len() > 0,
{
    lemma_no_crlf_concat(h.0, seq![58u8]);
    lemma_no_crlf_concat(h.0 + seq![58u8], h.1);
    assert((h.0 + seq![58u8]).last() == 58);
    assert(render_header(h) =~= (h.0 + seq![58u8]) + h.1);
}

proof fn lemma_split_rendered_headers(hs: Seq<(Seq<u8>, Seq<u8>)>, tail: Seq<u8>)
    requires
        forall|i: int| 0 <= i < hs.len() ==> header_wf(#[trigger] hs[i]),
    ensures
        split_crlf(render_headers(hs) + tail) == header_lines(hs) + split_crlf(tail),
    decreases hs.len(),
{
    if hs.len() == 0 {
        assert(render_headers(hs) + tail =~= tail);
        assert(header_lines(hs) + split_crlf(tail) =~= split_crlf(tail));
    } else {
        let h0 = render_header(hs[0]);
        let rest = render_headers(hs.skip(1));
        assert(render_headers(hs) + tail =~= h0 + crlf() + (rest + tail));
        lemma_render_header_no_crlf(hs[0]);
        lemma_split_crlf_prefix(h0, rest + tail);
        assert forall|i: int| 0 <= i < hs.skip(1).len() implies header_wf(#[trigger] hs.skip(1)[i]) by {
            assert(hs.skip(1)[i] == hs[i + 1]);
        }
        lemma_split_rendered_headers(hs.skip(1), tail);
        assert(header_lines(hs.skip(1)) =~= header_lines(hs).skip(1));
        assert(header_lines(hs)[0] == h0);
        assert(seq![h0] + (header_lines(hs).skip(1) + split_crlf(tail))
            =~= header_lines(hs) + split_crlf(tail));
    }
}

proof fn lemma_parse_rendered_headers(hs: Seq<(Seq<u8>, Seq<u8>)>)
    requires
        forall|i: int| 0 <= i < hs.len() ==> header_wf(#[trigger] hs[i]),
    ensures
        parse_headers(header_lines(hs)) == Some(
            hs.map_values(|h: (Seq<u8>, Seq<u8>)| (lower(h.0), trim(h.1))),
        ),
    decreases hs.len(),
{
    let target = hs.map_values(|h: (Seq<u8>, Seq<u8>)| (lower(h.0), trim(h.1)));
    if hs.len() == 0 {
        assert(header_lines(hs) =~= Seq::<Seq<u8>>::empty());
        assert(target =~= Seq::<(Seq<u8>, Seq<u8>)>::empty());
    } else {
        let h = hs.last();
        let line = render_header(h);
        assert(header_lines(hs).last() == line);
        assert(header_lines(hs).drop_last() =~= header_lines(hs.drop_last()));
        assert forall|i: int| 0 <= i < hs.drop_last().len() implies header_wf(#[trigger] hs.drop_last()[i]) by {
            assert(hs.drop_last()[i] == hs[i]);
        }
        lemma_parse_rendered_headers(hs.drop_last());
        // the first colon of the rendered line is exactly at the end of the key
        assert(header_wf(h));
        assert(line[h.0.len() as int] == 58);
        assert forall|j: int| 0 <= j < h.0.len() implies line[j] != 58 by {
            assert(line[j] == h.0[j]);
        }
        lemma_byte_index_at(line, 58, h.0.len() as int);
        assert(line.take(h.0.len() as int) =~= h.0);
        assert(line.skip(h.0.len() as int + 1) =~= h.1);
        assert(header_of_line(line) == Some::<(Seq<u8>, Seq<u8>)>((lower(h.0), trim(h.1))));
        assert(hs.drop_last().map_values(|x: (Seq<u8>, Seq<u8>)| (lower(x.0), trim(x.1)))
            =~= target.drop_last());
        assert(target.drop_last().push((lower(h.0), trim(h.1))) =~= target);
    }
}

/// Round-trip: any request line `METHOD PATH VERSION`, followed by zero or
/// more well-formed `key:value` header lines, the blank separator line, and an
/// optional single-line body, parses back to exactly the method, path and
/// version it was rendered from, the same headers in order with keys
/// lower-cased and values trimmed, and the body verbatim.
pub proof fn lemma_parse_render_roundtrip(
    method: Seq<u8>,
    url: Seq<u8>,
    version: Seq<u8>,
    hs: Seq<(Seq<u8>, Seq<u8>)>,
    body: Option<Seq<u8>>,
)
    requires
        token_wf(method),
        token_wf(url),
        token_wf(version),
        forall|i: int| 0 <= i < hs.len() ==> header_wf(#[trigger] hs[i]),
        (match body {
            Some(b) => no_crlf(b),
            None => true,
        }),
    ensures
        parse_request_spec(render_request(method, url, version, hs, body))
            == Ok::<RequestView, ParseError>(RequestView {
                method,
                url,
                http_version: version,
                headers: hs.map_values(|h: (Seq<u8>, Seq<u8>)| (lower(h.0), trim(h.1))),
                body,
            }),
{
    let raw = render_request(method, url, version, hs, body);
    let line0 = method + seq![32u8] + url + seq![32u8] + version;
    let tail = match body {
        Some(b) => crlf() + b,
        None => Seq::<u8>::empty(),
    };

    // the request line contains no line terminator
    lemma_no_crlf_concat(method, seq![32u8]);
    lemma_no_crlf_concat(method + seq![32u8], url);
    lemma_no_crlf_concat(method + seq![32u8] + url, seq![32u8]);
    lemma_no_crlf_concat(method + seq![32u8] + url + seq![32u8], version);

    // the raw bytes split into: request line, header lines, blank line, body
    assert(raw =~= line0 + crlf() + (render_headers(hs) + tail));
    lemma_split_crlf_prefix(line0, render_headers(hs) + tail);
    lemma_split_rendered_headers(hs, tail);
    let tail_lines = split_crlf(tail);
    match body {
        Some(b) => {
            assert(tail =~= Seq::<u8>::empty() + crlf() + b);
            lemma_split_crlf_prefix(Seq::<u8>::empty(), b);
            lemma_split_crlf_whole(b);
            assert(tail_lines =~= seq![Seq::<u8>::empty(), b]);
        },
        None => {
            assert(tail_lines =~= seq![Seq::<u8>::empty()]);
        },
    }
    let lines = split_crlf(raw);
    let n = hs.len() as int;
    assert(lines =~= seq![line0] + header_lines(hs) + tail_lines);
    assert(lines[0] == line0);

    // the request line splits into exactly the three tokens
    assert(line0 =~= method + seq![32u8] + (url + seq![32u8] + version));
    lemma_split_byte_prefix(method, 32, url + seq![32u8] + version);
    lemma_split_byte_prefix(url, 32, version);
    lemma_split_byte_whole(version, 32);
    let tokens = split_byte(lines[0], 32);
    assert(tokens =~= seq![method, url, version]);

    // the first empty line is the one rendered after the headers
    assert forall|j: int| 0 <= j < 1 + n implies lines[j].len() != 0 by {
        if j == 0 {
            assert(lines[0] == line0);
        } else {
            assert(lines[j] == header_lines(hs)[j - 1]);
            lemma_render_header_no_crlf(hs[j - 1]);
        }
    }
    lemma_first_empty_skip(lines, 1 + n);
    assert(lines.skip(1 + n) == tail_lines) by {
        assert(lines.skip(1 + n) =~= tail_lines);
    }
    assert(tail_lines[0].len() == 0);
    assert(first_empty_line(lines) == 1 + n);

    // the headers parse back with keys lower-cased and values trimmed
    assert(lines.subrange(1, 1 + n) =~= header_lines(hs));
    lemma_parse_rendered_headers(hs);

    // the body line, when present, is recovered verbatim
    match body {
        Some(b) => {
            assert(lines.len() == n + 3);
            assert(lines[n + 2] == b);
        },
        None => {
            assert(lines.len() == n + 2);
        },
    }
}

} // verus!
