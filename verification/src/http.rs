//! HTTP: the client side (outgoing handler) and the data of the server side
//! (incoming handler).
//!
//! - request, response, headers, method and status code types
//! - a simulated HTTP client answering from registered mock responses
//! - the content types of served static files

use vstd::prelude::*;
use vstd::string::StringSliceAdditionalSpecFns;
use vstd::utf8::*;
use crate::assoc::{
    find_name, get_first, keys_distinct, lemma_first_key_found, lemma_first_key_none, named_entries, named_get,
    named_map, named_put, put_first,
};
use crate::text::{
    ascii_lower, dec, dec_string, from_utf8, is_ascii_str, lowercase, owned, push_str, seq_ends_with, seq_starts_with,
    chars_of, str_ends_with, str_eq, str_starts_with, string_from_chars, to_lowercase,
};

verus! {

// ═════════════════════════════════════════════════════════════════════
// Method and status
// ═════════════════════════════════════════════════════════════════════

/// HTTP method.
#[derive(Debug, Clone, PartialEq, Eq)]
pub enum Method {
    Get,
    Post,
    Put,
    Delete,
    Head,
    Options,
    Patch,
    Other(String),
}

/// The text of a method.
pub open spec fn method_text(m: Method) -> Seq<char> {
    match m {
        Method::Get => "GET"@,
        Method::Post => "POST"@,
        Method::Put => "PUT"@,
        Method::Delete => "DELETE"@,
        Method::Head => "HEAD"@,
        Method::Options => "OPTIONS"@,
        Method::Patch => "PATCH"@,
        Method::Other(s) => s@,
    }
}

impl Method {
    /// The text of this method.
    pub fn to_string(&self) -> (s: String)
        ensures
            s@ == method_text(*self),
    {
        match self {
            Method::Get => owned("GET"),
            Method::Post => owned("POST"),
            Method::Put => owned("PUT"),
            Method::Delete => owned("DELETE"),
            Method::Head => owned("HEAD"),
            Method::Options => owned("OPTIONS"),
            Method::Patch => owned("PATCH"),
            Method::Other(s) => s.clone(),
        }
    }
}

/// HTTP status code.
#[derive(Debug, Clone, Copy, PartialEq, Eq, Structural)]
pub struct StatusCode(pub u16);

impl StatusCode {
    /// Whether this status code indicates success (2xx).
    pub fn is_success(&self) -> (b: bool)
        ensures
            b == (200 <= self.0 < 300),
    {
        200 <= self.0 && self.0 < 300
    }

    /// Whether this status code indicates a client error (4xx).
    pub fn is_client_error(&self) -> (b: bool)
        ensures
            b == (400 <= self.0 < 500),
    {
        400 <= self.0 && self.0 < 500
    }

    /// Whether this status code indicates a server error (5xx).
    pub fn is_server_error(&self) -> (b: bool)
        ensures
            b == (500 <= self.0 < 600),
    {
        500 <= self.0 && self.0 < 600
    }

    /// The code in decimal.
    pub fn to_string(&self) -> (s: String)
        ensures
            s@ == dec(self.0 as nat),
    {
        dec_string(self.0 as u64)
    }
}

// ═════════════════════════════════════════════════════════════════════
// Headers
// ═════════════════════════════════════════════════════════════════════

/// HTTP headers: name/value pairs in order, names kept in lowercase.
#[derive(Debug)]
pub struct Headers {
    entries: Vec<(String, String)>,
}

/// The header entries as text.
pub open spec fn header_view(v: Seq<(String, String)>) -> Seq<(Seq<char>, Seq<char>)> {
    v.map_values(|e: (String, String)| (e.0@, e.1@))
}

/// The index of the first entry named `k`.
pub open spec fn first_named(es: Seq<(Seq<char>, Seq<char>)>, k: Seq<char>) -> Option<int>
    decreases es.len(),
{
    if es.len() == 0 {
        None
    } else if es[0].0 == k {
        Some(0)
    } else {
        match first_named(es.drop_first(), k) {
            Some(i) => Some(i + 1),
            None => None,
        }
    }
}

/// The entries not named `k`, in order.
pub open spec fn without_name(es: Seq<(Seq<char>, Seq<char>)>, k: Seq<char>) -> Seq<
    (Seq<char>, Seq<char>),
>
    decreases es.len(),
{
    if es.len() == 0 {
        es
    } else {
        let rest = without_name(es.drop_last(), k);
        if es.last().0 == k {
            rest
        } else {
            rest.push(es.last())
        }
    }
}

/// The key a header name is kept under: its lower-case, which for an
/// ASCII name is its ASCII lower-case.
pub open spec fn header_key(name: Seq<char>) -> Seq<char> {
    if is_ascii_str(name) {
        ascii_lower(name)
    } else {
        lowercase(name)
    }
}

/// A name that no entry has is found in the entries with one more
/// entry under it at the end, at that entry.
proof fn lemma_first_named_push(es: Seq<(Seq<char>, Seq<char>)>, k: Seq<char>, v: Seq<char>)
    requires
        first_named(es, k) is None,
    ensures
        first_named(es.push((k, v)), k) == Some(es.len() as int),
    decreases es.len(),
{
    if es.len() > 0 {
        assert(es.push((k, v)).drop_first() =~= es.drop_first().push((k, v)));
        lemma_first_named_push(es.drop_first(), k, v);
    }
}

/// Header names are matched without regard to ASCII case: a header added
/// under one spelling of an ASCII name is found under any other spelling
/// that differs from it only in case, unless an earlier header already
/// has that name.
pub proof fn law_header_name_any_case(
    h: Seq<(Seq<char>, Seq<char>)>,
    a: Seq<char>,
    b: Seq<char>,
    v: Seq<char>,
)
    requires
        is_ascii_str(a),
        is_ascii_str(b),
        ascii_lower(a) == ascii_lower(b),
        first_named(h, header_key(a)) is None,
    ensures
        header_key(a) == header_key(b),
        first_named(h.push((header_key(a), v)), header_key(b)) == Some(h.len() as int),
{
    lemma_first_named_push(h, header_key(a), v);
}

impl View for Headers {
    type V = Seq<(Seq<char>, Seq<char>)>;

    closed spec fn view(&self) -> Seq<(Seq<char>, Seq<char>)> {
        header_view(self.entries@)
    }
}

impl Headers {
    /// Creates empty headers.
    pub fn new() -> (h: Self)
        ensures
            h@ == Seq::<(Seq<char>, Seq<char>)>::empty(),
    {
        let h = Headers { entries: Vec::new() };
        proof {
            assert(h@ =~= Seq::<(Seq<char>, Seq<char>)>::empty());
        }
        h
    }

    /// A copy of these headers.
    pub fn duplicate(&self) -> (h: Self)
        ensures
            h@ == self@,
    {
        let mut out: Vec<(String, String)> = Vec::new();
        let mut i: usize = 0;
        while i < self.entries.len()
            invariant
                i <= self.entries@.len(),
                header_view(out@) == header_view(self.entries@).subrange(0, i as int),
            decreases self.entries@.len() - i,
        {
            let e = &self.entries[i];
            let a = e.0.clone();
            let b = e.1.clone();
            let ghost before = out@;
            out.push((a, b));
            proof {
                assert(header_view(self.entries@)[i as int] == (a@, b@));
                assert(out@ == before.push((a, b)));
                assert(header_view(before.push((a, b))) =~= header_view(before).push((a@, b@)));
                assert(header_view(out@) =~= header_view(self.entries@).subrange(0, i + 1));
            }
            i = i + 1;
        }
        proof {
            assert(header_view(self.entries@).subrange(0, i as int) =~= header_view(self.entries@));
        }
        Headers { entries: out }
    }

    /// Adds a header, its name in lowercase.
    pub fn add(&mut self, name: &str, value: &str)
        ensures
            final(self)@ == old(self)@.push((header_key(name@), value@)),
    {
        let k = to_lowercase(name);
        proof {
            assert(k@ == header_key(name@));
        }
        self.entries.push((k, owned(value)));
        proof {
            assert(final(self)@ =~= old(self)@.push((header_key(name@), value@)));
        }
    }

    /// The value of the first header with this name (any case).
    pub fn get(&self, name: &str) -> (r: Option<&str>)
        ensures
            match first_named(self@, header_key(name@)) {
                Some(k) => (r matches Some(v) && v@ == self@[k].1),
                None => r is None,
            },
    {
        let lower = to_lowercase(name);
        proof {
            assert(lower@ == header_key(name@));
        }
        let mut i: usize = 0;
        proof {
            assert(self@.skip(0) =~= self@);
        }
        while i < self.entries.len()
            invariant
                i <= self.entries@.len(),
                self@.len() == self.entries@.len(),
                lower@ == header_key(name@),
                first_named(self@, lower@) == match first_named(self@.skip(i as int), lower@) {
                    Some(j) => Some(j + i),
                    None => None::<int>,
                },
            decreases self.entries@.len() - i,
        {
            proof {
                assert(self@.skip(i as int).drop_first() =~= self@.skip(i + 1));
                assert(self@.skip(i as int)[0] == self@[i as int]);
                assert(self@[i as int] == (self.entries@[i as int].0@, self.entries@[i as int].1@));
            }
            if str_eq(self.entries[i].0.as_str(), lower.as_str()) {
                proof {
                    assert(self@.skip(i as int).len() > 0);
                    assert(first_named(self@.skip(i as int), lower@) == Some(0int));
                    assert(first_named(self@, lower@) == Some(i as int));
                    assert(self@[i as int].1 == self.entries@[i as int].1@);
                }
                let v = self.entries[i].1.as_str();
                proof {
                    assert(v@ == self.entries@[i as int].1@);
                    assert(lower@ == header_key(name@));
                }
                return Some(v);
            }
            i = i + 1;
        }
        None
    }

    /// Removes every header with this name (any case).
    pub fn delete(&mut self, name: &str)
        ensures
            final(self)@ == without_name(old(self)@, header_key(name@)),
    {
        let lower = to_lowercase(name);
        proof {
            assert(lower@ == header_key(name@));
        }
        let mut kept: Vec<(String, String)> = Vec::new();
        let mut i: usize = 0;
        let ghost es = self@;
        while i < self.entries.len()
            invariant
                i <= self.entries@.len(),
                es == header_view(self.entries@),
                lower@ == header_key(name@),
                header_view(kept@) == without_name(es.subrange(0, i as int), lower@),
            decreases self.entries@.len() - i,
        {
            proof {
                assert(es.subrange(0, i + 1).drop_last() =~= es.subrange(0, i as int));
            }
            if !str_eq(self.entries[i].0.as_str(), lower.as_str()) {
                let e = &self.entries[i];
                kept.push((e.0.clone(), e.1.clone()));
                proof {
                    assert(header_view(kept@) =~= without_name(es.subrange(0, i as int), lower@).push(
                        es[i as int],
                    ));
                }
            }
            i = i + 1;
        }
        proof {
            assert(es.subrange(0, i as int) =~= es);
        }
        self.entries = kept;
    }

    /// All headers, in order.
    pub fn iter(&self) -> (r: Vec<(&str, &str)>)
        ensures
            r@.len() == self@.len(),
            forall|i: int| 0 <= i < r@.len() ==> (#[trigger] r@[i]).0@ == self@[i].0 && r@[i].1@ == self@[i].1,
    {
        let mut out: Vec<(&str, &str)> = Vec::new();
        let mut i: usize = 0;
        while i < self.entries.len()
            invariant
                i <= self.entries@.len(),
                out@.len() == i,
                forall|j: int| 0 <= j < i ==> (#[trigger] out@[j]).0@ == self@[j].0 && out@[j].1@ == self@[j].1,
            decreases self.entries@.len() - i,
        {
            out.push((self.entries[i].0.as_str(), self.entries[i].1.as_str()));
            i = i + 1;
        }
        out
    }

    /// Number of headers.
    pub fn len(&self) -> (n: usize)
        ensures
            n == self@.len(),
    {
        self.entries.len()
    }

    /// Whether there are no headers.
    pub fn is_empty(&self) -> (b: bool)
        ensures
            b == (self@.len() == 0),
    {
        self.entries.len() == 0
    }
}

impl Default for Headers {
    fn default() -> (h: Self)
        ensures
            h@ == Seq::<(Seq<char>, Seq<char>)>::empty(),
    {
        Self::new()
    }
}

// ═════════════════════════════════════════════════════════════════════
// Requests and responses
// ═════════════════════════════════════════════════════════════════════

/// HTTP request.
#[derive(Debug)]
pub struct Request {
    /// HTTP method.
    pub method: Method,
    /// Request URL/path.
    pub url: String,
    /// Request headers.
    pub headers: Headers,
    /// Request body (optional).
    pub body: Option<Vec<u8>>,
}

/// The header a body of `n` bytes gets: `content-length: n`.
pub open spec fn length_header(n: nat) -> (Seq<char>, Seq<char>) {
    (header_key("content-length"@), dec(n))
}

impl Request {
    /// A GET request with no headers or body.
    pub fn get(url: &str) -> (r: Self)
        ensures
            r.method == Method::Get,
            r.url@ == url@,
            r.headers@ == Seq::<(Seq<char>, Seq<char>)>::empty(),
            r.body is None,
    {
        Request { method: Method::Get, url: owned(url), headers: Headers::new(), body: None }
    }

    /// A POST request with a body and its `content-length` header.
    pub fn post(url: &str, body: Vec<u8>) -> (r: Self)
        ensures
            r.method == Method::Post,
            r.url@ == url@,
            r.headers@ == seq![length_header(body@.len())],
            r.body matches Some(b) && b@ == body@,
    {
        let mut headers = Headers::new();
        let n = dec_string(body.len() as u64);
        headers.add("content-length", n.as_str());
        proof {
            assert(headers@ =~= seq![length_header(body@.len())]);
        }
        Request { method: Method::Post, url: owned(url), headers, body: Some(body) }
    }

    /// A PUT request with a body (and no headers).
    pub fn put(url: &str, body: Vec<u8>) -> (r: Self)
        ensures
            r.method == Method::Put,
            r.url@ == url@,
            r.headers@ == Seq::<(Seq<char>, Seq<char>)>::empty(),
            r.body matches Some(b) && b@ == body@,
    {
        Request { method: Method::Put, url: owned(url), headers: Headers::new(), body: Some(body) }
    }

    /// A DELETE request with no headers or body.
    pub fn delete(url: &str) -> (r: Self)
        ensures
            r.method == Method::Delete,
            r.url@ == url@,
            r.headers@ == Seq::<(Seq<char>, Seq<char>)>::empty(),
            r.body is None,
    {
        Request { method: Method::Delete, url: owned(url), headers: Headers::new(), body: None }
    }
}

/// HTTP response.
#[derive(Debug)]
pub struct Response {
    /// Status code.
    pub status: StatusCode,
    /// Response headers.
    pub headers: Headers,
    /// Response body.
    pub body: Vec<u8>,
}

/// The content of a response: status, headers and body.
pub open spec fn response_view(r: Response) -> (u16, Seq<(Seq<char>, Seq<char>)>, Seq<u8>) {
    (r.status.0, r.headers@, r.body@)
}

/// The content of the response `Response::new` makes.
pub open spec fn plain_response(status: u16, body: Seq<u8>) -> (u16, Seq<(Seq<char>, Seq<char>)>, Seq<u8>) {
    (status, seq![length_header(body.len())], body)
}

/// The content of a response with a body and a content type.
pub open spec fn typed_response(status: u16, body: Seq<u8>, ctype: Seq<char>) -> (
    u16,
    Seq<(Seq<char>, Seq<char>)>,
    Seq<u8>,
) {
    (status, seq![length_header(body.len()), (header_key("content-type"@), ctype)], body)
}

impl Response {
    /// A response with the given status and body, and its `content-length` header.
    pub fn new(status: StatusCode, body: Vec<u8>) -> (r: Self)
        ensures
            response_view(r) == plain_response(status.0, body@),
    {
        let mut headers = Headers::new();
        let n = dec_string(body.len() as u64);
        headers.add("content-length", n.as_str());
        proof {
            assert(headers@ =~= seq![length_header(body@.len())]);
        }
        Response { status, headers, body }
    }

    /// A copy of this response.
    pub fn duplicate(&self) -> (r: Self)
        ensures
            response_view(r) == response_view(*self),
    {
        let body = self.body.clone();
        proof {
            assert(body@ =~= self.body@);
        }
        Response { status: self.status, headers: self.headers.duplicate(), body }
    }

    /// A 200 response with a text body, typed `text/plain`.
    pub fn ok(body: &str) -> (r: Self)
        ensures
            response_view(r) == typed_response(200, body.spec_bytes(), "text/plain"@),
    {
        let bytes = slice_to_vec(body.as_bytes());
        let mut resp = Self::new(StatusCode(200), bytes);
        resp.headers.add("content-type", "text/plain");
        proof {
            assert(resp.headers@ =~= seq![length_header(body.spec_bytes().len()), (header_key("content-type"@), "text/plain"@)]);
        }
        resp
    }

    /// A response with a JSON body, typed `application/json`.
    pub fn json(status: StatusCode, json: &str) -> (r: Self)
        ensures
            response_view(r) == typed_response(status.0, json.spec_bytes(), "application/json"@),
    {
        let bytes = slice_to_vec(json.as_bytes());
        let mut resp = Self::new(status, bytes);
        resp.headers.add("content-type", "application/json");
        proof {
            assert(resp.headers@ =~= seq![length_header(json.spec_bytes().len()), (header_key("content-type"@), "application/json"@)]);
        }
        resp
    }

    /// A 400 response with the message as its body.
    pub fn bad_request(msg: &str) -> (r: Self)
        ensures
            response_view(r) == plain_response(400, msg.spec_bytes()),
    {
        Self::new(StatusCode(400), slice_to_vec(msg.as_bytes()))
    }

    /// A 404 response with the body `Not Found`.
    pub fn not_found() -> (r: Self)
        ensures
            response_view(r) == plain_response(404, "Not Found".spec_bytes()),
    {
        Self::new(StatusCode(404), slice_to_vec("Not Found".as_bytes()))
    }

    /// A 500 response with the message as its body.
    pub fn internal_error(msg: &str) -> (r: Self)
        ensures
            response_view(r) == plain_response(500, msg.spec_bytes()),
    {
        Self::new(StatusCode(500), slice_to_vec(msg.as_bytes()))
    }

    /// The body as text, when it is valid UTF-8.
    pub fn body_text(&self) -> (r: Option<String>)
        ensures
            r is Some <==> valid_utf8(self.body@),
            r matches Some(s) ==> s@ == decode_utf8(self.body@),
    {
        from_utf8(self.body.as_slice())
    }
}

fn slice_to_vec(b: &[u8]) -> (v: Vec<u8>)
    ensures
        v@ == b@,
{
    let mut v: Vec<u8> = Vec::new();
    let mut i: usize = 0;
    while i < b.len()
        invariant
            i <= b@.len(),
            v@ == b@.subrange(0, i as int),
        decreases b@.len() - i,
    {
        v.push(b[i]);
        proof {
            assert(b@.subrange(0, i + 1) =~= b@.subrange(0, i as int).push(b@[i as int]));
        }
        i = i + 1;
    }
    proof {
        assert(b@.subrange(0, i as int) =~= b@);
    }
    v
}

/// HTTP error.
#[derive(Debug, Clone, PartialEq)]
pub enum HttpError {
    /// Network-level error.
    NetworkError(String),
    /// Request timed out.
    Timeout,
    /// DNS resolution failure.
    DnsError(String),
    /// Invalid URL.
    InvalidUrl(String),
    /// Connection refused.
    ConnectionRefused,
}

/// The text of an HTTP error.
pub open spec fn http_error_text(e: HttpError) -> Seq<char> {
    match e {
        HttpError::NetworkError(m) => "network error: "@ + m@,
        HttpError::Timeout => "request timed out"@,
        HttpError::DnsError(m) => "DNS error: "@ + m@,
        HttpError::InvalidUrl(m) => "invalid URL: "@ + m@,
        HttpError::ConnectionRefused => "connection refused"@,
    }
}

impl HttpError {
    /// The text of this error.
    pub fn to_string(&self) -> (s: String)
        ensures
            s@ == http_error_text(*self),
    {
        match self {
            HttpError::NetworkError(m) => {
                let mut s = owned("network error: ");
                push_str(&mut s, m.as_str());
                s
            },
            HttpError::Timeout => owned("request timed out"),
            HttpError::DnsError(m) => {
                let mut s = owned("DNS error: ");
                push_str(&mut s, m.as_str());
                s
            },
            HttpError::InvalidUrl(m) => {
                let mut s = owned("invalid URL: ");
                push_str(&mut s, m.as_str());
                s
            },
            HttpError::ConnectionRefused => owned("connection refused"),
        }
    }
}

// ═════════════════════════════════════════════════════════════════════
// Client
// ═════════════════════════════════════════════════════════════════════

/// The answer to a request for `url`: its mock response, or 404.
pub open spec fn mock_answer(mocks: Map<Seq<char>, Response>, url: Seq<char>) -> (
    u16,
    Seq<(Seq<char>, Seq<char>)>,
    Seq<u8>,
) {
    if mocks.contains_key(url) {
        response_view(mocks[url])
    } else {
        plain_response(404, "Not Found".spec_bytes())
    }
}

/// A mocked URL is answered with its latest mock; other URLs are not
/// affected by it.
pub proof fn law_mock_then_answer(mocks: Map<Seq<char>, Response>, url: Seq<char>, resp: Response, other: Seq<char>)
    ensures
        mock_answer(mocks.insert(url, resp), url) == response_view(resp),
        other != url ==> mock_answer(mocks.insert(url, resp), other) == mock_answer(mocks, other),
{
}

/// A simulated HTTP client answering from registered mock responses.
#[derive(Debug)]
pub struct HttpClient {
    mock_responses: Vec<(String, Response)>,
    tls_enabled: bool,
    history: Vec<Request>,
}

impl HttpClient {
    /// The mock responses, by URL.
    pub closed spec fn mocks(&self) -> Map<Seq<char>, Response> {
        named_map(self.mock_responses@)
    }

    /// Whether HTTPS is available.
    pub closed spec fn tls(&self) -> bool {
        self.tls_enabled
    }

    /// The requests handled so far.
    pub closed spec fn requests(&self) -> Seq<Request> {
        self.history@
    }

    /// The client's invariant: one mock response per URL.
    pub closed spec fn wf(&self) -> bool {
        keys_distinct(named_entries(self.mock_responses@))
    }

    /// Creates a client with HTTPS available and nothing registered.
    pub fn new() -> (c: Self)
        ensures
            c.wf(),
            c.mocks() == Map::<Seq<char>, Response>::empty(),
            c.tls(),
            c.requests() == Seq::<Request>::empty(),
    {
        let c = HttpClient { mock_responses: Vec::new(), tls_enabled: true, history: Vec::new() };
        proof {
            assert(named_entries(c.mock_responses@) =~= Seq::empty());
        }
        c
    }

    /// Registers (or replaces) the mock response for a URL.
    pub fn mock(&mut self, url: &str, response: Response)
        requires
            old(self).wf(),
        ensures
            final(self).wf(),
            final(self).mocks() == old(self).mocks().insert(url@, response),
            final(self).tls() == old(self).tls(),
            final(self).requests() == old(self).requests(),
    {
        named_put(&mut self.mock_responses, owned(url), response);
    }

    /// Sends a request: an empty URL is invalid; an `https://` URL needs
    /// HTTPS; otherwise the request is recorded and the answer is the URL's
    /// mock response, or 404.
    pub fn handle(&mut self, request: Request) -> (r: Result<Response, HttpError>)
        requires
            old(self).wf(),
        ensures
            final(self).wf(),
            final(self).mocks() == old(self).mocks(),
            final(self).tls() == old(self).tls(),
            request.url@.len() == 0 ==> (r matches Err(e) && e matches HttpError::InvalidUrl(m) && m@
                == "empty URL"@ && final(self).requests() == old(self).requests()),
            request.url@.len() > 0 && seq_starts_with(request.url@, "https://"@) && !old(self).tls()
                ==> (r matches Err(e) && e matches HttpError::NetworkError(m) && m@ == "TLS not available"@
                && final(self).requests() == old(self).requests()),
            request.url@.len() > 0 && !(seq_starts_with(request.url@, "https://"@) && !old(self).tls())
                ==> (r matches Ok(resp) && final(self).requests() == old(self).requests().push(request)
                && response_view(resp) == mock_answer(old(self).mocks(), request.url@)),
    {
        if request.url.as_str().is_empty() {
            return Err(HttpError::InvalidUrl(owned("empty URL")));
        }
        if str_starts_with(request.url.as_str(), "https://") && !self.tls_enabled {
            return Err(HttpError::NetworkError(owned("TLS not available")));
        }
        let response = match named_get(&self.mock_responses, request.url.as_str()) {
            Some(resp) => resp.duplicate(),
            None => Response::not_found(),
        };
        self.history.push(request);
        Ok(response)
    }

    /// The requests handled so far, in order.
    pub fn request_history(&self) -> (h: &[Request])
        ensures
            h@ == self.requests(),
    {
        self.history.as_slice()
    }
}

impl Default for HttpClient {
    fn default() -> (c: Self)
        ensures
            c.wf(),
            c.mocks() == Map::<Seq<char>, Response>::empty(),
            c.tls(),
            c.requests() == Seq::<Request>::empty(),
    {
        Self::new()
    }
}

// ═════════════════════════════════════════════════════════════════════
// Static files
// ═════════════════════════════════════════════════════════════════════

/// The content type a served file gets from its name.
pub open spec fn content_type_of(path: Seq<char>) -> Seq<char> {
    if seq_ends_with(path, ".html"@) {
        "text/html"@
    } else if seq_ends_with(path, ".css"@) {
        "text/css"@
    } else if seq_ends_with(path, ".js"@) {
        "application/javascript"@
    } else {
        "application/octet-stream"@
    }
}

/// A served file's content type follows its extension: a name ending in
/// `.html` is `text/html`, in `.css` is `text/css`, in `.js` is
/// `application/javascript`, and any other name is
/// `application/octet-stream`.
pub proof fn law_content_type_by_extension(path: Seq<char>)
    ensures
        seq_ends_with(path, ".html"@) ==> content_type_of(path) == "text/html"@,
        seq_ends_with(path, ".css"@) ==> content_type_of(path) == "text/css"@,
        seq_ends_with(path, ".js"@) ==> content_type_of(path) == "application/javascript"@,
        !seq_ends_with(path, ".html"@) && !seq_ends_with(path, ".css"@) && !seq_ends_with(path, ".js"@)
            ==> content_type_of(path) == "application/octet-stream"@,
{
    reveal_strlit(".html");
    reveal_strlit(".css");
    reveal_strlit(".js");
    let n = path.len() as int;
    if seq_ends_with(path, ".css"@) {
        assert(path[n - 4] == path.subrange(n - 4, n)[0]);
        if seq_ends_with(path, ".html"@) {
            assert(path[n - 4] == path.subrange(n - 5, n)[1]);
        }
    }
    if seq_ends_with(path, ".js"@) {
        assert(path[n - 3] == path.subrange(n - 3, n)[0]);
        assert(path[n - 2] == path.subrange(n - 3, n)[1]);
        if seq_ends_with(path, ".html"@) {
            assert(path[n - 3] == path.subrange(n - 5, n)[2]);
        }
        if seq_ends_with(path, ".css"@) {
            assert(path[n - 3] == path.subrange(n - 4, n)[1]);
        }
    }
}

/// The content type a served file gets: HTML, CSS and JavaScript by their
/// extension, anything else as an octet stream.
pub fn content_type_for(path: &str) -> (t: &'static str)
    ensures
        t@ == content_type_of(path@),
{
    if str_ends_with(path, ".html") {
        "text/html"
    } else if str_ends_with(path, ".css") {
        "text/css"
    } else if str_ends_with(path, ".js") {
        "application/javascript"
    } else {
        "application/octet-stream"
    }
}

/// The response a static file is served with: 200, its bytes, and its
/// content type.
pub fn static_file_response(file_path: &str, data: &[u8]) -> (r: Response)
    ensures
        response_view(r) == typed_response(200, data@, content_type_of(file_path@)),
{
    let mut resp = Response::new(StatusCode(200), slice_to_vec(data));
    let mime = content_type_for(file_path);
    resp.headers.add("content-type", mime);
    proof {
        assert(resp.headers@ =~= seq![length_header(data@.len()), (header_key("content-type"@), content_type_of(file_path@))]);
    }
    resp
}

// ═════════════════════════════════════════════════════════════════════
// Routing
// ═════════════════════════════════════════════════════════════════════

/// A method as a value that two equal methods share: the variant's
/// position, and the text of a custom method.
pub open spec fn method_key(m: Method) -> (int, Seq<char>) {
    match m {
        Method::Get => (0, Seq::empty()),
        Method::Post => (1, Seq::empty()),
        Method::Put => (2, Seq::empty()),
        Method::Delete => (3, Seq::empty()),
        Method::Head => (4, Seq::empty()),
        Method::Options => (5, Seq::empty()),
        Method::Patch => (6, Seq::empty()),
        Method::Other(s) => (7, s@),
    }
}

/// Whether two methods are the same.
pub fn same_method(a: &Method, b: &Method) -> (r: bool)
    ensures
        r == (method_key(*a) == method_key(*b)),
{
    match (a, b) {
        (Method::Get, Method::Get) => true,
        (Method::Post, Method::Post) => true,
        (Method::Put, Method::Put) => true,
        (Method::Delete, Method::Delete) => true,
        (Method::Head, Method::Head) => true,
        (Method::Options, Method::Options) => true,
        (Method::Patch, Method::Patch) => true,
        (Method::Other(x), Method::Other(y)) => str_eq(x.as_str(), y.as_str()),
        _ => false,
    }
}

/// Where a request goes.
#[derive(Debug)]
pub enum Dispatch {
    /// To the handler of the route at this position.
    Handler(usize),
    /// Straight to this response: a static file, or 404.
    Respond(Response),
}

/// The files of a static directory, as text and bytes.
pub open spec fn file_view(v: Seq<(String, Vec<u8>)>) -> Seq<(Seq<char>, Seq<u8>)> {
    v.map_values(|f: (String, Vec<u8>)| (f.0@, f.1@))
}

/// The position of the first route from `j` on for this method and path.
pub open spec fn first_route(rs: Seq<((int, Seq<char>), Seq<char>)>, m: (int, Seq<char>), url: Seq<char>, j: int) -> Option<
    int,
>
    decreases rs.len() - j,
{
    if 0 <= j < rs.len() {
        if rs[j].0 == m && rs[j].1 == url {
            Some(j)
        } else {
            first_route(rs, m, url, j + 1)
        }
    } else {
        None
    }
}

/// The first static file, from directory `j` on, that `url` names: the
/// directory's prefix starts `url` and the rest of `url` is one of its
/// files. Gives the file's path within the directory and its bytes.
pub open spec fn static_hit(dirs: Seq<(Seq<char>, Seq<(Seq<char>, Seq<u8>)>)>, url: Seq<char>, j: int) -> Option<
    (Seq<char>, Seq<u8>),
>
    decreases dirs.len() - j,
{
    if 0 <= j < dirs.len() {
        let p = dirs[j].0;
        if seq_starts_with(url, p) {
            let rest = url.subrange(p.len() as int, url.len() as int);
            match get_first(dirs[j].1, rest) {
                Some(data) => Some((rest, data)),
                None => static_hit(dirs, url, j + 1),
            }
        } else {
            static_hit(dirs, url, j + 1)
        }
    } else {
        None
    }
}

/// The route a request goes to is the first one registered for its method
/// and path; where there is none, it goes to no route.
pub proof fn law_first_matching_route(rs: Seq<((int, Seq<char>), Seq<char>)>, m: (int, Seq<char>), url: Seq<char>)
    ensures
        match first_route(rs, m, url, 0) {
            Some(i) => 0 <= i < rs.len() && rs[i] == (m, url) && forall|j: int| 0 <= j < i ==> rs[j] != (m, url),
            None => forall|j: int| 0 <= j < rs.len() ==> rs[j] != (m, url),
        },
{
    lemma_first_route_from(rs, m, url, 0);
}

proof fn lemma_first_route_from(rs: Seq<((int, Seq<char>), Seq<char>)>, m: (int, Seq<char>), url: Seq<char>, k: int)
    requires
        0 <= k,
    ensures
        match first_route(rs, m, url, k) {
            Some(i) => k <= i < rs.len() && rs[i] == (m, url) && forall|j: int| k <= j < i ==> rs[j] != (m, url),
            None => forall|j: int| k <= j < rs.len() ==> rs[j] != (m, url),
        },
    decreases rs.len() - k,
{
    if k < rs.len() {
        lemma_first_route_from(rs, m, url, k + 1);
    }
}

/// A static file is served for a path that is a directory's prefix followed
/// by the name of one of that directory's files; where no directory has
/// such a file, nothing is served.
pub proof fn law_static_hit(dirs: Seq<(Seq<char>, Seq<(Seq<char>, Seq<u8>)>)>, url: Seq<char>)
    ensures
        static_hit(dirs, url, 0) matches Some((path, data)) ==> exists|j: int|
            0 <= j < dirs.len() && url == dirs[j].0 + path && #[trigger] get_first(dirs[j].1, path) == Some(data),
        static_hit(dirs, url, 0) is None ==> forall|j: int|
            0 <= j < dirs.len() && seq_starts_with(url, dirs[j].0) ==> #[trigger] get_first(
                dirs[j].1,
                url.subrange(dirs[j].0.len() as int, url.len() as int),
            ) is None,
{
    lemma_static_hit_from(dirs, url, 0);
}

proof fn lemma_static_hit_from(dirs: Seq<(Seq<char>, Seq<(Seq<char>, Seq<u8>)>)>, url: Seq<char>, k: int)
    requires
        0 <= k,
    ensures
        static_hit(dirs, url, k) matches Some((path, data)) ==> exists|j: int|
            k <= j < dirs.len() && url == dirs[j].0 + path && #[trigger] get_first(dirs[j].1, path) == Some(data),
        static_hit(dirs, url, k) is None ==> forall|j: int|
            k <= j < dirs.len() && seq_starts_with(url, dirs[j].0) ==> #[trigger] get_first(
                dirs[j].1,
                url.subrange(dirs[j].0.len() as int, url.len() as int),
            ) is None,
    decreases dirs.len() - k,
{
    if k < dirs.len() {
        lemma_static_hit_from(dirs, url, k + 1);
        let p = dirs[k].0;
        let rest = url.subrange(p.len() as int, url.len() as int);
        if seq_starts_with(url, p) && get_first(dirs[k].1, rest) is Some {
            assert(url =~= p + rest);
            assert(static_hit(dirs, url, k) == Some((rest, get_first(dirs[k].1, rest)->0)));
            let data = get_first(dirs[k].1, rest)->0;
            assert(get_first(dirs[k].1, rest) == Some(data));
            assert(k <= k < dirs.len() && url == dirs[k].0 + rest && get_first(dirs[k].1, rest) == Some(data));
            assert(exists|j: int|
                k <= j < dirs.len() && url == dirs[j].0 + rest && #[trigger] get_first(dirs[j].1, rest) == Some(data));
            assert(static_hit(dirs, url, k) matches Some((path, data)) ==> exists|j: int|
                k <= j < dirs.len() && url == dirs[j].0 + path && #[trigger] get_first(dirs[j].1, path) == Some(data));
        } else {
            assert(static_hit(dirs, url, k) == static_hit(dirs, url, k + 1));
            if static_hit(dirs, url, k) is None {
                assert forall|j: int|
                    k <= j < dirs.len() && seq_starts_with(url, dirs[j].0) implies #[trigger] get_first(
                        dirs[j].1,
                        url.subrange(dirs[j].0.len() as int, url.len() as int),
                    ) is None by {
                    if j == k {
                        assert(get_first(dirs[k].1, rest) is None);
                    }
                }
            } else {
                let (path, data) = static_hit(dirs, url, k)->0;
                assert(exists|j: int|
                    k + 1 <= j < dirs.len() && url == dirs[j].0 + path && #[trigger] get_first(dirs[j].1, path) == Some(data));
                assert(exists|j: int|
                    k <= j < dirs.len() && url == dirs[j].0 + path && #[trigger] get_first(dirs[j].1, path) == Some(data));
            }
        }
    } else {
        assert(static_hit(dirs, url, k) is None);
    }
}

/// The routing decisions of a server: routes by method and path, and
/// static file directories by path prefix, each kept in the order it was
/// registered.
#[derive(Debug)]
pub struct RouteTable {
    routes: Vec<(Method, String)>,
    static_dirs: Vec<(String, Vec<(String, Vec<u8>)>)>,
}

impl RouteTable {
    /// The routes: method and path.
    pub closed spec fn route_keys(&self) -> Seq<((int, Seq<char>), Seq<char>)> {
        self.routes@.map_values(|r: (Method, String)| (method_key(r.0), r.1@))
    }

    /// The static directories: prefix and files.
    pub closed spec fn static_view(&self) -> Seq<(Seq<char>, Seq<(Seq<char>, Seq<u8>)>)> {
        self.static_dirs@.map_values(|d: (String, Vec<(String, Vec<u8>)>)| (d.0@, file_view(d.1@)))
    }

    /// No routes and no static directories.
    pub fn new() -> (t: Self)
        ensures
            t.route_keys() == Seq::<((int, Seq<char>), Seq<char>)>::empty(),
            t.static_view() == Seq::<(Seq<char>, Seq<(Seq<char>, Seq<u8>)>)>::empty(),
    {
        let t = RouteTable { routes: Vec::new(), static_dirs: Vec::new() };
        proof {
            assert(t.route_keys() =~= Seq::<((int, Seq<char>), Seq<char>)>::empty());
            assert(t.static_view() =~= Seq::<(Seq<char>, Seq<(Seq<char>, Seq<u8>)>)>::empty());
        }
        t
    }

    /// Adds a route.
    pub fn add_route(&mut self, method: Method, path: &str)
        ensures
            final(self).route_keys() == old(self).route_keys().push((method_key(method), path@)),
            final(self).static_view() == old(self).static_view(),
    {
        let ghost k = method_key(method);
        self.routes.push((method, owned(path)));
        proof {
            assert(self.route_keys() =~= old(self).route_keys().push((k, path@)));
        }
    }

    /// Registers a static directory under `prefix`, replacing an earlier
    /// one with the same prefix.
    pub fn add_static(&mut self, prefix: &str, files: Vec<(String, Vec<u8>)>)
        ensures
            final(self).static_view() == put_first(old(self).static_view(), prefix@, file_view(files@)),
            final(self).route_keys() == old(self).route_keys(),
    {
        let ghost e = self.static_view();
        let ghost fv = file_view(files@);
        match find_name(&self.static_dirs, prefix) {
            Some(i) => {
                proof {
                    lemma_first_key_found(e, prefix@, 0, i as int);
                }
                self.static_dirs.set(i, (owned(prefix), files));
                proof {
                    assert(self.static_view() =~= e.update(i as int, (prefix@, fv)));
                }
            },
            None => {
                proof {
                    lemma_first_key_none(e, prefix@, 0);
                }
                self.static_dirs.push((owned(prefix), files));
                proof {
                    assert(self.static_view() =~= e.push((prefix@, fv)));
                }
            },
        }
    }

    /// The number of routes.
    pub fn route_count(&self) -> (n: usize)
        ensures
            n == self.route_keys().len(),
    {
        self.routes.len()
    }

    fn find_route(&self, method: &Method, url: &str) -> (r: Option<usize>)
        ensures
            match first_route(self.route_keys(), method_key(*method), url@, 0) {
                Some(i) => r == Some(i as usize),
                None => r is None,
            },
    {
        let ghost rs = self.route_keys();
        let mut i: usize = 0;
        while i < self.routes.len()
            invariant
                i <= self.routes@.len(),
                rs == self.route_keys(),
                first_route(rs, method_key(*method), url@, 0) == first_route(rs, method_key(*method), url@, i as int),
            decreases self.routes@.len() - i,
        {
            let r = &self.routes[i];
            if same_method(&r.0, method) && str_eq(r.1.as_str(), url) {
                return Some(i);
            }
            i = i + 1;
        }
        None
    }

    fn find_static(&self, url: &str) -> (r: Option<(String, Vec<u8>)>)
        ensures
            match static_hit(self.static_view(), url@, 0) {
                Some((p, d)) => r matches Some(x) && x.0@ == p && x.1@ == d,
                None => r is None,
            },
    {
        let ghost dirs = self.static_view();
        let chars = chars_of(url);
        let mut j: usize = 0;
        while j < self.static_dirs.len()
            invariant
                j <= self.static_dirs@.len(),
                dirs == self.static_view(),
                chars@ == url@,
                static_hit(dirs, url@, 0) == static_hit(dirs, url@, j as int),
            decreases self.static_dirs@.len() - j,
        {
            let d = &self.static_dirs[j];
            if str_starts_with(url, d.0.as_str()) {
                let plen = chars_of(d.0.as_str()).len();
                let rest = string_from_chars(vstd::slice::slice_subrange(chars.as_slice(), plen, chars.len()));
                let ghost fv = file_view(d.1@);
                match find_name(&d.1, rest.as_str()) {
                    Some(k) => {
                        proof {
                            lemma_first_key_found(fv, rest@, 0, k as int);
                        }
                        let data = slice_to_vec(d.1[k].1.as_slice());
                        return Some((rest, data));
                    },
                    None => {
                        proof {
                            lemma_first_key_none(fv, rest@, 0);
                        }
                    },
                }
            }
            j = j + 1;
        }
        None
    }

    /// Where a request goes: the first route with its method and path; else
    /// the first static file its path names, served with 200 and a content
    /// type; else 404.
    pub fn dispatch(&self, method: &Method, url: &str) -> (d: Dispatch)
        ensures
            match first_route(self.route_keys(), method_key(*method), url@, 0) {
                Some(i) => d == Dispatch::Handler(i as usize),
                None => match static_hit(self.static_view(), url@, 0) {
                    Some((path, data)) => d matches Dispatch::Respond(r) && response_view(r) == typed_response(
                        200,
                        data,
                        content_type_of(path),
                    ),
                    None => d matches Dispatch::Respond(r) && response_view(r) == plain_response(
                        404,
                        "Not Found".spec_bytes(),
                    ),
                },
            },
    {
        match self.find_route(method, url) {
            Some(i) => Dispatch::Handler(i),
            None => match self.find_static(url) {
                Some((path, data)) => Dispatch::Respond(static_file_response(path.as_str(), data.as_slice())),
                None => Dispatch::Respond(Response::not_found()),
            },
        }
    }
}

impl Default for RouteTable {
    fn default() -> (t: Self)
        ensures
            t.route_keys() == Seq::<((int, Seq<char>), Seq<char>)>::empty(),
            t.static_view() == Seq::<(Seq<char>, Seq<(Seq<char>, Seq<u8>)>)>::empty(),
    {
        Self::new()
    }
}

} // verus!
