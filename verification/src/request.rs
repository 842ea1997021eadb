//! Requests: their method, URL, query parameters, headers and body, the
//! text of the request head, and the bytes sent to the server.
use vstd::prelude::*;
use vstd::utf8::encode_utf8;

use crate::header_map::{
    insert_header, insert_headers, lemma_insert_keeps_sorted, pairs_view, set_header,
    sorted_by_name, HeaderPairs,
};
use crate::error::Error;
use crate::http_url::{base_url, parse_url, port_suffix, HttpUrl, Port, UrlView};
use crate::text::{
    all_ascii, ascii_lower, bytes_of, chars_of, decimal, extend_bytes, has_char, percent, push_char, push_decimal, push_str,
    same_text,
};
use crate::connection::Connection;
use crate::response::{read_whole, Response, ResponseLazy};
use crate::util::VecWriter;

verus! {

/// A URL as handed to a request.
pub type URL = String;

/// An HTTP request method.
#[derive(PartialEq, Eq, Debug)]
pub enum Method {
    /// The GET method
    Get,
    /// The HEAD method
    Head,
    /// The POST method
    Post,
    /// The PUT method
    Put,
    /// The DELETE method
    Delete,
    /// The CONNECT method
    Connect,
    /// The OPTIONS method
    Options,
    /// The TRACE method
    Trace,
    /// The PATCH method
    Patch,
    /// A custom method, use with care: the string will be embedded in
    /// your request as-is.
    Custom(String),
}

/// The name of a method as it stands in the request line.
pub open spec fn method_name(m: Method) -> Seq<char> {
    match m {
        Method::Get => "GET"@,
        Method::Head => "HEAD"@,
        Method::Post => "POST"@,
        Method::Put => "PUT"@,
        Method::Delete => "DELETE"@,
        Method::Connect => "CONNECT"@,
        Method::Options => "OPTIONS"@,
        Method::Trace => "TRACE"@,
        Method::Patch => "PATCH"@,
        Method::Custom(s) => s@,
    }
}

/// Whether the method defines a meaning for a request body, so that a
/// request without one announces `Content-Length: 0`.
pub open spec fn method_expects_body(m: Method) -> bool {
    m is Post || m is Put || m is Patch
}

impl Clone for Method {
    fn clone(&self) -> (m: Method)
        ensures
            m == *self,
    {
        match self {
            Method::Get => Method::Get,
            Method::Head => Method::Head,
            Method::Post => Method::Post,
            Method::Put => Method::Put,
            Method::Delete => Method::Delete,
            Method::Connect => Method::Connect,
            Method::Options => Method::Options,
            Method::Trace => Method::Trace,
            Method::Patch => Method::Patch,
            Method::Custom(s) => Method::Custom(s.clone()),
        }
    }
}

impl Method {
    /// The method's name as it stands in the request line: `GET`,
    /// `POST`, ..., or the custom string as given.
    pub fn name(&self) -> (s: String)
        ensures
            s@ == method_name(*self),
    {
        let mut s = String::new();
        match self {
            Method::Get => push_str(&mut s, "GET"),
            Method::Head => push_str(&mut s, "HEAD"),
            Method::Post => push_str(&mut s, "POST"),
            Method::Put => push_str(&mut s, "PUT"),
            Method::Delete => push_str(&mut s, "DELETE"),
            Method::Connect => push_str(&mut s, "CONNECT"),
            Method::Options => push_str(&mut s, "OPTIONS"),
            Method::Trace => push_str(&mut s, "TRACE"),
            Method::Patch => push_str(&mut s, "PATCH"),
            Method::Custom(c) => push_str(&mut s, c.as_str()),
        }
        assert(s@ =~= method_name(*self));
        s
    }

    /// Whether this is the HEAD method.
    pub fn is_head(&self) -> (r: bool)
        ensures
            r == (*self is Head),
    {
        match self {
            Method::Head => true,
            _ => false,
        }
    }
}

/// The bytes of an optional body.
pub open spec fn body_view(b: Option<Vec<u8>>) -> Option<Seq<u8>> {
    match b {
        Some(v) => Some(v@),
        None => None,
    }
}

/// The abstract value of a request.
pub struct RequestView {
    pub method: Method,
    pub url: Seq<char>,
    pub params: Seq<char>,
    pub headers: HeaderPairs,
    pub body: Option<Seq<u8>>,
    pub timeout: Option<u64>,
    pub max_headers_size: Option<usize>,
    pub max_status_line_len: Option<usize>,
    pub max_redirects: usize,
    pub follow_redirects: bool,
}

/// An HTTP request: its data only, until it is sent over a connection.
#[derive(PartialEq, Eq, Debug)]
pub struct Request {
    pub(crate) method: Method,
    pub(crate) url: URL,
    pub(crate) params: String,
    pub(crate) headers: Vec<(String, String)>,
    pub(crate) body: Option<Vec<u8>>,
    pub(crate) timeout: Option<u64>,
    pub(crate) max_headers_size: Option<usize>,
    pub(crate) max_status_line_len: Option<usize>,
    pub(crate) max_redirects: usize,
    pub(crate) follow_redirects: bool,
}

impl View for Request {
    type V = RequestView;

    closed spec fn view(&self) -> RequestView {
        RequestView {
            method: self.method,
            url: self.url@,
            params: self.params@,
            headers: pairs_view(self.headers@),
            body: body_view(self.body),
            timeout: self.timeout,
            max_headers_size: self.max_headers_size,
            max_status_line_len: self.max_status_line_len,
            max_redirects: self.max_redirects,
            follow_redirects: self.follow_redirects,
        }
    }
}

impl Clone for Request {
    fn clone(&self) -> (r: Request)
        ensures
            r@ == self@,
    {
        proof {
            use_type_invariant(self);
        }
        let mut headers: Vec<(String, String)> = Vec::new();
        let mut i: usize = 0;
        while i < self.headers.len()
            invariant
                i <= self.headers@.len(),
                headers@.len() == i,
                pairs_view(headers@) == pairs_view(self.headers@).take(i as int),
            decreases self.headers@.len() - i,
        {
            let name = self.headers[i].0.clone();
            let value = self.headers[i].1.clone();
            assert(name@ == self.headers@[i as int].0@);
            assert(value@ == self.headers@[i as int].1@);
            let ghost before = headers@;
            headers.push((name, value));
            assert(headers@ == before.push((name, value)));
            assert forall|j: int| 0 <= j < i + 1 implies #[trigger] pairs_view(headers@)[j]
                == pairs_view(self.headers@).take(i + 1)[j] by {
                if j < i {
                    assert(headers@[j] == before[j]);
                    assert(pairs_view(before)[j] == pairs_view(self.headers@).take(i as int)[j]);
                } else {
                    assert(headers@[j].0@ == name@);
                    assert(headers@[j].1@ == value@);
                    assert(pairs_view(headers@)[j] == (name@, value@));
                    assert(pairs_view(self.headers@)[j] == (self.headers@[j].0@, self.headers@[j].1@));
                }
            }
            i = i + 1;
            assert(pairs_view(headers@) =~= pairs_view(self.headers@).take(i as int));
        }
        assert(pairs_view(self.headers@).take(i as int) =~= pairs_view(self.headers@));
        let body = match &self.body {
            Some(b) => {
                let mut copy: Vec<u8> = Vec::new();
                extend_bytes(&mut copy, b);
                assert(copy@ =~= b@);
                Some(copy)
            },
            None => None,
        };
        Request {
            method: self.method.clone(),
            url: self.url.clone(),
            params: self.params.clone(),
            headers,
            body,
            timeout: self.timeout,
            max_headers_size: self.max_headers_size,
            max_status_line_len: self.max_status_line_len,
            max_redirects: self.max_redirects,
            follow_redirects: self.follow_redirects,
        }
    }
}

/// The percent-encoding that `urlencoding::encode` applies to one byte:
/// ASCII letters, digits and `-`, `.`, `_`, `~` stay, all else is escaped.
pub open spec fn query_encode_byte(b: u8) -> Seq<char> {
    if (48 <= b <= 57) || (65 <= b <= 90) || (97 <= b <= 122) || b == 45 || b == 46 || b == 95
        || b == 126 {
        seq![b as char]
    } else {
        percent(b)
    }
}

/// The percent-encoding of a byte string, byte by byte.
pub open spec fn query_encode_bytes(b: Seq<u8>) -> Seq<char>
    decreases b.len(),
{
    if b.len() == 0 {
        seq![]
    } else {
        query_encode_byte(b[0]) + query_encode_bytes(b.drop_first())
    }
}

/// The percent-encoding of a text: that of its UTF-8 bytes.
pub open spec fn query_encode(s: Seq<char>) -> Seq<char> {
    query_encode_bytes(encode_utf8(s))
}

/// The chars that a percent-encoded query text is made of: ASCII letters
/// and digits, `-`, `.`, `_`, `~` and `%`.
pub open spec fn query_char(c: char) -> bool {
    ||| ('0' <= c && c <= '9')
    ||| ('A' <= c && c <= 'Z')
    ||| ('a' <= c && c <= 'z')
    ||| c == '-' || c == '.' || c == '_' || c == '~' || c == '%'
}

/// A percent-encoded query text holds no `&`, `=`, `#`, space or any
/// other char outside `query_char`: keys and values cannot break the
/// query apart.
pub proof fn law_query_encode_chars(b: Seq<u8>)
    ensures
        forall|i: int| 0 <= i < query_encode_bytes(b).len() ==> query_char(
            #[trigger] query_encode_bytes(b)[i],
        ),
    decreases b.len(),
{
    if b.len() > 0 {
        law_query_encode_chars(b.drop_first());
        let head = query_encode_byte(b[0]);
        let rest = query_encode_bytes(b.drop_first());
        assert forall|i: int| 0 <= i < head.len() implies query_char(#[trigger] head[i]) by {
            let x = b[0];
            if (48 <= x <= 57) || (65 <= x <= 90) || (97 <= x <= 122) || x == 45 || x == 46
                || x == 95 || x == 126 {
                assert(head[i] == x as char);
            } else {
                assert(head == percent(x));
            }
        }
        assert forall|i: int| 0 <= i < query_encode_bytes(b).len() implies query_char(
            #[trigger] query_encode_bytes(b)[i],
        ) by {
            if i < head.len() {
                assert(query_encode_bytes(b)[i] == head[i]);
            } else {
                assert(query_encode_bytes(b)[i] == rest[i - head.len()]);
            }
        }
    }
}

/// The parameters after adding `key=value`, `&`-separated from those
/// before, key and value percent-encoded.
pub open spec fn add_param(params: Seq<char>, key: Seq<char>, value: Seq<char>) -> Seq<char> {
    let sep = if params.len() == 0 {
        Seq::<char>::empty()
    } else {
        seq!['&']
    };
    params + sep + query_encode(key) + seq!['='] + query_encode(value)
}

/// Percent-encodes a text for a query.
///
/// Calls `urlencoding::encode`, which escapes every byte of the text's
/// UTF-8 encoding as `%XY` (upper-case hex) except ASCII letters, digits
/// and `-`, `_`, `.`, `~`, which it keeps.
#[verifier::external_body]
fn query_escape(s: &str) -> (r: String)
    ensures
        r@ == query_encode(s@),
{
    urlencoding::encode(s).into_owned()
}

/// A request with the given fields and no headers, parameters or body.
pub open spec fn fresh_request(method: Method, url: Seq<char>) -> RequestView {
    RequestView {
        method,
        url,
        params: Seq::<char>::empty(),
        headers: Seq::<(Seq<char>, Seq<char>)>::empty(),
        body: None,
        timeout: None,
        max_headers_size: None,
        max_status_line_len: None,
        max_redirects: 100,
        follow_redirects: true,
    }
}

impl Request {
    #[verifier::type_invariant]
    spec fn headers_sorted(&self) -> bool {
        sorted_by_name(pairs_view(self.headers@))
    }

    /// Creates a new HTTP `Request` with the given method and URL: no
    /// parameters, headers or body, no timeout or caps, at most 100
    /// redirects, followed.
    pub fn new(method: Method, url: &str) -> (r: Request)
        ensures
            r@ == fresh_request(method, url@),
    {
        let empty: Vec<(String, String)> = Vec::new();
        assert(pairs_view(empty@) =~= Seq::<(Seq<char>, Seq<char>)>::empty());
        Request {
            method,
            url: url.to_owned(),
            params: String::new(),
            headers: empty,
            body: None,
            timeout: None,
            max_headers_size: None,
            max_status_line_len: None,
            max_redirects: 100,
            follow_redirects: true,
        }
    }

    /// Sets each of the given headers, in order: a later pair with the
    /// same name replaces an earlier value.
    pub fn with_headers(self, headers: Vec<(String, String)>) -> (r: Request)
        ensures
            r@ == (RequestView { headers: insert_headers(self@.headers, pairs_view(headers@)), ..self@ }),
    {
        proof {
            use_type_invariant(&self);
        }
        let ghost new = pairs_view(headers@);
        let Request {
            method,
            url,
            params,
            headers: mut list,
            body,
            timeout,
            max_headers_size,
            max_status_line_len,
            max_redirects,
            follow_redirects,
        } = self;
        let mut i: usize = 0;
        assert(new.take(0) =~= Seq::<(Seq<char>, Seq<char>)>::empty());
        while i < headers.len()
            invariant
                new == pairs_view(headers@),
                i <= headers@.len(),
                sorted_by_name(pairs_view(list@)),
                pairs_view(list@) == insert_headers(self@.headers, new.take(i as int)),
            decreases headers@.len() - i,
        {
            let name = headers[i].0.clone();
            let value = headers[i].1.clone();
            proof {
                lemma_insert_keeps_sorted(pairs_view(list@), name@, value@);
                assert(new.take(i + 1).drop_last() =~= new.take(i as int));
            }
            set_header(&mut list, name, value);
            i = i + 1;
        }
        assert(new.take(new.len() as int) =~= new);
        Request {
            method,
            url,
            params,
            headers: list,
            body,
            timeout,
            max_headers_size,
            max_status_line_len,
            max_redirects,
            follow_redirects,
        }
    }

    /// Sets the header `key` to `value`, replacing any earlier value.
    pub fn with_header(self, key: &str, value: &str) -> (r: Request)
        ensures
            r@ == (RequestView { headers: insert_header(self@.headers, key@, value@), ..self@ }),
    {
        proof {
            use_type_invariant(&self);
        }
        let Request {
            method,
            url,
            params,
            headers: mut list,
            body,
            timeout,
            max_headers_size,
            max_status_line_len,
            max_redirects,
            follow_redirects,
        } = self;
        proof {
            lemma_insert_keeps_sorted(pairs_view(list@), key@, value@);
        }
        set_header(&mut list, key.to_owned(), value.to_owned());
        Request {
            method,
            url,
            params,
            headers: list,
            body,
            timeout,
            max_headers_size,
            max_status_line_len,
            max_redirects,
            follow_redirects,
        }
    }

    /// Sets the request body, and the `Content-Length` header to its
    /// length in decimal.
    pub fn with_body(self, body: Vec<u8>) -> (r: Request)
        ensures
            r@ == (RequestView {
                body: Some(body@),
                headers: insert_header(
                    self@.headers,
                    "Content-Length"@,
                    decimal(body@.len() as nat),
                ),
                ..self@
            }),
    {
        proof {
            use_type_invariant(&self);
        }
        let mut length = String::new();
        push_decimal(&mut length, body.len() as u64);
        assert(length@ =~= decimal(body@.len() as nat));
        let Request {
            method,
            url,
            params,
            headers,
            body: _,
            timeout,
            max_headers_size,
            max_status_line_len,
            max_redirects,
            follow_redirects,
        } = self;
        let with_body = Request {
            method,
            url,
            params,
            headers,
            body: Some(body),
            timeout,
            max_headers_size,
            max_status_line_len,
            max_redirects,
            follow_redirects,
        };
        with_body.with_header("Content-Length", length.as_str())
    }

    /// Adds `key=value` to the query parameters, key and value
    /// percent-encoded, after a `&` when there are parameters already.
    pub fn with_param(self, key: &str, value: &str) -> (r: Request)
        ensures
            r@ == (RequestView { params: add_param(self@.params, key@, value@), ..self@ }),
    {
        proof {
            use_type_invariant(&self);
        }
        let ekey = query_escape(key);
        let evalue = query_escape(value);
        let Request {
            method,
            url,
            mut params,
            headers,
            body,
            timeout,
            max_headers_size,
            max_status_line_len,
            max_redirects,
            follow_redirects,
        } = self;
        let ghost before = params@;
        if !params.as_str().is_empty() {
            push_char(&mut params, '&');
        }
        push_str(&mut params, ekey.as_str());
        push_char(&mut params, '=');
        push_str(&mut params, evalue.as_str());
        assert(params@ =~= add_param(before, key@, value@));
        Request {
            method,
            url,
            params,
            headers,
            body,
            timeout,
            max_headers_size,
            max_status_line_len,
            max_redirects,
            follow_redirects,
        }
    }

    /// The request's method.
    pub fn method(&self) -> (m: &Method)
        ensures
            *m == self@.method,
    {
        &self.method
    }

    /// The request's URL, as given.
    pub fn url(&self) -> (u: &str)
        ensures
            u@ == self@.url,
    {
        self.url.as_str()
    }

    /// The query parameters added so far, `&`-separated and encoded.
    pub fn params(&self) -> (p: &str)
        ensures
            p@ == self@.params,
    {
        self.params.as_str()
    }

    /// The headers, sorted by name, each name once.
    pub fn headers(&self) -> (h: &Vec<(String, String)>)
        ensures
            pairs_view(h@) == self@.headers,
            sorted_by_name(self@.headers),
    {
        proof {
            use_type_invariant(self);
        }
        &self.headers
    }

    /// The body, if one was set.
    pub fn body(&self) -> (b: Option<&Vec<u8>>)
        ensures
            match b {
                Some(v) => self@.body == Some(v@),
                None => self@.body is None,
            },
    {
        match &self.body {
            Some(v) => Some(v),
            None => None,
        }
    }

    /// The timeout in seconds, if one was set.
    pub fn timeout(&self) -> (t: Option<u64>)
        ensures
            t == self@.timeout,
    {
        self.timeout
    }

    /// The cap on the response's headers, if one was set.
    pub fn max_headers_size(&self) -> (m: Option<usize>)
        ensures
            m == self@.max_headers_size,
    {
        self.max_headers_size
    }

    /// The cap on the response's status line, if one was set.
    pub fn max_status_line_len(&self) -> (m: Option<usize>)
        ensures
            m == self@.max_status_line_len,
    {
        self.max_status_line_len
    }

    /// The most redirects followed.
    pub fn max_redirects(&self) -> (m: usize)
        ensures
            m == self@.max_redirects,
    {
        self.max_redirects
    }

    /// Whether redirects are followed.
    pub fn follow_redirects(&self) -> (f: bool)
        ensures
            f == self@.follow_redirects,
    {
        self.follow_redirects
    }

    /// Replaces the method, as a `303 See Other` redirect does.
    pub(crate) fn set_method(&mut self, method: Method)
        ensures
            final(self)@ == (RequestView { method, ..old(self)@ }),
    {
        proof {
            use_type_invariant(&*self);
        }
        self.method = method;
    }

    /// Sets the request timeout in seconds.
    pub fn with_timeout(self, timeout: u64) -> (r: Request)
        ensures
            r@ == (RequestView { timeout: Some(timeout), ..self@ }),
    {
        proof {
            use_type_invariant(&self);
        }
        let mut r = self;
        r.timeout = Some(timeout);
        r
    }

    /// Sets the most redirects followed before giving up (100 unless
    /// set).
    pub fn with_max_redirects(self, max_redirects: usize) -> (r: Request)
        ensures
            r@ == (RequestView { max_redirects, ..self@ }),
    {
        proof {
            use_type_invariant(&self);
        }
        let mut r = self;
        r.max_redirects = max_redirects;
        r
    }

    /// Enables or disables following redirects (enabled unless set).
    pub fn with_follow_redirects(self, follow_redirects: bool) -> (r: Request)
        ensures
            r@ == (RequestView { follow_redirects, ..self@ }),
    {
        proof {
            use_type_invariant(&self);
        }
        let mut r = self;
        r.follow_redirects = follow_redirects;
        r
    }

    /// Sets the cap, in bytes, on all the response's headers together;
    /// `None` removes it.
    pub fn with_max_headers_size(self, max_headers_size: Option<usize>) -> (r: Request)
        ensures
            r@ == (RequestView { max_headers_size, ..self@ }),
    {
        proof {
            use_type_invariant(&self);
        }
        let mut r = self;
        r.max_headers_size = max_headers_size;
        r
    }

    /// Sets the cap, in bytes with the line ending, on the response's
    /// status line; `None` removes it.
    pub fn with_max_status_line_length(self, max_status_line_len: Option<usize>) -> (r: Request)
        ensures
            r@ == (RequestView { max_status_line_len, ..self@ }),
    {
        proof {
            use_type_invariant(&self);
        }
        let mut r = self;
        r.max_status_line_len = max_status_line_len;
        r
    }
}

/// What `str::to_lowercase` returns for a text: its Unicode lower-case
/// form.
pub uninterp spec fn lowercase(s: Seq<char>) -> Seq<char>;

/// The Unicode lower-case form of a text.
///
/// Calls `str::to_lowercase`, which returns the lower-case equivalent of
/// the text as a new `String`; its result depends on the text alone. The
/// Unicode lower case of an ASCII char is its ASCII lower case.
#[verifier::external_body]
pub(crate) fn to_lowercase(s: &str) -> (r: String)
    ensures
        r@ == lowercase(s@),
        all_ascii(s@) ==> r@ == ascii_lower(s@),
{
    s.to_lowercase()
}

/// The URL with the request's parameters added to its query: after `?`,
/// or after `&` when the query has a `?` already.
pub open spec fn url_with_params(u: UrlView, params: Seq<char>) -> UrlView {
    if params.len() == 0 {
        u
    } else {
        let sep = if u.path_and_query.contains('?') {
            seq!['&']
        } else {
            seq!['?']
        };
        UrlView { path_and_query: u.path_and_query + sep + params, ..u }
    }
}

/// The URL a request is sent to, or `None` when its URL does not parse.
pub open spec fn request_url(r: RequestView) -> Option<UrlView> {
    match parse_url(r.url, None) {
        Some(u) => Some(url_with_params(u, r.params)),
        None => None,
    }
}

/// The header lines `name: value\r\n`, in order.
pub open spec fn header_lines(hs: HeaderPairs) -> Seq<char>
    decreases hs.len(),
{
    if hs.len() == 0 {
        Seq::<char>::empty()
    } else {
        header_lines(hs.drop_last()) + hs.last().0 + ": "@ + hs.last().1 + "\r\n"@
    }
}

/// Whether a header names the body's length or transfer encoding, in any
/// case.
pub open spec fn announces_length(hs: HeaderPairs) -> bool {
    exists|i: int|
        0 <= i < hs.len() && (lowercase(#[trigger] hs[i].0) == "content-length"@ || lowercase(
            hs[i].0,
        ) == "transfer-encoding"@)
}

/// Whether an ASCII header name is `Content-Length` or
/// `Transfer-Encoding` in some mix of letter cases.
pub open spec fn ascii_case_length(hs: HeaderPairs) -> bool {
    exists|i: int|
        0 <= i < hs.len() && all_ascii(#[trigger] hs[i].0) && (ascii_lower(hs[i].0)
            == "content-length"@ || ascii_lower(hs[i].0) == "transfer-encoding"@)
}

/// The request head: the request line, the `Host` header (with the port
/// when written in the URL), the request's headers in name order,
/// `Content-Length: 0` when the method expects a body and no header gives
/// its length or encoding, and an empty line. The fragment is left out.
pub open spec fn http_head(method: Method, url: UrlView, hs: HeaderPairs) -> Seq<char> {
    let zero_length = if method_expects_body(method) && !announces_length(hs) {
        "Content-Length: 0\r\n"@
    } else {
        Seq::<char>::empty()
    };
    method_name(method) + " "@ + url.path_and_query + " HTTP/1.1\r\nHost: "@ + url.host
        + port_suffix(url.port) + "\r\n"@ + header_lines(hs) + zero_length + "\r\n"@
}

/// The bytes of a request: its head in UTF-8, then its body.
pub open spec fn request_bytes(method: Method, url: UrlView, hs: HeaderPairs, body: Option<
    Seq<u8>,
>) -> Seq<u8> {
    let b = match body {
        Some(b) => b,
        None => Seq::<u8>::empty(),
    };
    encode_utf8(http_head(method, url, hs)) + b
}

/// The views of a list of URLs.
pub open spec fn urls_view(v: Seq<HttpUrl>) -> Seq<UrlView> {
    Seq::new(v.len(), |i: int| v[i]@)
}

/// Whether `s` holds `://`.
pub open spec fn has_scheme_separator(s: Seq<char>) -> bool {
    exists|i: int| 0 <= i && i + 3 <= s.len() && #[trigger] s[i] == ':' && s[i + 1] == '/' && s[i + 2] == '/'
}

/// Where a redirect to `target` leads from `url`, after `redirects`: the
/// new URL, the new chain of URLs left behind, and whether the redirect
/// may be followed. A target with `://` is parsed as it stands, any other
/// is appended to the base of `url`; the new URL keeps the fragment of
/// `url` when it has none. The chain grows by `url`; a chain longer than
/// `max_redirects` fails with `TooManyRedirections`, and a new URL already
/// in the chain with `InfiniteRedirectionLoop`. When the target does not
/// parse, nothing changes.
pub open spec fn redirect_outcome(
    url: UrlView,
    redirects: Seq<UrlView>,
    max_redirects: usize,
    target: Seq<char>,
) -> (UrlView, Seq<UrlView>, Result<(), Error>) {
    let absolute = has_scheme_separator(target);
    let text = if absolute {
        target
    } else {
        base_url(url) + target
    };
    match parse_url(text, url.fragment) {
        None => (
            url,
            redirects,
            Err(
                if absolute {
                    Error::InvalidProtocolInRedirect
                } else {
                    Error::InvalidProtocol
                },
            ),
        ),
        Some(next) => {
            let chain = redirects.push(url);
            let res = if chain.len() > max_redirects {
                Err(Error::TooManyRedirections)
            } else if chain.contains(next) {
                Err(Error::InfiniteRedirectionLoop)
            } else {
                Ok(())
            };
            (next, chain, res)
        },
    }
}

/// A redirect that may be followed never makes the chain longer than
/// `max_redirects`, never leads to a URL already in the chain, and adds
/// exactly the URL it leaves to the chain.
pub proof fn law_redirect_bounded(
    url: UrlView,
    redirects: Seq<UrlView>,
    max_redirects: usize,
    target: Seq<char>,
)
    ensures
        ({
            let out = redirect_outcome(url, redirects, max_redirects, target);
            out.2 is Ok ==> {
                &&& out.1 == redirects.push(url)
                &&& out.1.len() <= max_redirects
                &&& !out.1.contains(out.0)
            }
        }),
{
}

/// A redirect is refused as a loop only when its new URL equals, in every
/// part (scheme, host, port, path and query, fragment), a URL of the chain
/// it leaves; and a redirect that passes the count and parses is refused as
/// a loop exactly then, so one that differs from each URL of the chain in
/// its scheme or port alone is followed.
pub proof fn law_loop_is_exact_revisit(
    url: UrlView,
    redirects: Seq<UrlView>,
    max_redirects: usize,
    target: Seq<char>,
)
    ensures
        ({
            let out = redirect_outcome(url, redirects, max_redirects, target);
            let revisit = exists|i: int|
                #![trigger out.1[i]]
                0 <= i < out.1.len() && out.1[i].https == out.0.https && out.1[i].host == out.0.host
                    && out.1[i].port == out.0.port && out.1[i].path_and_query
                    == out.0.path_and_query && out.1[i].fragment == out.0.fragment;
            &&& out.2 == Err::<(), Error>(Error::InfiniteRedirectionLoop) ==> revisit
            &&& (out.2 is Ok || out.2 == Err::<(), Error>(Error::InfiniteRedirectionLoop)) ==> (out.2
                == Err::<(), Error>(Error::InfiniteRedirectionLoop) <==> revisit)
            &&& (out.2 is Ok || out.2 == Err::<(), Error>(Error::InfiniteRedirectionLoop)) ==> out.1
                == redirects.push(url)
        }),
{
    let out = redirect_outcome(url, redirects, max_redirects, target);
    if out.1.contains(out.0) {
        let i = choose|i: int| 0 <= i < out.1.len() && out.1[i] == out.0;
        assert(out.1[i].https == out.0.https);
    }
    if exists|i: int|
        #![trigger out.1[i]]
        0 <= i < out.1.len() && out.1[i].https == out.0.https && out.1[i].host == out.0.host
            && out.1[i].port == out.0.port && out.1[i].path_and_query == out.0.path_and_query
            && out.1[i].fragment == out.0.fragment {
        let i = choose|i: int|
            #![trigger out.1[i]]
            0 <= i < out.1.len() && out.1[i].https == out.0.https && out.1[i].host == out.0.host
                && out.1[i].port == out.0.port && out.1[i].path_and_query
                == out.0.path_and_query && out.1[i].fragment == out.0.fragment;
        assert(out.1[i] == out.0);
        assert(out.1.contains(out.0));
    }
}

/// A POST, PUT or PATCH request with no header naming its length or
/// transfer encoding announces `Content-Length: 0`: its head is the GET
/// head for the same URL and headers, with its own method name, and
/// `Content-Length: 0` added just before the empty line that ends it. The
/// head of a request of any other method, or of one that names its length,
/// is the GET head with its own method name and nothing added.
pub proof fn law_zero_length_exactly_for_bodied_methods(m: Method, url: UrlView, hs: HeaderPairs)
    ensures
        ({
            let get_head = http_head(Method::Get, url, hs);
            let bodied = m is Post || m is Put || m is Patch;
            &&& bodied && !announces_length(hs) ==> http_head(m, url, hs) == method_name(m)
                + get_head.skip(3).drop_last().drop_last() + "Content-Length: 0\r\n\r\n"@
            &&& !(bodied && !announces_length(hs)) ==> http_head(m, url, hs) == method_name(m)
                + get_head.skip(3)
        }),
{
    reveal_strlit("GET");
    reveal_strlit("\r\n");
    reveal_strlit("Content-Length: 0\r\n");
    reveal_strlit("Content-Length: 0\r\n\r\n");
    let rest = " "@ + url.path_and_query + " HTTP/1.1\r\nHost: "@ + url.host + port_suffix(url.port)
        + "\r\n"@ + header_lines(hs);
    let get_head = http_head(Method::Get, url, hs);
    assert(get_head =~= "GET"@ + rest + "\r\n"@);
    assert(get_head.skip(3) =~= rest + "\r\n"@);
    assert(get_head.skip(3).drop_last().drop_last() =~= rest);
    assert(http_head(m, url, hs) =~= method_name(m) + rest + (if method_expects_body(m)
        && !announces_length(hs) {
        "Content-Length: 0\r\n"@
    } else {
        Seq::<char>::empty()
    }) + "\r\n"@);
    assert("Content-Length: 0\r\n"@ + "\r\n"@ =~= "Content-Length: 0\r\n\r\n"@);
    assert(method_name(m) + rest + "Content-Length: 0\r\n"@ + "\r\n"@ =~= method_name(m) + rest
        + "Content-Length: 0\r\n\r\n"@);
    assert(method_name(m) + rest + Seq::<char>::empty() + "\r\n"@ =~= method_name(m) + (rest
        + "\r\n"@));
}

/// The request head does not depend on the URL's fragment: fragments are
/// never sent.
pub proof fn law_head_ignores_fragment(m: Method, u1: UrlView, u2: UrlView, hs: HeaderPairs)
    requires
        u1.https == u2.https,
        u1.host == u2.host,
        u1.port == u2.port,
        u1.path_and_query == u2.path_and_query,
    ensures
        http_head(m, u1, hs) == http_head(m, u2, hs),
{
}

/// Writing a request into an empty buffer gives exactly its bytes.
pub proof fn law_fill_buffer_from_empty(
    method: Method,
    url: UrlView,
    hs: HeaderPairs,
    body: Option<Seq<u8>>,
)
    ensures
        Seq::<u8>::empty() + request_bytes(method, url, hs, body) == request_bytes(
            method,
            url,
            hs,
            body,
        ),
{
    assert(Seq::<u8>::empty() + request_bytes(method, url, hs, body) =~= request_bytes(
        method,
        url,
        hs,
        body,
    ));
}

/// Whether the text holds `://`.
fn contains_scheme_separator(s: &str) -> (r: bool)
    ensures
        r == has_scheme_separator(s@),
{
    let v = chars_of(s);
    let mut i: usize = 0;
    while v.len() >= 3 && i <= v.len() - 3
        invariant
            v@ == s@,
            forall|j: int| 0 <= j < i && j + 3 <= v@.len() ==> !(#[trigger] v@[j] == ':' && v@[j + 1] == '/' && v@[j + 2] == '/'),
        decreases v@.len() - i,
    {
        if v[i] == ':' && v[i + 1] == '/' && v[i + 2] == '/' {
            return true;
        }
        i = i + 1;
    }
    false
}

/// A request whose URL has been parsed, with the URLs it was redirected
/// away from.
pub struct ParsedRequest {
    /// The url of the request
    pub url: HttpUrl,
    /// The chain of redirected urls
    pub redirects: Vec<HttpUrl>,
    /// The underlying request object
    pub config: Request,
}

impl ParsedRequest {
    /// Parses the request's URL and adds its parameters to the query.
    /// Fails, with `InvalidProtocol`, exactly when the URL's scheme is
    /// neither `http://` nor `https://`.
    pub fn new(config: Request) -> (res: Result<ParsedRequest, Error>)
        ensures
            match res {
                Ok(p) => {
                    &&& request_url(config@) == Some(p.url@)
                    &&& p.redirects@.len() == 0
                    &&& p.config == config
                },
                Err(e) => request_url(config@) is None && e == Error::InvalidProtocol,
            },
    {
        let mut url = match HttpUrl::parse(config.url.as_str(), None) {
            Ok(u) => u,
            Err(e) => return Err(e),
        };
        if !config.params.as_str().is_empty() {
            let ghost before = url@;
            if has_char(url.path_and_query.as_str(), '?') {
                push_char(&mut url.path_and_query, '&');
            } else {
                push_char(&mut url.path_and_query, '?');
            }
            push_str(&mut url.path_and_query, config.params.as_str());
            assert(url@.path_and_query =~= url_with_params(before, config@.params).path_and_query);
        }
        Ok(ParsedRequest { url, redirects: Vec::new(), config })
    }

    /// The request head, as text.
    pub fn get_http_head(&self) -> (s: String)
        ensures
            s@ == http_head(self.config@.method, self.url@, self.config@.headers),
            method_expects_body(self.config@.method) && ascii_case_length(self.config@.headers)
                ==> announces_length(self.config@.headers),
    {
        let mut http = String::new();
        self.head_to_buf(&mut http);
        assert(Seq::<char>::empty() + http_head(self.config@.method, self.url@, self.config@.headers)
            =~= http_head(self.config@.method, self.url@, self.config@.headers));
        http
    }

    /// Whether some header names the body's length or transfer encoding.
    fn has_length_header(&self) -> (r: bool)
        ensures
            r == announces_length(self.config@.headers),
            ascii_case_length(self.config@.headers) ==> r,
    {
        let headers = &self.config.headers;
        let ghost hs = self.config@.headers;
        let mut i: usize = 0;
        while i < headers.len()
            invariant
                hs == pairs_view(headers@),
                hs == self.config@.headers,
                i <= headers@.len(),
                forall|j: int|
                    0 <= j < i ==> lowercase(#[trigger] hs[j].0) != "content-length"@ && lowercase(
                        hs[j].0,
                    ) != "transfer-encoding"@,
                forall|j: int|
                    0 <= j < i ==> (all_ascii(#[trigger] hs[j].0) ==> lowercase(hs[j].0)
                        == ascii_lower(hs[j].0)),
            decreases headers@.len() - i,
        {
            let key = to_lowercase(headers[i].0.as_str());
            if same_text(key.as_str(), "content-length") || same_text(
                key.as_str(),
                "transfer-encoding",
            ) {
                assert(hs[i as int].0 == headers@[i as int].0@);
                assert(lowercase(hs[i as int].0) == key@);
                return true;
            }
            assert(hs[i as int].0 == headers@[i as int].0@);
            i = i + 1;
        }
        proof {
            if ascii_case_length(hs) {
                let k = choose|k: int|
                    0 <= k < hs.len() && all_ascii(#[trigger] hs[k].0) && (ascii_lower(hs[k].0)
                        == "content-length"@ || ascii_lower(hs[k].0) == "transfer-encoding"@);
                assert(lowercase(hs[k].0) == ascii_lower(hs[k].0));
            }
        }
        false
    }

    /// Appends the request head to `http`.
    #[verifier::rlimit(40)]
    fn head_to_buf(&self, http: &mut String)
        ensures
            final(http)@ == old(http)@ + http_head(
                self.config@.method,
                self.url@,
                self.config@.headers,
            ),
            method_expects_body(self.config@.method) && ascii_case_length(self.config@.headers)
                ==> announces_length(self.config@.headers),
    {
        let method = self.config.method.name();
        push_str(http, method.as_str());
        push_str(http, " ");
        push_str(http, self.url.path_and_query.as_str());
        push_str(http, " HTTP/1.1\r\nHost: ");
        push_str(http, self.url.host.as_str());
        let ghost before_port = http@;
        match self.url.port {
            Port::Explicit(port) => {
                push_char(http, ':');
                push_decimal(http, port as u64);
                assert(http@ =~= before_port + port_suffix(self.url.port));
            },
            _ => {
                assert(http@ =~= before_port + port_suffix(self.url.port));
            },
        }
        push_str(http, "\r\n");
        let ghost start = http@;
        let headers = &self.config.headers;
        let ghost hs = self.config@.headers;
        let mut i: usize = 0;
        assert(hs.take(0) =~= Seq::<(Seq<char>, Seq<char>)>::empty());
        assert(start + header_lines(hs.take(0)) =~= start);
        while i < headers.len()
            invariant
                hs == pairs_view(headers@),
                i <= headers@.len(),
                http@ == start + header_lines(hs.take(i as int)),
            decreases headers@.len() - i,
        {
            push_str(http, headers[i].0.as_str());
            push_str(http, ": ");
            push_str(http, headers[i].1.as_str());
            push_str(http, "\r\n");
            assert(hs.take(i + 1).drop_last() =~= hs.take(i as int));
            i = i + 1;
            assert(http@ =~= start + header_lines(hs.take(i as int)));
        }
        assert(hs.take(hs.len() as int) =~= hs);
        let ghost before_zero = http@;
        match self.config.method {
            Method::Post | Method::Put | Method::Patch => {
                if !self.has_length_header() {
                    push_str(http, "Content-Length: 0\r\n");
                } else {
                    assert(http@ =~= before_zero + Seq::<char>::empty());
                }
            },
            _ => {
                assert(http@ =~= before_zero + Seq::<char>::empty());
            },
        }
        push_str(http, "\r\n");
        assert(http@ =~= old(http)@ + http_head(self.config@.method, self.url@, self.config@.headers));
    }

    /// The request as bytes, ready to be sent to the server: the head in
    /// UTF-8, then the body.
    pub fn as_bytes(&self) -> (b: Vec<u8>)
        ensures
            b@ == request_bytes(
                self.config@.method,
                self.url@,
                self.config@.headers,
                self.config@.body,
            ),
            method_expects_body(self.config@.method) && ascii_case_length(self.config@.headers)
                ==> announces_length(self.config@.headers),
    {
        let head = self.get_http_head();
        let mut bytes = bytes_of(head.as_str());
        match &self.config.body {
            Some(body) => extend_bytes(&mut bytes, body),
            None => {
                assert(bytes@ =~= bytes@ + Seq::<u8>::empty());
            },
        }
        bytes
    }

    /// Appends the request's bytes to `buf`.
    pub fn fill_buffer(&self, buf: &mut Vec<u8>)
        ensures
            final(buf)@ == old(buf)@ + request_bytes(
                self.config@.method,
                self.url@,
                self.config@.headers,
                self.config@.body,
            ),
            method_expects_body(self.config@.method) && ascii_case_length(self.config@.headers)
                ==> announces_length(self.config@.headers),
    {
        let head = self.get_http_head();
        {
            let mut writer_buf = VecWriter::new(buf);
            writer_buf.write_str(head.as_str());
        }
        match &self.config.body {
            Some(body) => extend_bytes(buf, body),
            None => {
                assert(buf@ =~= buf@ + Seq::<u8>::empty());
            },
        }
        assert(buf@ =~= old(buf)@ + request_bytes(
            self.config@.method,
            self.url@,
            self.config@.headers,
            self.config@.body,
        ));
    }

    /// Follows a redirect to `url`, as `redirect_outcome` describes: the
    /// request's URL becomes the new one and the old one joins the chain
    /// of redirects, unless the target does not parse.
    #[verifier::loop_isolation(false)]
    pub fn redirect_to(&mut self, url: &str) -> (res: Result<(), Error>)
        ensures
            ({
                let out = redirect_outcome(
                    old(self).url@,
                    urls_view(old(self).redirects@),
                    old(self).config@.max_redirects,
                    url@,
                );
                &&& final(self).url@ == out.0
                &&& urls_view(final(self).redirects@) == out.1
                &&& res == out.2
                &&& final(self).config == old(self).config
            }),
    {
        let ghost fragment = self.url@.fragment;
        let mut next = if contains_scheme_separator(url) {
            match HttpUrl::parse(url, Some(&self.url)) {
                Ok(u) => u,
                Err(_) => return Err(Error::InvalidProtocolInRedirect),
            }
        } else {
            let mut absolute_url = String::new();
            self.url.write_base_url_to(&mut absolute_url);
            push_str(&mut absolute_url, url);
            assert(absolute_url@ =~= base_url(self.url@) + url@);
            match HttpUrl::parse(absolute_url.as_str(), Some(&self.url)) {
                Ok(u) => u,
                Err(e) => return Err(e),
            }
        };
        let ghost before = urls_view(self.redirects@);
        std::mem::swap(&mut next, &mut self.url);
        self.redirects.push(next);
        assert(urls_view(self.redirects@) =~= before.push(old(self).url@));
        if self.redirects.len() > self.config.max_redirects {
            return Err(Error::TooManyRedirections);
        }
        let ghost chain = urls_view(self.redirects@);
        let mut i: usize = 0;
        while i < self.redirects.len()
            invariant
                chain == urls_view(self.redirects@),
                i <= self.redirects@.len(),
                forall|j: int| 0 <= j < i ==> chain[j] != self.url@,
            decreases self.redirects@.len() - i,
        {
            if self.redirects[i].same_as(&self.url) {
                assert(chain[i as int] == self.url@);
                return Err(Error::InfiniteRedirectionLoop);
            }
            i = i + 1;
        }
        assert(!chain.contains(self.url@));
        Ok(())
    }
}

impl Request {
    /// The request as bytes, ready to be sent: its head in UTF-8, then its
    /// body. Fails exactly when the URL does not parse.
    pub fn as_bytes(self) -> (res: Result<Vec<u8>, Error>)
        ensures
            match request_url(self@) {
                Some(u) => res matches Ok(b) && b@ == request_bytes(
                    self@.method,
                    u,
                    self@.headers,
                    self@.body,
                ),
                None => res == Err::<Vec<u8>, Error>(Error::InvalidProtocol),
            },
            res is Ok && method_expects_body(self@.method) && ascii_case_length(self@.headers)
                ==> announces_length(self@.headers),
    {
        let parsed_request = match ParsedRequest::new(self) {
            Ok(p) => p,
            Err(e) => return Err(e),
        };
        Ok(parsed_request.as_bytes())
    }

    /// Appends the request's bytes to `buf`, as `as_bytes` gives them.
    /// Fails, leaving `buf` as it was, exactly when the URL does not parse.
    pub fn fill_buffer(self, buf: &mut Vec<u8>) -> (res: Result<(), Error>)
        ensures
            match request_url(self@) {
                Some(u) => res is Ok && final(buf)@ == old(buf)@ + request_bytes(
                    self@.method,
                    u,
                    self@.headers,
                    self@.body,
                ),
                None => res == Err::<(), Error>(Error::InvalidProtocol) && final(buf)@ == old(buf)@,
            },
            res is Ok && method_expects_body(self@.method) && ascii_case_length(self@.headers)
                ==> announces_length(self@.headers),
    {
        let parsed_request = match ParsedRequest::new(self) {
            Ok(p) => p,
            Err(e) => return Err(e),
        };
        parsed_request.fill_buffer(buf);
        Ok(())
    }

    /// Sends this request over `conn` and reads the whole response: none
    /// of the body for a HEAD request. Fails without sending when the URL
    /// does not parse; otherwise the parsed request goes to the connection,
    /// whose error is passed on and whose response is read whole.
    pub fn send<T: Connection>(self, conn: T) -> (res: Result<Response, Error>)
        ensures
            request_url(self@) is None ==> res == Err::<Response, Error>(Error::InvalidProtocol),
            request_url(self@) matches Some(u) ==> exists|
                p: ParsedRequest,
                answer: Result<ResponseLazy, Error>,
            |
                {
                    &&& #[trigger] call_ensures(T::send, (conn, p), answer)
                    &&& p.url@ == u
                    &&& p.redirects@.len() == 0
                    &&& p.config@ == self@
                    &&& match answer {
                        Ok(lazy) => res matches Ok(full) && read_whole(
                            full,
                            lazy,
                            self@.method is Head,
                        ),
                        Err(e) => res == Err::<Response, Error>(e),
                    }
                    &&& !(self@.method is Head) ==> (answer matches Ok(lazy) ==> (res matches Ok(
                        full,
                    ) && full.status_code == lazy.status_code && full.body@ == lazy.body@))
                },
            self@.method is Head ==> (res matches Ok(r) ==> r.body@.len() == 0),
    {
        let parsed_request = match ParsedRequest::new(self) {
            Ok(p) => p,
            Err(e) => return Err(e),
        };
        let is_head = parsed_request.config.method().is_head();
        let ghost sent = parsed_request;
        let answer = conn.send(parsed_request);
        assert(call_ensures(T::send, (conn, sent), answer));
        let response = match answer {
            Ok(r) => r,
            Err(e) => return Err(e),
        };
        Ok(Response::create(response, is_head))
    }

    /// Sends this request over `conn`, handing back the response as the
    /// connection received it. Fails without sending when the URL does
    /// not parse; otherwise the parsed request goes to the connection,
    /// whose answer is handed back unchanged.
    pub fn send_lazy<T: Connection>(self, conn: T) -> (res: Result<ResponseLazy, Error>)
        ensures
            request_url(self@) is None ==> res == Err::<ResponseLazy, Error>(Error::InvalidProtocol),
            request_url(self@) matches Some(u) ==> exists|p: ParsedRequest|
                {
                    &&& #[trigger] call_ensures(T::send, (conn, p), res)
                    &&& p.url@ == u
                    &&& p.redirects@.len() == 0
                    &&& p.config@ == self@
                },
    {
        let parsed_request = match ParsedRequest::new(self) {
            Ok(p) => p,
            Err(e) => return Err(e),
        };
        conn.send(parsed_request)
    }
}

/// A GET request to `url`.
pub fn get(url: &str) -> (r: Request)
    ensures
        r@ == fresh_request(Method::Get, url@),
{
    Request::new(Method::Get, url)
}

/// A HEAD request to `url`.
pub fn head(url: &str) -> (r: Request)
    ensures
        r@ == fresh_request(Method::Head, url@),
{
    Request::new(Method::Head, url)
}

/// A POST request to `url`.
pub fn post(url: &str) -> (r: Request)
    ensures
        r@ == fresh_request(Method::Post, url@),
{
    Request::new(Method::Post, url)
}

/// A PUT request to `url`.
pub fn put(url: &str) -> (r: Request)
    ensures
        r@ == fresh_request(Method::Put, url@),
{
    Request::new(Method::Put, url)
}

/// A DELETE request to `url`.
pub fn delete(url: &str) -> (r: Request)
    ensures
        r@ == fresh_request(Method::Delete, url@),
{
    Request::new(Method::Delete, url)
}

/// A CONNECT request to `url`.
pub fn connect(url: &str) -> (r: Request)
    ensures
        r@ == fresh_request(Method::Connect, url@),
{
    Request::new(Method::Connect, url)
}

/// An OPTIONS request to `url`.
pub fn options(url: &str) -> (r: Request)
    ensures
        r@ == fresh_request(Method::Options, url@),
{
    Request::new(Method::Options, url)
}

/// A TRACE request to `url`.
pub fn trace(url: &str) -> (r: Request)
    ensures
        r@ == fresh_request(Method::Trace, url@),
{
    Request::new(Method::Trace, url)
}

/// A PATCH request to `url`.
pub fn patch(url: &str) -> (r: Request)
    ensures
        r@ == fresh_request(Method::Patch, url@),
{
    Request::new(Method::Patch, url)
}

} // verus!
