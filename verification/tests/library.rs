use minreq::{
    ensure_ascii_host, get, handle_redirects, join_labels, post, remaining_or_timeout,
    timeout_at_to_duration, Connection, Error, HttpUrl, Method, ParsedRequest, Port, Request,
    Response, ResponseLazy,
};
use std::time::{Duration, Instant};

fn text(bytes: Vec<u8>) -> String {
    String::from_utf8(bytes).unwrap()
}

#[test]
fn head_is_written_in_order_without_fragment() {
    let req = get("http://example.com:8080/p?q#frag")
        .with_header("B", "2")
        .with_header("A", "1");
    assert_eq!(
        text(req.as_bytes().unwrap()),
        "GET /p?q HTTP/1.1\r\nHost: example.com:8080\r\nA: 1\r\nB: 2\r\n\r\n"
    );
}

#[test]
fn head_without_written_port_has_bare_host() {
    let req = minreq::head("https://example.com");
    assert_eq!(text(req.as_bytes().unwrap()), "HEAD / HTTP/1.1\r\nHost: example.com\r\n\r\n");
}

#[test]
fn post_without_body_announces_zero_length() {
    let req = post("http://example.com/x");
    assert_eq!(
        text(req.as_bytes().unwrap()),
        "POST /x HTTP/1.1\r\nHost: example.com\r\nContent-Length: 0\r\n\r\n"
    );
}

#[test]
fn length_header_in_any_case_suppresses_zero_length() {
    let req = minreq::put("http://example.com/x").with_header("CONTENT-length", "3");
    assert_eq!(
        text(req.as_bytes().unwrap()),
        "PUT /x HTTP/1.1\r\nHost: example.com\r\nCONTENT-length: 3\r\n\r\n"
    );
    let req = minreq::patch("http://example.com/x").with_header("Transfer-Encoding", "chunked");
    assert!(!text(req.as_bytes().unwrap()).contains("Content-Length: 0"));
}

#[test]
fn get_never_announces_zero_length() {
    let req = get("http://example.com/x");
    assert!(!text(req.as_bytes().unwrap()).contains("Content-Length"));
}

#[test]
fn body_sets_content_length_and_follows_head() {
    let req = post("http://example.com/x").with_body(b"hello world!".to_vec());
    assert_eq!(
        text(req.as_bytes().unwrap()),
        "POST /x HTTP/1.1\r\nHost: example.com\r\nContent-Length: 12\r\n\r\nhello world!"
    );
}

#[test]
fn header_is_replaced_not_repeated() {
    let req = get("http://example.com").with_header("X", "1").with_header("X", "2");
    assert_eq!(req.headers(), &vec![("X".to_string(), "2".to_string())]);
}

#[test]
fn later_headers_win_and_names_are_sorted() {
    let req = get("http://example.com").with_header("b", "old").with_headers(vec![
        ("c".to_string(), "3".to_string()),
        ("b".to_string(), "new".to_string()),
        ("a".to_string(), "1".to_string()),
        ("c".to_string(), "last".to_string()),
    ]);
    assert_eq!(
        req.headers(),
        &vec![
            ("a".to_string(), "1".to_string()),
            ("b".to_string(), "new".to_string()),
            ("c".to_string(), "last".to_string()),
        ]
    );
}

#[test]
fn fill_buffer_appends_the_request_bytes() {
    let req = get("http://example.com/a").with_header("Authorization", "Bearer t");
    let expected = req.clone().as_bytes().unwrap();
    let mut buf = b"prefix".to_vec();
    req.fill_buffer(&mut buf).unwrap();
    let mut whole = b"prefix".to_vec();
    whole.extend(expected);
    assert_eq!(buf, whole);
}

#[test]
fn bad_scheme_is_refused() {
    assert_eq!(get("ftp://example.com").as_bytes(), Err(Error::InvalidProtocol));
    let mut buf = b"keep".to_vec();
    assert_eq!(get("example.com").fill_buffer(&mut buf), Err(Error::InvalidProtocol));
    assert_eq!(buf, b"keep".to_vec());
    assert!(ParsedRequest::new(get("htp://x")).is_err());
}

#[test]
fn new_request_defaults() {
    let req = Request::new(Method::Delete, "http://example.com");
    assert_eq!(req.method(), &Method::Delete);
    assert_eq!(req.url(), "http://example.com");
    assert_eq!(req.params(), "");
    assert!(req.headers().is_empty());
    assert!(req.body().is_none());
    assert_eq!(req.timeout(), None);
    assert_eq!(req.max_headers_size(), None);
    assert_eq!(req.max_status_line_len(), None);
    assert_eq!(req.max_redirects(), 100);
    assert!(req.follow_redirects());
}

#[test]
fn setters_set() {
    let req = get("http://example.com")
        .with_timeout(7)
        .with_max_redirects(3)
        .with_follow_redirects(false)
        .with_max_headers_size(Some(10))
        .with_max_status_line_length(Some(20));
    assert_eq!(req.timeout(), Some(7));
    assert_eq!(req.max_redirects(), 3);
    assert!(!req.follow_redirects());
    assert_eq!(req.max_headers_size(), Some(10));
    assert_eq!(req.max_status_line_len(), Some(20));
}

#[test]
fn params_join_an_existing_query_with_ampersand() {
    let req = ParsedRequest::new(get("http://example.com/p?x=1").with_param("a b", "c&d")).unwrap();
    assert_eq!(req.url.path_and_query, "/p?x=1&a%20b=c%26d");
}

#[test]
fn method_names() {
    assert_eq!(Method::Get.name(), "GET");
    assert_eq!(Method::Options.name(), "OPTIONS");
    assert_eq!(Method::Custom("BREW".to_string()).name(), "BREW");
    assert!(Method::Head.is_head());
    assert!(!Method::Get.is_head());
}

#[test]
fn url_parts() {
    let u = HttpUrl::parse("https://host:+8443/a b?c=d#e f", None).unwrap();
    assert!(u.https);
    assert_eq!(u.host, "host");
    assert_eq!(u.port, Port::Explicit(8443));
    assert_eq!(u.path_and_query, "/a%20b?c=d");
    assert_eq!(u.fragment, Some("e%20f".to_string()));
    let mut base = String::new();
    u.write_base_url_to(&mut base);
    assert_eq!(base, "https://host:8443");
    let mut res = String::new();
    u.write_resource_to(&mut res);
    assert_eq!(res, "/a%20b?c=d#e%20f");
}

#[test]
fn url_ports() {
    let u = HttpUrl::parse("http://host:99999999999/", None).unwrap();
    assert_eq!(u.port, Port::ImplicitHttp);
    assert_eq!(u.port.port(), 80);
    let u = HttpUrl::parse("https://host:abc", None).unwrap();
    assert_eq!(u.port, Port::ImplicitHttps);
    assert_eq!(u.port.port(), 443);
    assert_eq!(u.path_and_query, "/");
    let u = HttpUrl::parse("http://host:0?q", None).unwrap();
    assert_eq!(u.port.port(), 0);
    assert_eq!(u.path_and_query, "?q");
}

#[test]
fn url_fragment_is_inherited_only_when_missing() {
    let first = HttpUrl::parse("http://a/x#keep", None).unwrap();
    let next = HttpUrl::parse("http://b/y", Some(&first)).unwrap();
    assert_eq!(next.fragment, Some("keep".to_string()));
    let own = HttpUrl::parse("http://b/y#own", Some(&first)).unwrap();
    assert_eq!(own.fragment, Some("own".to_string()));
    assert!(!next.same_as(&own));
    assert!(next.same_as(&HttpUrl::parse("http://b/y#keep", None).unwrap()));
}

fn parsed(url: &str) -> ParsedRequest {
    ParsedRequest::new(get(url)).unwrap()
}

#[test]
fn redirect_relative_and_absolute() {
    let mut req = parsed("http://h:81/start#f");
    assert_eq!(req.redirect_to("/next"), Ok(()));
    assert_eq!(req.url.host, "h");
    assert_eq!(req.url.port, Port::Explicit(81));
    assert_eq!(req.url.path_and_query, "/next");
    assert_eq!(req.url.fragment, Some("f".to_string()));
    assert_eq!(req.redirects.len(), 1);
    assert_eq!(req.redirect_to("https://other/"), Ok(()));
    assert!(req.url.https);
    assert_eq!(req.redirects.len(), 2);
}

#[test]
fn redirect_errors() {
    let mut req = parsed("http://h/a");
    assert_eq!(req.redirect_to("ftp://x/"), Err(Error::InvalidProtocolInRedirect));
    assert_eq!(req.redirects.len(), 0);
    assert_eq!(req.url.path_and_query, "/a");

    let mut req = ParsedRequest::new(get("http://h/a").with_max_redirects(0)).unwrap();
    assert_eq!(req.redirect_to("/b"), Err(Error::TooManyRedirections));

    let mut req = parsed("http://h/a");
    assert_eq!(req.redirect_to("/b"), Ok(()));
    assert_eq!(req.redirect_to("/a"), Err(Error::InfiniteRedirectionLoop));
}

#[test]
fn ascii_hosts() {
    assert_eq!(ensure_ascii_host("example.com".to_string()), Ok("example.com".to_string()));
    assert_eq!(
        ensure_ascii_host("bücher.example".to_string()),
        Ok("xn--bcher-kva.example".to_string())
    );
    assert_eq!(
        ensure_ascii_host("www.mañana.com".to_string()),
        Ok("www.xn--maana-pta.com".to_string())
    );
    let long = format!("{}ü", "a".repeat(3000));
    let converted = ensure_ascii_host(long).unwrap();
    assert!(converted.starts_with("xn--"));
    assert!(converted.is_ascii());
    let many = "ü".repeat(2049);
    let converted = ensure_ascii_host(format!("a.{}.b", many)).unwrap();
    assert!(converted.is_ascii());
    assert_eq!(converted.split('.').count(), 3);
    assert!(converted.starts_with("a.xn--"));
    assert!(converted.ends_with(".b"));
}

#[test]
fn joining_labels() {
    assert_eq!(
        join_labels(&vec![Some("a".to_string()), Some("b".to_string())]),
        Ok("a.b".to_string())
    );
    assert_eq!(
        join_labels(&vec![Some("a".to_string()), None]),
        Err(Error::PunycodeConversionFailed)
    );
}

#[test]
fn timeouts() {
    assert_eq!(timeout_at_to_duration(None), Ok(None));
    let past = Instant::now().checked_sub(Duration::from_secs(1)).unwrap();
    assert_eq!(timeout_at_to_duration(Some(past)), Err(Error::RequestTimedOut));
    let future = Instant::now() + Duration::from_secs(3600);
    assert!(matches!(timeout_at_to_duration(Some(future)), Ok(Some(_))));
    assert_eq!(remaining_or_timeout(None), Err(Error::RequestTimedOut));
    assert_eq!(
        remaining_or_timeout(Some(Duration::from_secs(2))),
        Ok(Some(Duration::from_secs(2)))
    );
}

#[test]
fn response_heads() {
    let r = ResponseLazy::from_bytes(
        b"HTTP/1.1 404 Not Found\r\nX-Thing:v\r\nContent-Length: 2\r\n\r\nabcdef",
        None,
        None,
    )
    .unwrap();
    assert_eq!(r.status_code, 404);
    assert_eq!(r.reason_phrase, "Not Found");
    assert_eq!(r.header("x-thing"), Some(&"v".to_string()));
    assert_eq!(r.body, b"ab".to_vec());
    assert_eq!(r.url, "");

    let r = ResponseLazy::from_bytes(b"garbage\n\nrest", None, None).unwrap();
    assert_eq!(r.status_code, 503);
    assert_eq!(r.reason_phrase, "Server did not provide a status line");
    assert_eq!(r.body, b"rest".to_vec());

    assert!(matches!(
        ResponseLazy::from_bytes(b"HTTP/1.1 200 OK\r\n\xff: x\r\n\r\n", None, None),
        Err(Error::InvalidUtf8InResponse)
    ));
    assert!(matches!(
        ResponseLazy::from_bytes(b"HTTP/1.1 200 OK\r\nA: 12345\r\n\r\n", Some(5), None),
        Err(Error::HeadersOverflow)
    ));
}

#[test]
fn head_response_has_no_body() {
    let lazy = ResponseLazy::new(200, "OK".to_string(), vec![], b"body".to_vec());
    let full = Response::create(lazy, true);
    assert!(full.body.is_empty());
    let lazy = ResponseLazy::new(200, "OK".to_string(), vec![], b"body".to_vec());
    assert_eq!(Response::create(lazy, false).body, b"body".to_vec());
}

struct Refuse;

impl Connection for Refuse {
    fn send(self, _request: ParsedRequest) -> Result<ResponseLazy, Error> {
        Err(Error::Other("not sent".to_string()))
    }
}

#[test]
fn redirect_without_location_fails() {
    let response = ResponseLazy::new(302, "Found".to_string(), vec![], vec![]);
    let res = handle_redirects(Refuse, parsed("http://h/a"), response);
    assert!(matches!(res, Err(Error::RedirectLocationMissing)));
}

#[test]
fn final_response_gets_the_request_url() {
    let response = ResponseLazy::new(200, "OK".to_string(), vec![], b"x".to_vec());
    let res = handle_redirects(Refuse, parsed("http://h:8/a?b#c"), response).unwrap();
    assert_eq!(res.url, "http://h:8/a?b#c");
    assert_eq!(res.body, b"x".to_vec());

    let response = ResponseLazy::new(
        301,
        "Moved".to_string(),
        vec![("location".to_string(), "/b".to_string())],
        vec![],
    );
    let not_following = ParsedRequest::new(get("http://h/a").with_follow_redirects(false)).unwrap();
    let res = handle_redirects(Refuse, not_following, response).unwrap();
    assert_eq!(res.status_code, 301);
    assert_eq!(res.url, "http://h/a");
}

#[test]
fn followed_redirect_goes_to_the_connection() {
    let response = ResponseLazy::new(
        307,
        "Temporary".to_string(),
        vec![("location".to_string(), "/b".to_string())],
        vec![],
    );
    let res = handle_redirects(Refuse, parsed("http://h/a"), response);
    assert!(matches!(res, Err(Error::Other(_))));
}

#[test]
fn request_head_text() {
    let req = parsed("http://h/a");
    assert_eq!(req.get_http_head(), "GET /a HTTP/1.1\r\nHost: h\r\n\r\n");
}

#[test]
fn chunked_body_is_decoded_with_trailers() {
    let r = ResponseLazy::from_bytes(
        b"HTTP/1.1 200 OK\r\nTransfer-Encoding: chunked\r\nContent-Length: 3\r\n\r\n4\r\nWiki\r\n5;ext=1\r\npedia\r\n0\r\nX-Trailer: yes\r\n\r\n",
        None,
        None,
    )
    .unwrap();
    assert_eq!(r.status_code, 200);
    assert_eq!(r.body, b"Wikipedia".to_vec());
    assert_eq!(r.header("x-trailer"), Some(&"yes".to_string()));
    assert_eq!(r.header("transfer-encoding"), Some(&"chunked".to_string()));

    let r = ResponseLazy::from_bytes(
        b"HTTP/1.1 200 OK\r\ntransfer-encoding:  Chunked \r\n\r\n A \r\n0123456789\r\n0\r\n\r\n",
        None,
        None,
    )
    .unwrap();
    assert_eq!(r.body, b"0123456789".to_vec());
}

#[test]
fn chunked_body_ends_with_the_bytes() {
    let r = ResponseLazy::from_bytes(
        b"HTTP/1.1 200 OK\r\nTransfer-Encoding: chunked\r\n\r\n10\r\nabc",
        None,
        None,
    )
    .unwrap();
    assert_eq!(r.body, b"abc".to_vec());
    let r = ResponseLazy::from_bytes(
        b"HTTP/1.1 200 OK\r\nTransfer-Encoding: chunked\r\n\r\n3\r\nabc\r\n",
        None,
        None,
    )
    .unwrap();
    assert_eq!(r.body, b"abc".to_vec());
}

#[test]
fn malformed_chunks_are_refused() {
    assert!(matches!(
        ResponseLazy::from_bytes(
            b"HTTP/1.1 200 OK\r\nTransfer-Encoding: chunked\r\n\r\nzz\r\nabc\r\n0\r\n\r\n",
            None,
            None,
        ),
        Err(Error::MalformedChunkLength)
    ));
    assert!(matches!(
        ResponseLazy::from_bytes(
            b"HTTP/1.1 200 OK\r\nTransfer-Encoding: chunked\r\n\r\n3\r\nabcXY\r\n0\r\n\r\n",
            None,
            None,
        ),
        Err(Error::MalformedChunkEnd)
    ));
    let mut long = b"HTTP/1.1 200 OK\r\nTransfer-Encoding: chunked\r\n\r\n1;".to_vec();
    long.extend(std::iter::repeat(b'x').take(2000));
    long.extend(b"\r\na\r\n0\r\n\r\n");
    assert!(matches!(
        ResponseLazy::from_bytes(&long, None, None),
        Err(Error::MalformedChunkLength)
    ));
}

#[test]
fn trailing_headers_count_towards_the_header_cap() {
    let bytes: &[u8] =
        b"HTTP/1.1 200 OK\r\nTransfer-Encoding: chunked\r\n\r\n2\r\nhi\r\n0\r\nX-Trailer: yes\r\n\r\n";
    // 28 bytes for the head's header line, 16 for the trailer, 2 for the
    // empty line that ends the trailers.
    assert!(matches!(
        ResponseLazy::from_bytes(bytes, Some(45), None),
        Err(Error::HeadersOverflow)
    ));
    let r = ResponseLazy::from_bytes(bytes, Some(46), None).unwrap();
    assert_eq!(r.body, b"hi".to_vec());
    assert_eq!(r.header("x-trailer"), Some(&"yes".to_string()));
    let without_trailer: &[u8] =
        b"HTTP/1.1 200 OK\r\nTransfer-Encoding: chunked\r\n\r\n2\r\nhi\r\n0\r\n\r\n";
    assert!(ResponseLazy::from_bytes(without_trailer, Some(30), None).is_ok());
}
