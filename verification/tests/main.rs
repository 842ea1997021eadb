use minreq::{
    handle_redirects, Connection, Error, Method, ParsedRequest, Request, Response, ResponseLazy,
};

const PORT: u16 = 35562;

/// The URL of a path on the test server.
fn url(path: &str) -> String {
    format!("http://localhost:{}{}", PORT, path)
}

/// A request as the test server reads it off the wire.
struct Incoming {
    method: String,
    path: String,
    headers: Vec<(String, String)>,
    body: String,
}

/// Reads the request line, the header lines and the body.
fn read_request(bytes: &[u8]) -> Incoming {
    let text = String::from_utf8(bytes.to_vec()).unwrap();
    let (head, body) = match text.find("\r\n\r\n") {
        Some(i) => (text[..i].to_string(), text[i + 4..].to_string()),
        None => (text.clone(), String::new()),
    };
    let mut lines = head.split("\r\n");
    let request_line = lines.next().unwrap();
    let mut parts = request_line.split(' ');
    let method = parts.next().unwrap().to_string();
    let path = parts.next().unwrap().to_string();
    assert_eq!(parts.next(), Some("HTTP/1.1"));
    let mut headers = Vec::new();
    for line in lines {
        let (name, value) = line.split_once(": ").unwrap();
        headers.push((name.to_string(), value.to_string()));
    }
    Incoming { method, path, headers, body }
}

fn response_bytes(status_line: &str, headers: &[(&str, String)], body: &str) -> Vec<u8> {
    let mut out = String::new();
    out.push_str(status_line);
    out.push_str("\r\n");
    for (name, value) in headers {
        out.push_str(&format!("{}: {}\r\n", name, value));
    }
    out.push_str(&format!("Content-Length: {}\r\n\r\n", body.len()));
    out.push_str(body);
    out.into_bytes()
}

fn ok(body: String) -> Vec<u8> {
    response_bytes("HTTP/1.1 200 OK", &[], &body)
}

fn redirect(status_line: &str, location: &str) -> Vec<u8> {
    response_bytes(status_line, &[("Location", location.to_string())], "")
}

/// The test server's answer to a request.
fn serve(req: &Incoming) -> Vec<u8> {
    let m = req.method.as_str();
    let body = req.body.clone();
    match (m, req.path.as_str()) {
        ("GET", "/a") => ok(format!("j: {}", body)),
        (_, "/header_pong") => {
            let ping = req.headers.iter().find(|(k, _)| k == "Ping").unwrap();
            ok(ping.1.clone())
        },
        ("GET", "/redirect") => redirect("HTTP/1.1 301 Moved Permanently", &url("/a")),
        ("POST", "/redirect") => redirect("HTTP/1.1 303 See Other", &url("/a")),
        (_, "/redirect-baz") => redirect("HTTP/1.1 301 Moved Permanently", &url("/a#baz")),
        (_, "/infiniteredirect") => {
            redirect("HTTP/1.1 301 Moved Permanently", &url("/redirectpong"))
        },
        (_, "/redirectpong") => redirect("HTTP/1.1 301 Moved Permanently", &url("/infiniteredirect")),
        (_, "/relativeredirect") => redirect("HTTP/1.1 303 See Other", "/a"),
        ("HEAD", "/b") => response_bytes("HTTP/1.1 418 I'm a teapot", &[], ""),
        ("POST", "/c") => ok(format!("l: {}", body)),
        ("PUT", "/d") => ok(format!("m: {}", body)),
        ("DELETE", "/e") => ok(format!("n: {}", body)),
        ("TRACE", "/f") => ok(format!("o: {}", body)),
        ("OPTIONS", "/g") => ok(format!("p: {}", body)),
        ("CONNECT", "/h") => ok(format!("q: {}", body)),
        ("PATCH", "/i") => ok(format!("r: {}", body)),
        (_, "/long_header") => {
            response_bytes("HTTP/1.1 200 OK", &[("Long-Header", "a".repeat(1000))], "")
        },
        (_, "/long_status_line") => {
            response_bytes("HTTP/1.1 203 Non-Authoritative Information", &[], "")
        },
        _ => response_bytes("HTTP/1.1 404 Not Found", &[], ""),
    }
}

/// A connection to the in-process test server: it writes the request's
/// bytes, reads the server's answer under the request's caps, and
/// follows redirects the way the library's connections do.
struct TestConnection;

impl Connection for TestConnection {
    fn send(self, request: ParsedRequest) -> Result<ResponseLazy, Error> {
        let incoming = read_request(&request.as_bytes());
        let answer = serve(&incoming);
        let response = ResponseLazy::from_bytes(
            &answer,
            request.config.max_headers_size(),
            request.config.max_status_line_len(),
        )?;
        handle_redirects(self, request, response)
    }
}

fn get_body(response: Result<Response, Error>) -> String {
    String::from_utf8(response.unwrap().body).unwrap()
}

fn get_status_code(response: Result<Response, Error>) -> i32 {
    response.unwrap().status_code
}

fn header<'a>(headers: &'a [(String, String)], name: &str) -> Option<&'a String> {
    headers.iter().find(|(k, _)| k == name).map(|(_, v)| v)
}

#[test]
fn main_test_headers() {
    let conn = TestConnection;
    let body = get_body(minreq::get(&url("/header_pong")).with_header("Ping", "Qwerty").send(conn));
    assert_eq!("Qwerty", body);
}

#[test]
fn test_custom_method() {
    let conn = TestConnection;
    let body = get_body(
        Request::new(Method::Custom("GET".to_string()), &url("/a"))
            .with_body(b"Q".to_vec())
            .send(conn),
    );
    assert_eq!("j: Q", body);
}

#[test]
fn test_get() {
    let conn = TestConnection;
    let body = get_body(minreq::get(&url("/a")).with_body(b"Q".to_vec()).send(conn));
    assert_eq!(body, "j: Q");
}

#[test]
fn test_redirect_get() {
    let conn = TestConnection;
    let body = get_body(minreq::get(&url("/redirect")).with_body(b"Q".to_vec()).send(conn));
    assert_eq!(body, "j: Q");
}

#[test]
fn test_redirect_get_without_following() {
    let conn = TestConnection;
    let res = minreq::get(&url("/redirect"))
        .with_body(b"Q".to_vec())
        .with_follow_redirects(false)
        .send(conn)
        .unwrap();
    assert_eq!(res.status_code, 301);
    assert_eq!(header(&res.headers, "location").unwrap(), "http://localhost:35562/a");
}

#[test]
fn test_redirect_post() {
    let conn = TestConnection;
    // POSTing to /redirect answers 303, so the next request is a GET; the
    // server answers /a to GET requests only.
    let body = get_body(minreq::post(&url("/redirect")).with_body(b"Q".to_vec()).send(conn));
    assert_eq!(body, "j: Q");
}

#[test]
fn test_redirect_with_fragment() {
    let conn = TestConnection;
    let original_url = url("/redirect#foo");
    let res = minreq::get(&original_url).send(conn).unwrap();
    // Fragment should stay the same, otherwise redirected
    assert_eq!(res.url.as_str(), url("/a#foo"));
}

#[test]
fn test_redirect_with_overridden_fragment() {
    let conn = TestConnection;
    let original_url = url("/redirect-baz#foo");
    let res = minreq::get(&original_url).send(conn).unwrap();
    // This redirect should provide its own fragment, overriding the initial one
    assert_eq!(res.url.as_str(), url("/a#baz"));
}

#[test]
fn test_infinite_redirect() {
    let conn = TestConnection;
    let body = minreq::get(&url("/infiniteredirect")).send(conn);
    assert!(body.is_err());
}

#[test]
fn test_relative_redirect_get() {
    let conn = TestConnection;
    let body =
        get_body(minreq::get(&url("/relativeredirect")).with_body(b"Q".to_vec()).send(conn));
    assert_eq!(body, "j: Q");
}

#[test]
fn test_head() {
    let conn = TestConnection;
    assert_eq!(get_status_code(minreq::head(&url("/b")).send(conn)), 418);
}

#[test]
fn test_post() {
    let conn = TestConnection;
    let body = get_body(minreq::post(&url("/c")).with_body(b"E".to_vec()).send(conn));
    assert_eq!(body, "l: E");
}

#[test]
fn test_put() {
    let conn = TestConnection;
    let body = get_body(minreq::put(&url("/d")).with_body(b"R".to_vec()).send(conn));
    assert_eq!(body, "m: R");
}

#[test]
fn test_delete() {
    let conn = TestConnection;
    assert_eq!(get_body(minreq::delete(&url("/e")).send(conn)), "n: ");
}

#[test]
fn test_trace() {
    let conn = TestConnection;
    assert_eq!(get_body(minreq::trace(&url("/f")).send(conn)), "o: ");
}

#[test]
fn test_options() {
    let conn = TestConnection;
    let body = get_body(minreq::options(&url("/g")).with_body(b"U".to_vec()).send(conn));
    assert_eq!(body, "p: U");
}

#[test]
fn test_connect() {
    let conn = TestConnection;
    let body = get_body(minreq::connect(&url("/h")).with_body(b"I".to_vec()).send(conn));
    assert_eq!(body, "q: I");
}

#[test]
fn test_patch() {
    let conn = TestConnection;
    let body = get_body(minreq::patch(&url("/i")).with_body(b"O".to_vec()).send(conn));
    assert_eq!(body, "r: O");
}

#[test]
fn test_header_cap() {
    let conn = TestConnection;
    let body = minreq::get(&url("/long_header")).with_max_headers_size(Some(999)).send(conn);
    assert!(body.is_err());
    assert!(matches!(body.err(), Some(minreq::Error::HeadersOverflow)));

    let conn = TestConnection;
    let body = minreq::get(&url("/long_header")).with_max_headers_size(Some(1500)).send(conn);
    assert!(body.is_ok());
}

#[test]
fn test_status_line_cap() {
    let expected_status_line = "HTTP/1.1 203 Non-Authoritative Information";

    let conn = TestConnection;
    let body = minreq::get(&url("/long_status_line"))
        .with_max_status_line_length(Some(expected_status_line.len() + 1))
        .send(conn);
    assert!(body.is_err());
    assert!(matches!(body.err(), Some(minreq::Error::StatusLineOverflow)));

    let conn = TestConnection;
    let body = minreq::get(&url("/long_status_line"))
        .with_max_status_line_length(Some(expected_status_line.len() + 2))
        .send(conn);
    assert!(body.is_ok());
}
