use minreq::{get, ParsedRequest};
use std::collections::BTreeMap;

#[test]
fn request_test_headers() {
    let mut headers = BTreeMap::new();
    headers.insert("foo".to_string(), "bar".to_string());
    headers.insert("foo".to_string(), "baz".to_string());

    let req = get("http://www.example.org/test/res")
        .with_headers(headers.clone().into_iter().collect());

    let expected: Vec<(String, String)> = headers.into_iter().collect();
    assert_eq!(req.headers(), &expected);
}

#[test]
fn test_multiple_params() {
    let req = get("http://www.example.org/test/res")
        .with_param("foo", "bar")
        .with_param("asd", "qwe");
    let req = ParsedRequest::new(req).unwrap();
    assert_eq!(&req.url.path_and_query, "/test/res?foo=bar&asd=qwe");
}

#[test]
fn test_domain() {
    let req = get("http://www.example.org/test/res").with_param("foo", "bar");
    let req = ParsedRequest::new(req).unwrap();
    assert_eq!(&req.url.host, "www.example.org");
}

#[test]
fn test_protocol() {
    let req = ParsedRequest::new(get("http://www.example.org/").with_param("foo", "bar")).unwrap();
    assert!(!req.url.https);
    let req =
        ParsedRequest::new(get("https://www.example.org/").with_param("foo", "bar")).unwrap();
    assert!(req.url.https);
}

#[test]
fn test_with_param() {
    let req = get("http://www.example.org").with_param("foo", "bar");
    let req = ParsedRequest::new(req).unwrap();
    assert_eq!(&req.url.path_and_query, "/?foo=bar");

    let req = get("http://www.example.org").with_param("ówò", "what's this? 👀");
    let req = ParsedRequest::new(req).unwrap();
    assert_eq!(
        &req.url.path_and_query,
        "/?%C3%B3w%C3%B2=what%27s%20this%3F%20%F0%9F%91%80"
    );
}

#[test]
fn test_on_creation() {
    let req = ParsedRequest::new(get("http://www.example.org/?foo=bar#baz")).unwrap();
    assert_eq!(&req.url.path_and_query, "/?foo=bar");

    let req = ParsedRequest::new(get("http://www.example.org/?ówò=what's this? 👀")).unwrap();
    assert_eq!(
        &req.url.path_and_query,
        "/?%C3%B3w%C3%B2=what%27s%20this?%20%F0%9F%91%80"
    );
}
