# minreq

A small HTTP/1.1 client library whose request building, URL parsing,
request serialisation, response reading and redirect handling are
verified with Verus.

- `src/` — the verified library:
  - `http_url.rs`: parsing `http://` / `https://` URLs (host, port,
    percent-encoded resource, fragment) and writing them back;
  - `header_map.rs`: the request headers, kept sorted by name with one
    value per name;
  - `request.rs`: `Request`, its builders, `ParsedRequest`, the request
    head and bytes, and following one redirect;
  - `response.rs`: reading a response head under the size caps, and the
    response types;
  - `chunked.rs`: decoding a chunked body, whose trailing headers count
    towards the same header cap;
  - `connection.rs`: the `Connection` trait, redirect decisions,
    punycode conversion of hosts, deadlines;
  - `text.rs`, `util.rs`: text helpers and the byte writer/reader.
- `app/` — the connections that do real I/O: TCP, TLS (rustls), timeouts
  on threads, and environment settings.
- `tests/` — runtime tests, with an in-process test server.
