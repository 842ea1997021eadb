//! A small HTTP/1.1 client library: building requests, parsing `http://`
//! and `https://` URLs, writing the request bytes, and following redirects.
pub mod chunked;
pub mod connection;
pub mod error;
pub mod header_map;
pub mod http_url;
pub mod request;
pub mod response;
pub mod text;
pub mod util;

pub use connection::{
    ensure_ascii_host, handle_redirects, join_labels, remaining_or_timeout,
    timeout_at_to_duration, Connection, CoreRead,
};
pub use error::Error;
pub use http_url::{HttpUrl, Port};
pub use request::{
    connect, delete, get, head, options, patch, post, put, trace, Method, ParsedRequest, Request,
    URL,
};
pub use response::{Response, ResponseLazy};
