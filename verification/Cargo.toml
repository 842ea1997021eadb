[package]
name = "minreq"
version = "0.1.0"
edition = "2021"
publish = false

[dependencies]
urlencoding = "2"
punycode = "0.4"
log = "0.4"
rustls = "0.21"
webpki-roots = "0.25"
rustls-native-certs = "0.6"
native-tls = "0.2"
