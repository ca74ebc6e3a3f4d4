//! A transparent HTTP/HTTPS forwarding service: the verified core.
//!
//! The modules hold the logic that decides where a client connection goes:
//! the client IP whitelist, the configuration rules, the HTTP request-head and
//! TLS ClientHello parsers, the upstream-proxy requests and the state of the
//! connection dashboard. Sockets, files, the environment and the terminal are
//! handled by the program around this library.

pub mod access;
pub mod text;
pub mod protocol;
pub mod config;
pub mod upstream;
pub mod connection_log;
