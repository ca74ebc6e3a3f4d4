//! The two protocols the proxy reads to find the target host.

pub mod http;
pub mod tls;
