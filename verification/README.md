# trans_proxy

A transparent HTTP/HTTPS forwarding service. Clients point a domain at the
proxy (for example through `/etc/hosts`); the proxy reads the `Host` header of
plain HTTP requests or the SNI of a TLS ClientHello and forwards the
connection to the real site, directly or through an upstream HTTP proxy.
HTTPS is never decrypted.

## Layout

- `src/` – the verified library (Verus):
  - `access.rs` – the client IP whitelist with `*` / `?` patterns, and the
    laws of its wildcard matching;
  - `config.rs` – configuration defaults, environment overrides,
    normalisation, boolean and whitelist-list parsing;
  - `protocol/http.rs` – the end of a request head, the `Host` header,
    host/port splitting and formatting, and the request rewrite for an
    upstream proxy;
  - `protocol/tls.rs` – the ClientHello record header and the SNI parser;
  - `upstream.rs` – upstream proxy settings, the `CONNECT` request and the
    check of its answer;
  - `connection_log.rs` – the state of the live connection dashboard;
  - `text.rs` – text helpers (Unicode whitespace, ASCII case, decimals,
    lines and words).
- `app/` – the program around it: configuration files and environment,
  sockets (tokio), the dashboard thread and terminal output.
- `tests/` – tests of the library.

## Configuration

A TOML file (`TRANS_PROXY_CONFIG`, else `trans_proxy.toml`) and environment
variables, which win over the file: `HTTP_BIND`, `HTTPS_BIND`,
`CLIENT_IP_WHITELIST` (patterns separated by `,` or `;`),
`UPSTREAM_HTTP_PROXY_ENABLED` (`true/false/1/0/yes/no/on/off`),
`UPSTREAM_HTTP_PROXY_ADDR`, `UPSTREAM_HTTP_PROXY_USERNAME`,
`UPSTREAM_HTTP_PROXY_PASSWORD`.
