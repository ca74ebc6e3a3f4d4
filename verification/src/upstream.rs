//! The optional upstream HTTP proxy: its settings, the `CONNECT` request that
//! opens a tunnel through it, and the check of its answer.

use vstd::prelude::*;
use vstd::utf8::{decode_utf8, encode_utf8, valid_utf8};

use crate::config::{opt_string, UpstreamHttpProxyConfig};
use crate::protocol::http::{authority, find_header_end, format_authority, header_end, HeadStatus};
use crate::text::{
    chars_of, decimal, extend_from, is_ws, lemma_skip_word, lemma_skip_ws, lines, next_line,
    next_word, push_decimal, skip_word, skip_ws, string_from_chars, sub_chars, utf8_str, words,
    words_from,
};

verus! {

/// A `CONNECT` answer larger than this without its terminator is refused.
pub const MAX_CONNECT_RESPONSE_SIZE: usize = 16384;

/// Why the upstream proxy could not be set up or used.
#[derive(Debug)]
pub enum UpstreamError {
    /// The proxy is enabled but no address is configured.
    MissingAddress,
    /// Only one of username and password is configured.
    IncompleteCredentials,
    /// The answer to `CONNECT` is not valid UTF-8.
    ResponseNotUtf8,
    /// The answer to `CONNECT` is empty.
    EmptyResponse,
    /// The status line holds no HTTP version.
    MissingResponseVersion,
    /// The status line holds no status code.
    MissingStatusCode,
    /// The status code is not 2xx; the status line is attached.
    ConnectFailed(String),
}

// ---------------------------------------------------------------------------
// Credentials
// ---------------------------------------------------------------------------

/// The standard base64 encoding (RFC 4648 alphabet, `=` padding) of `input`,
/// as the `base64` crate computes it.
pub uninterp spec fn base64_standard(input: Seq<u8>) -> Seq<char>;

/// `base64::Engine::encode` with the `STANDARD` engine. The contract claims
/// that the result is the standard base64 encoding of the input bytes, four
/// characters for each started group of three bytes. The call panics when
/// that length overflows `usize`, which `requires` leaves out.
#[verifier::external_body]
fn base64_encode(input: &[u8]) -> (encoded: String)
    requires
        (input@.len() + 2) / 3 * 4 <= usize::MAX,
    ensures
        encoded@ == base64_standard(input@),
        encoded@.len() == (input@.len() + 2) / 3 * 4,
{
    base64::Engine::encode(&base64::engine::general_purpose::STANDARD, input)
}

/// `username:password`, the text that basic authentication encodes.
pub open spec fn basic_credentials(username: Seq<char>, password: Seq<char>) -> Seq<char> {
    username + seq![':'] + password
}

/// The `Proxy-Authorization` value for an encoded credential.
pub open spec fn basic_authorization(encoded: Seq<char>) -> Seq<char> {
    "Basic "@ + encoded
}

/// Can the credentials be encoded without the encoded length overflowing?
pub open spec fn credentials_fit(username: Seq<char>, password: Seq<char>) -> bool {
    (encode_utf8(basic_credentials(username, password)).len() + 2) / 3 * 4 <= usize::MAX
}

/// `username:password` as a `String`.
pub fn credential_text(username: &str, password: &str) -> (s: String)
    ensures
        s@ == basic_credentials(username@, password@),
{
    let mut c = chars_of(username);
    c.push(':');
    let p = chars_of(password);
    extend_from(&mut c, p.as_slice());
    string_from_chars(c.as_slice())
}

/// The `Proxy-Authorization` value `Basic <encoded>`.
pub fn basic_authorization_value(encoded: &str) -> (s: String)
    ensures
        s@ == basic_authorization(encoded@),
{
    let mut c = chars_of("Basic ");
    let e = chars_of(encoded);
    extend_from(&mut c, e.as_slice());
    string_from_chars(c.as_slice())
}

// ---------------------------------------------------------------------------
// The proxy
// ---------------------------------------------------------------------------

/// An upstream HTTP proxy: its address and, when credentials are configured,
/// the `Proxy-Authorization` value to send it.
#[derive(Debug)]
pub struct UpstreamProxy {
    address: String,
    authorization_header: Option<String>,
}

impl View for UpstreamProxy {
    type V = (Seq<char>, Option<Seq<char>>);

    closed spec fn view(&self) -> (Seq<char>, Option<Seq<char>>) {
        (self.address@, opt_string(self.authorization_header))
    }
}

/// The proxy that a configuration describes: none when it is disabled.
pub open spec fn spec_from_config(
    enabled: bool,
    address: Option<Seq<char>>,
    username: Option<Seq<char>>,
    password: Option<Seq<char>>,
) -> Result<Option<(Seq<char>, Option<Seq<char>>)>, UpstreamError> {
    if !enabled {
        Ok(None)
    } else {
        match address {
            None => Err(UpstreamError::MissingAddress),
            Some(a) => match (username, password) {
                (Some(u), Some(p)) => Ok(
                    Some(
                        (
                            a,
                            Some(
                                basic_authorization(
                                    base64_standard(encode_utf8(basic_credentials(u, p))),
                                ),
                            ),
                        ),
                    ),
                ),
                (None, None) => Ok(Some((a, None))),
                _ => Err(UpstreamError::IncompleteCredentials),
            },
        }
    }
}

impl UpstreamProxy {
    /// The proxy that `config` describes; see [`spec_from_config`].
    pub fn from_config(config: &UpstreamHttpProxyConfig) -> (r: Result<Option<Self>, UpstreamError>)
        requires
            config.username matches Some(u) ==> config.password matches Some(p)
                ==> credentials_fit(u@, p@),
        ensures
            match (r, spec_from_config(
                config.enabled,
                opt_string(config.address),
                opt_string(config.username),
                opt_string(config.password),
            )) {
                (Ok(Some(proxy)), Ok(Some(v))) => proxy@ == v,
                (Ok(None), Ok(None)) => true,
                (Err(UpstreamError::MissingAddress), Err(UpstreamError::MissingAddress)) => true,
                (
                    Err(UpstreamError::IncompleteCredentials),
                    Err(UpstreamError::IncompleteCredentials),
                ) => true,
                _ => false,
            },
    {
        if !config.enabled {
            return Ok(None);
        }
        let address = match &config.address {
            Some(a) => a.clone(),
            None => return Err(UpstreamError::MissingAddress),
        };
        let authorization_header = match (&config.username, &config.password) {
            (Some(username), Some(password)) => {
                let credential = credential_text(username.as_str(), password.as_str());
                let encoded = base64_encode(credential.as_str().as_bytes());
                Some(basic_authorization_value(encoded.as_str()))
            },
            (None, None) => None,
            _ => return Err(UpstreamError::IncompleteCredentials),
        };
        Ok(Some(UpstreamProxy { address, authorization_header }))
    }

    pub fn authorization_header(&self) -> (h: Option<&str>)
        ensures
            match h {
                Some(s) => self@.1 == Some(s@),
                None => self@.1 is None,
            },
    {
        match &self.authorization_header {
            Some(s) => Some(s.as_str()),
            None => None,
        }
    }

    pub fn address(&self) -> (a: &str)
        ensures
            a@ == self@.0,
    {
        self.address.as_str()
    }

    /// The `CONNECT` request that opens a tunnel to `host:port`; see
    /// [`connect_request_text`].
    pub fn connect_request(&self, host: &str, port: u16) -> (req: String)
        ensures
            req@ == connect_request_text(host@, port, self@.1),
    {
        let target = chars_of(connect_authority(host, port).as_str());
        let mut out = chars_of("CONNECT ");
        extend_from(&mut out, target.as_slice());
        let mid = chars_of(" HTTP/1.1\r\nHost: ");
        extend_from(&mut out, mid.as_slice());
        extend_from(&mut out, target.as_slice());
        let crlf = chars_of("\r\n");
        extend_from(&mut out, crlf.as_slice());
        let ghost head = out@;
        if let Some(value) = &self.authorization_header {
            let label = chars_of("Proxy-Authorization: ");
            extend_from(&mut out, label.as_slice());
            let v = chars_of(value.as_str());
            extend_from(&mut out, v.as_slice());
            extend_from(&mut out, crlf.as_slice());
            assert(out@ =~= head + ("Proxy-Authorization: "@ + value@ + "\r\n"@));
        }
        extend_from(&mut out, crlf.as_slice());
        proof {
            let auth_line = match self@.1 {
                Some(v) => "Proxy-Authorization: "@ + v + "\r\n"@,
                None => Seq::<char>::empty(),
            };
            assert(out@ =~= "CONNECT "@ + connect_target(host@, port) + " HTTP/1.1\r\nHost: "@
                + connect_target(host@, port) + "\r\n"@ + auth_line + "\r\n"@);
        }
        string_from_chars(out.as_slice())
    }
}

/// The `host:port` target of a `CONNECT` request; an IPv6 host goes in
/// brackets.
pub open spec fn connect_target(host: Seq<char>, port: u16) -> Seq<char> {
    authority(host, port, port) + seq![':'] + decimal(port as nat)
}

/// The `CONNECT` request text: request line, `Host` header, the
/// `Proxy-Authorization` header when there are credentials, and the empty line.
pub open spec fn connect_request_text(host: Seq<char>, port: u16, auth: Option<Seq<char>>) -> Seq<
    char,
> {
    let target = connect_target(host, port);
    let auth_line = match auth {
        Some(v) => "Proxy-Authorization: "@ + v + "\r\n"@,
        None => Seq::<char>::empty(),
    };
    "CONNECT "@ + target + " HTTP/1.1\r\nHost: "@ + target + "\r\n"@ + auth_line + "\r\n"@
}

/// The target of a `CONNECT` request for `host` and `port`.
pub fn connect_authority(host: &str, port: u16) -> (s: String)
    ensures
        s@ == connect_target(host@, port),
{
    let h = format_authority(host, port, port);
    let mut c = chars_of(h.as_str());
    c.push(':');
    push_decimal(&mut c, port as u64);
    string_from_chars(c.as_slice())
}

// ---------------------------------------------------------------------------
// The answer to CONNECT
// ---------------------------------------------------------------------------

/// Has the answer to `CONNECT` arrived, has it grown too large, or are more
/// bytes needed? The size limit is checked first.
pub fn response_head_status(buf: &[u8]) -> (status: HeadStatus)
    ensures
        buf@.len() > MAX_CONNECT_RESPONSE_SIZE ==> status == HeadStatus::TooLarge,
        buf@.len() <= MAX_CONNECT_RESPONSE_SIZE && header_end(buf@) is Some ==> status
            == HeadStatus::Complete,
        buf@.len() <= MAX_CONNECT_RESPONSE_SIZE && header_end(buf@) is None ==> status
            == HeadStatus::Incomplete,
{
    if buf.len() > MAX_CONNECT_RESPONSE_SIZE {
        HeadStatus::TooLarge
    } else if find_header_end(buf).is_some() {
        HeadStatus::Complete
    } else {
        HeadStatus::Incomplete
    }
}

/// The status line of an answer to `CONNECT`, when it has a version and a
/// status code.
pub open spec fn connect_status_line(response: Seq<u8>) -> Result<Seq<char>, UpstreamError> {
    if !valid_utf8(response) {
        Err(UpstreamError::ResponseNotUtf8)
    } else {
        let ls = lines(decode_utf8(response));
        if ls.len() == 0 {
            Err(UpstreamError::EmptyResponse)
        } else if words(ls[0]).len() == 0 {
            Err(UpstreamError::MissingResponseVersion)
        } else if words(ls[0]).len() == 1 {
            Err(UpstreamError::MissingStatusCode)
        } else {
            Ok(ls[0])
        }
    }
}

/// Does the status line carry a 2xx status code?
pub open spec fn connect_accepted(status_line: Seq<char>) -> bool {
    words(status_line)[1][0] == '2'
}

/// Checks the answer of the upstream proxy to `CONNECT`: the tunnel is open
/// when the status code starts with `2`.
pub fn ensure_connect_success(response: &[u8]) -> (r: Result<(), UpstreamError>)
    ensures
        match connect_status_line(response@) {
            Err(UpstreamError::ResponseNotUtf8) => r matches Err(UpstreamError::ResponseNotUtf8),
            Err(UpstreamError::EmptyResponse) => r matches Err(UpstreamError::EmptyResponse),
            Err(UpstreamError::MissingResponseVersion) => r matches Err(
                UpstreamError::MissingResponseVersion,
            ),
            Err(UpstreamError::MissingStatusCode) => r matches Err(
                UpstreamError::MissingStatusCode,
            ),
            Err(_) => false,
            Ok(line) => if connect_accepted(line) {
                r is Ok
            } else {
                r matches Err(UpstreamError::ConnectFailed(s)) && s@ == line
            },
        },
{
    let text = match utf8_str(response) {
        Some(t) => t,
        None => return Err(UpstreamError::ResponseNotUtf8),
    };
    let t = chars_of(text);
    let ts = t.as_slice();
    if ts.len() == 0 {
        assert(lines(ts@) =~= Seq::<Seq<char>>::empty());
        return Err(UpstreamError::EmptyResponse);
    }
    let (end, _nl) = next_line(ts, 0);
    let line = sub_chars(ts, 0, end);
    let ls = line.as_slice();
    assert(lines(ts@)[0] == ls@);
    let (a1, b1) = next_word(ls, 0);
    if a1 >= ls.len() {
        return Err(UpstreamError::MissingResponseVersion);
    }
    let (a2, b2) = next_word(ls, b1);
    if a2 >= ls.len() {
        return Err(UpstreamError::MissingStatusCode);
    }
    assert(words(ls@)[1] == ls@.subrange(a2 as int, b2 as int));
    if ls[a2] != '2' {
        return Err(UpstreamError::ConnectFailed(string_from_chars(ls)));
    }
    Ok(())
}


/// In the status line `line`, the version is `line[a..b]`, whitespace runs
/// from `b` to `c`, and the status code starts at `c`: nothing but whitespace
/// comes before `a`.
pub open spec fn status_code_at(line: Seq<char>, a: int, b: int, c: int) -> bool {
    &&& 0 <= a < b < c < line.len()
    &&& forall|k: int| 0 <= k < a ==> is_ws(line[k])
    &&& forall|k: int| a <= k < b ==> !is_ws(line[k])
    &&& forall|k: int| b <= k < c ==> is_ws(line[k])
    &&& !is_ws(line[c])
}

proof fn lemma_skip_ws_to(s: Seq<char>, i: int, a: int)
    requires
        0 <= i <= a < s.len(),
        forall|k: int| i <= k < a ==> is_ws(s[k]),
        !is_ws(s[a]),
    ensures
        skip_ws(s, i) == a,
    decreases a - i,
{
    if i < a {
        lemma_skip_ws_to(s, i + 1, a);
    }
}

proof fn lemma_skip_word_to(s: Seq<char>, i: int, b: int)
    requires
        0 <= i <= b < s.len(),
        forall|k: int| i <= k < b ==> !is_ws(s[k]),
        is_ws(s[b]),
    ensures
        skip_word(s, i) == b,
    decreases b - i,
{
    if i < b {
        lemma_skip_word_to(s, i + 1, b);
    }
}

/// The upstream proxy's answer opens the tunnel exactly when the status code
/// (the word after the version) begins with `2`: a `502`, `503`, `301` or
/// any other code is a refusal.
pub proof fn law_connect_accepted_iff_2xx(line: Seq<char>, a: int, b: int, c: int)
    requires
        status_code_at(line, a, b, c),
    ensures
        words(line).len() >= 2,
        connect_accepted(line) <==> line[c] == '2',
{
    lemma_skip_ws_to(line, 0, a);
    lemma_skip_word_to(line, a, b);
    lemma_skip_ws_to(line, b, c);
    lemma_skip_word(line, c);
    let e = skip_word(line, c);
    assert(words_from(line, 0) == seq![line.subrange(a, b)] + words_from(line, b));
    assert(words_from(line, b) == seq![line.subrange(c, e)] + words_from(line, e));
    assert(words(line)[1] == line.subrange(c, e));
}

/// Every status line that gets as far as a status code has its words where
/// [`status_code_at`] places them.
pub proof fn law_status_line_has_code(response: Seq<u8>)
    requires
        connect_status_line(response) is Ok,
    ensures
        exists|a: int, b: int, c: int|
            status_code_at(connect_status_line(response)->Ok_0, a, b, c),
{
    let line = connect_status_line(response)->Ok_0;
    lemma_skip_ws(line, 0);
    let a = skip_ws(line, 0);
    lemma_skip_word(line, a);
    let b = skip_word(line, a);
    lemma_skip_ws(line, b);
    let c = skip_ws(line, b);
    assert(words_from(line, 0) == seq![line.subrange(a, b)] + words_from(line, b));
    assert(words_from(line, b).len() >= 1);
    assert(status_code_at(line, a, b, c));
}

} // verus!
