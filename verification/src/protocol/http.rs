//! HTTP request heads: where the head ends, the `Host` header, the host and
//! port it names, and the rewrite of a request for an upstream HTTP proxy.

use vstd::prelude::*;
use vstd::slice::{slice_subrange, slice_to_vec};
use vstd::utf8::{decode_utf8, encode_scalar, encode_utf8, valid_utf8};

use crate::text::{
    chars_of, decimal, eq_ignore_case, extend_from, find_char, find_from, has_char, is_digit,
    is_ws, lemma_decimal_digits, lemma_find_at, lemma_find_from, lemma_parse_decimal,
    lemma_trim_noop, lines, lower_code,
    lines_from, next_line, next_word, parse_port, parse_u16, push_decimal, range_eq_ignore_case,
    range_starts_with, string_from_chars, sub_chars, trim, trim_bounds, utf8_str, words,
};

verus! {

/// A request head larger than this without its terminator is refused.
pub const MAX_HTTP_HEADER_SIZE: usize = 65536;

/// Why a request head, or the host it names, was refused.
#[derive(Clone, Copy, Debug, PartialEq, Eq)]
pub enum HttpError {
    /// No `\r\n\r\n` ends the head.
    MissingHeaderTerminator,
    /// The head is not valid UTF-8.
    HeaderNotUtf8,
    /// The `Host` header holds only whitespace.
    EmptyHostHeader,
    /// No line of the head is a `Host` header.
    MissingHostHeader,
    /// The request line holds no method.
    MissingMethod,
    /// The request line holds no request target.
    MissingRequestTarget,
    /// The request line holds no HTTP version.
    MissingVersion,
    /// The host text holds only whitespace.
    EmptyHost,
    /// A bracketed host has no closing `]`.
    InvalidIpv6Host,
    /// The port is not a number from 0 to 65535.
    InvalidPort,
}

/// Where the reading of a request head stands.
#[derive(Clone, Copy, Debug, PartialEq, Eq)]
pub enum HeadStatus {
    /// The head is complete: its terminator has arrived.
    Complete,
    /// The head grew to the limit without a terminator.
    TooLarge,
    /// More bytes are needed.
    Incomplete,
}

// ---------------------------------------------------------------------------
// The end of the head
// ---------------------------------------------------------------------------

/// `s` holds `\r\n\r\n` at `i`.
pub open spec fn terminator_at(s: Seq<u8>, i: int) -> bool {
    0 <= i && i + 4 <= s.len() && s[i] == 13u8 && s[i + 1] == 10u8 && s[i + 2] == 13u8 && s[i
        + 3] == 10u8
}

/// The first `i >= start` at which `s` holds `\r\n\r\n`.
pub open spec fn find_terminator_from(s: Seq<u8>, start: int) -> Option<int>
    decreases s.len() - start,
{
    if start < 0 || start + 4 > s.len() {
        None
    } else if terminator_at(s, start) {
        Some(start)
    } else {
        find_terminator_from(s, start + 1)
    }
}

/// Where the head ends: the index of its first `\r\n\r\n`.
pub open spec fn header_end(s: Seq<u8>) -> Option<int> {
    find_terminator_from(s, 0)
}

pub proof fn lemma_find_terminator(s: Seq<u8>, start: int)
    requires
        0 <= start,
    ensures
        find_terminator_from(s, start) matches Some(i) ==> start <= i && terminator_at(s, i) && i
            + 4 <= s.len(),
        find_terminator_from(s, start) matches Some(i) ==> forall|j: int|
            start <= j < i ==> !terminator_at(s, j),
        find_terminator_from(s, start) is None ==> forall|j: int|
            start <= j ==> !terminator_at(s, j),
    decreases s.len() - start,
{
    if start + 4 <= s.len() && !terminator_at(s, start) {
        lemma_find_terminator(s, start + 1);
    }
}

pub fn find_header_end(head: &[u8]) -> (r: Option<usize>)
    ensures
        match r {
            Some(i) => header_end(head@) == Some(i as int),
            None => header_end(head@) is None,
        },
{
    let mut i: usize = 0;
    while i <= head.len() && head.len() - i >= 4
        invariant
            header_end(head@) == find_terminator_from(head@, i as int),
        decreases head@.len() - i,
    {
        if head[i] == 13u8 && head[i + 1] == 10u8 && head[i + 2] == 13u8 && head[i + 3] == 10u8 {
            return Some(i);
        }
        i += 1;
    }
    None
}

/// Has the head arrived, has it grown too large, or are more bytes needed?
pub fn request_head_status(buf: &[u8]) -> (status: HeadStatus)
    ensures
        header_end(buf@) is Some ==> status == HeadStatus::Complete,
        header_end(buf@) is None && buf@.len() >= MAX_HTTP_HEADER_SIZE ==> status
            == HeadStatus::TooLarge,
        header_end(buf@) is None && buf@.len() < MAX_HTTP_HEADER_SIZE ==> status
            == HeadStatus::Incomplete,
{
    if find_header_end(buf).is_some() {
        HeadStatus::Complete
    } else if buf.len() >= MAX_HTTP_HEADER_SIZE {
        HeadStatus::TooLarge
    } else {
        HeadStatus::Incomplete
    }
}

// ---------------------------------------------------------------------------
// The Host header
// ---------------------------------------------------------------------------

/// The value of `line` when it is a `Host` header (name compared ignoring
/// ASCII case).
pub open spec fn host_value(line: Seq<char>) -> Option<Seq<char>> {
    let c = find_from(line, ':', 0);
    if c < line.len() && eq_ignore_case(line.subrange(0, c), "host"@) {
        Some(line.subrange(c + 1, line.len() as int))
    } else {
        None
    }
}

/// The trimmed value of the first `Host` header among `ls`.
pub open spec fn host_in_lines(ls: Seq<Seq<char>>) -> Result<Seq<char>, HttpError>
    decreases ls.len(),
{
    if ls.len() == 0 {
        Err(HttpError::MissingHostHeader)
    } else {
        match host_value(ls[0]) {
            Some(v) => if trim(v).len() == 0 {
                Err(HttpError::EmptyHostHeader)
            } else {
                Ok(trim(v))
            },
            None => host_in_lines(ls.drop_first()),
        }
    }
}

/// The text of the head before its terminator, when that is valid UTF-8.
pub open spec fn head_text(head: Seq<u8>) -> Result<Seq<char>, HttpError> {
    match header_end(head) {
        None => Err(HttpError::MissingHeaderTerminator),
        Some(end) => if valid_utf8(head.subrange(0, end)) {
            Ok(decode_utf8(head.subrange(0, end)))
        } else {
            Err(HttpError::HeaderNotUtf8)
        },
    }
}

/// The host that a request head names in its first `Host` header.
pub open spec fn spec_parse_host(head: Seq<u8>) -> Result<Seq<char>, HttpError> {
    match head_text(head) {
        Err(e) => Err(e),
        Ok(text) => host_in_lines(lines(text)),
    }
}

/// The text before the head's terminator, as characters.
fn head_chars(head: &[u8]) -> (r: Result<(Vec<char>, usize), HttpError>)
    ensures
        match r {
            Ok((t, end)) => head_text(head@) == Ok::<Seq<char>, HttpError>(t@) && header_end(
                head@,
            ) == Some(end as int),
            Err(e) => head_text(head@) == Err::<Seq<char>, HttpError>(e),
        },
{
    let end = match find_header_end(head) {
        Some(e) => e,
        None => return Err(HttpError::MissingHeaderTerminator),
    };
    proof {
        lemma_find_terminator(head@, 0);
    }
    let text = match utf8_str(slice_subrange(head, 0, end)) {
        Some(t) => t,
        None => return Err(HttpError::HeaderNotUtf8),
    };
    Ok((chars_of(text), end))
}

/// The host named by the first `Host` header of a request head, trimmed.
pub fn parse_host(head: &[u8]) -> (r: Result<String, HttpError>)
    ensures
        match r {
            Ok(h) => spec_parse_host(head@) == Ok::<Seq<char>, HttpError>(h@),
            Err(e) => spec_parse_host(head@) == Err::<Seq<char>, HttpError>(e),
        },
{
    let (t, _end) = match head_chars(head) {
        Ok(x) => x,
        Err(e) => return Err(e),
    };
    let host_word = chars_of("host");
    let ts = t.as_slice();
    let mut i: usize = 0;
    while i < ts.len()
        invariant
            i <= ts@.len(),
            ts@ == t@,
            host_word@ == "host"@,
            spec_parse_host(head@) == host_in_lines(lines_from(ts@, i as int)),
        decreases ts@.len() - i,
    {
        let (end, nl) = next_line(ts, i);
        let ghost line = ts@.subrange(i as int, end as int);
        let ghost rest = lines_from(ts@, nl + 1);
        let colon = find_char(ts, ':', i, end);
        proof {
            let ls = seq![line] + rest;
            assert(ls[0] == line);
            assert(ls.drop_first() =~= rest);
            assert(line.subrange(0, colon - i) =~= ts@.subrange(i as int, colon as int));
            if colon < end {
                assert(line.subrange(colon - i + 1, line.len() as int) =~= ts@.subrange(
                    colon + 1,
                    end as int,
                ));
            }
        }
        if colon < end && range_eq_ignore_case(ts, i, colon, host_word.as_slice()) {
            let (a, b) = trim_bounds(ts, colon + 1, end);
            if a == b {
                return Err(HttpError::EmptyHostHeader);
            }
            return Ok(string_from_chars(slice_subrange(ts, a, b)));
        }
        if nl >= ts.len() {
            i = ts.len();
        } else {
            i = nl + 1;
        }
    }
    Err(HttpError::MissingHostHeader)
}


// ---------------------------------------------------------------------------
// Host and port
// ---------------------------------------------------------------------------

/// `host` and `port` written as a URI authority: a host holding `:` (an IPv6
/// address) goes in brackets unless it already starts with one, and the port
/// is left out when it is the default.
pub open spec fn authority(host: Seq<char>, port: u16, default_port: u16) -> Seq<char> {
    let h = if has_char(host, ':') && !(host.len() > 0 && host[0] == '[') {
        seq!['['] + host + seq![']']
    } else {
        host
    };
    if port == default_port {
        h
    } else {
        h + seq![':'] + decimal(port as nat)
    }
}

fn contains_char(s: &[char], c: char) -> (b: bool)
    ensures
        b == has_char(s@, c),
{
    let k = find_char(s, c, 0, s.len());
    if k < s.len() {
        true
    } else {
        assert(forall|t: int| 0 <= t < s@.len() ==> s@[t] != c);
        false
    }
}

/// Appends the authority of `host` and `port` to `out`.
fn push_authority(out: &mut Vec<char>, host: &[char], port: u16, default_port: u16)
    ensures
        final(out)@ == old(out)@ + authority(host@, port, default_port),
{
    let ghost start = out@;
    if contains_char(host, ':') && !(host.len() > 0 && host[0] == '[') {
        out.push('[');
        extend_from(out, host);
        out.push(']');
        assert(out@ =~= start + (seq!['['] + host@ + seq![']']));
    } else {
        extend_from(out, host);
    }
    let ghost mid = out@;
    if port != default_port {
        out.push(':');
        push_decimal(out, port as u64);
        assert(out@ =~= mid + seq![':'] + decimal(port as nat));
    }
    assert(out@ =~= start + authority(host@, port, default_port));
}

/// The authority form of `host` and `port`; see [`authority`].
pub fn format_authority(host: &str, port: u16, default_port: u16) -> (s: String)
    ensures
        s@ == authority(host@, port, default_port),
{
    let h = chars_of(host);
    let mut out: Vec<char> = Vec::new();
    push_authority(&mut out, h.as_slice(), port, default_port);
    assert(out@ =~= authority(host@, port, default_port));
    string_from_chars(out.as_slice())
}

/// The address `host:port` that the proxy connects to directly.
pub fn direct_target(host: &str, port: u16) -> (s: String)
    ensures
        s@ == host@ + seq![':'] + decimal(port as nat),
{
    let mut out = chars_of(host);
    out.push(':');
    push_decimal(&mut out, port as u64);
    string_from_chars(out.as_slice())
}

/// A bracketed host `h = [name]` or `[name]:port`; text after the `]` that
/// does not start with `:` is ignored.
pub open spec fn split_bracketed(h: Seq<char>, default_port: u16) -> Result<
    (Seq<char>, u16),
    HttpError,
> {
    let rest = h.drop_first();
    let e = find_from(rest, ']', 0);
    if e >= rest.len() {
        Err(HttpError::InvalidIpv6Host)
    } else {
        let rem = rest.subrange(e + 1, rest.len() as int);
        if rem.len() > 0 && rem[0] == ':' {
            match parse_u16(rem.drop_first()) {
                Some(p) => Ok((rest.subrange(0, e), p)),
                None => Err(HttpError::InvalidPort),
            }
        } else {
            Ok((rest.subrange(0, e), default_port))
        }
    }
}

/// An unbracketed host: `name:port` when it holds exactly one `:`, else the
/// whole text on the default port.
pub open spec fn split_plain(h: Seq<char>, default_port: u16) -> Result<
    (Seq<char>, u16),
    HttpError,
> {
    let c = find_from(h, ':', 0);
    if c < h.len() && !has_char(h.subrange(c + 1, h.len() as int), ':') {
        match parse_u16(h.subrange(c + 1, h.len() as int)) {
            Some(p) => Ok((h.subrange(0, c), p)),
            None => Err(HttpError::InvalidPort),
        }
    } else {
        Ok((h, default_port))
    }
}

/// The host and port that a `Host` header value names, once trimmed: a
/// bracketed host is an IPv6 address; otherwise a single `:` separates the
/// port, and text with more than one `:` is a bare IPv6 address on the
/// default port.
pub open spec fn spec_split_host_port(host: Seq<char>, default_port: u16) -> Result<
    (Seq<char>, u16),
    HttpError,
> {
    let h = trim(host);
    if h.len() == 0 {
        Err(HttpError::EmptyHost)
    } else if h[0] == '[' {
        split_bracketed(h, default_port)
    } else {
        split_plain(h, default_port)
    }
}

fn split_bracketed_range(ts: &[char], lo: usize, hi: usize, default_port: u16) -> (r: Result<
    (String, u16),
    HttpError,
>)
    requires
        lo < hi <= ts@.len(),
    ensures
        match r {
            Ok((h, p)) => split_bracketed(ts@.subrange(lo as int, hi as int), default_port)
                == Ok::<(Seq<char>, u16), HttpError>((h@, p)),
            Err(e) => split_bracketed(ts@.subrange(lo as int, hi as int), default_port) == Err::<
                (Seq<char>, u16),
                HttpError,
            >(e),
        },
{
    let ghost h = ts@.subrange(lo as int, hi as int);
    let close = find_char(ts, ']', lo + 1, hi);
    proof {
        assert(h.drop_first() =~= ts@.subrange(lo + 1, hi as int));
    }
    if close >= hi {
        return Err(HttpError::InvalidIpv6Host);
    }
    let name = string_from_chars(slice_subrange(ts, lo + 1, close));
    proof {
        let rest = h.drop_first();
        let e = close - lo - 1;
        assert(rest.subrange(0, e) =~= ts@.subrange(lo + 1, close as int));
        let rem = rest.subrange(e + 1, rest.len() as int);
        assert(rem =~= ts@.subrange(close + 1, hi as int));
        if rem.len() > 0 {
            assert(rem.drop_first() =~= ts@.subrange(close + 2, hi as int));
        }
    }
    if close + 1 < hi && ts[close + 1] == ':' {
        return match parse_port(ts, close + 2, hi) {
            Some(p) => Ok((name, p)),
            None => Err(HttpError::InvalidPort),
        };
    }
    Ok((name, default_port))
}

fn split_plain_range(ts: &[char], lo: usize, hi: usize, default_port: u16) -> (r: Result<
    (String, u16),
    HttpError,
>)
    requires
        lo < hi <= ts@.len(),
    ensures
        match r {
            Ok((h, p)) => split_plain(ts@.subrange(lo as int, hi as int), default_port) == Ok::<
                (Seq<char>, u16),
                HttpError,
            >((h@, p)),
            Err(e) => split_plain(ts@.subrange(lo as int, hi as int), default_port) == Err::<
                (Seq<char>, u16),
                HttpError,
            >(e),
        },
{
    let ghost h = ts@.subrange(lo as int, hi as int);
    let c = find_char(ts, ':', lo, hi);
    if c < hi {
        let again = find_char(ts, ':', c + 1, hi);
        proof {
            assert(h.subrange(c - lo + 1, h.len() as int) =~= ts@.subrange(c + 1, hi as int));
            assert(h.subrange(0, c - lo) =~= ts@.subrange(lo as int, c as int));
            if again < hi {
                assert(ts@.subrange(c + 1, hi as int)[again - c - 1] == ':');
            }
        }
        if again == hi {
            return match parse_port(ts, c + 1, hi) {
                Some(p) => Ok((string_from_chars(slice_subrange(ts, lo, c)), p)),
                None => Err(HttpError::InvalidPort),
            };
        }
    }
    Ok((string_from_chars(slice_subrange(ts, lo, hi)), default_port))
}

/// The hosts and ports for which writing the authority and reading it back
/// gives them again: an IPv6 host (holding `:`) must hold no `]`; any other
/// host must not start with `[` or whitespace, nor end with whitespace when
/// the port is left out; and an empty host needs a written port.
pub open spec fn authority_roundtrips(host: Seq<char>, port: u16, default_port: u16) -> bool {
    if has_char(host, ':') && !(host.len() > 0 && host[0] == '[') {
        !has_char(host, ']')
    } else if host.len() == 0 {
        port != default_port
    } else {
        host[0] != '[' && !is_ws(host[0]) && (port == default_port ==> !is_ws(host.last()))
    }
}

/// Reading back a written authority gives the host and port that were
/// written, for the hosts of [`authority_roundtrips`].
pub proof fn law_authority_roundtrip(host: Seq<char>, port: u16, default_port: u16)
    requires
        authority_roundtrips(host, port, default_port),
    ensures
        spec_split_host_port(authority(host, port, default_port), default_port) == Ok::<
            (Seq<char>, u16),
            HttpError,
        >((host, port)),
{
    let s = authority(host, port, default_port);
    let dp = decimal(port as nat);
    lemma_decimal_digits(port as nat);
    lemma_parse_decimal(port);
    assert(dp.len() > 0);
    assert(is_digit(dp[0]));
    assert(is_digit(dp.last()));
    assert forall|k: int| 0 <= k < dp.len() implies dp[k] != ':' by {
        assert(is_digit(dp[k]));
    }
    if has_char(host, ':') && !(host.len() > 0 && host[0] == '[') {
        let b = seq!['['] + host + seq![']'];
        let tail = if port == default_port {
            Seq::<char>::empty()
        } else {
            seq![':'] + dp
        };
        assert(s =~= b + tail);
        assert(s[0] == '[');
        if port == default_port {
            assert(s.last() == ']');
        } else {
            assert(s.last() == dp.last());
        }
        lemma_trim_noop(s);
        let rest = s.drop_first();
        assert(rest =~= host + seq![']'] + tail);
        assert forall|t: int| 0 <= t < host.len() implies rest[t] != ']' by {
            assert(rest[t] == host[t]);
        }
        lemma_find_at(rest, ']', 0, host.len() as int);
        assert(rest.subrange(0, host.len() as int) =~= host);
        let rem = rest.subrange(host.len() as int + 1, rest.len() as int);
        assert(rem =~= tail);
        if port != default_port {
            assert(rem.drop_first() =~= dp);
        }
    } else {
        let tail = if port == default_port {
            Seq::<char>::empty()
        } else {
            seq![':'] + dp
        };
        assert(s =~= host + tail);
        assert(!has_char(host, ':'));
        if host.len() > 0 {
            assert(s[0] == host[0]);
        } else {
            assert(s[0] == ':');
        }
        if port == default_port {
            assert(s.last() == host.last());
        } else {
            assert(s.last() == dp.last());
        }
        lemma_trim_noop(s);
        if port == default_port {
            assert forall|t: int| 0 <= t < s.len() implies s[t] != ':' by {
                assert(s[t] == host[t]);
            }
            lemma_find_at(s, ':', 0, s.len() as int);
        } else {
            assert forall|t: int| 0 <= t < host.len() implies s[t] != ':' by {
                assert(s[t] == host[t]);
            }
            lemma_find_at(s, ':', 0, host.len() as int);
            assert(s.subrange(host.len() as int + 1, s.len() as int) =~= dp);
            assert(s.subrange(0, host.len() as int) =~= host);
        }
    }
}

/// Splits a `Host` header value into host and port; see
/// [`spec_split_host_port`].
pub fn split_host_port(host: &str, default_port: u16) -> (r: Result<(String, u16), HttpError>)
    ensures
        match r {
            Ok((h, p)) => spec_split_host_port(host@, default_port) == Ok::<
                (Seq<char>, u16),
                HttpError,
            >((h@, p)),
            Err(e) => spec_split_host_port(host@, default_port) == Err::<
                (Seq<char>, u16),
                HttpError,
            >(e),
        },
{
    let t = chars_of(host);
    let ts = t.as_slice();
    let (lo, hi) = trim_bounds(ts, 0, ts.len());
    assert(ts@.subrange(0, ts@.len() as int) =~= ts@);
    if lo == hi {
        return Err(HttpError::EmptyHost);
    }
    if ts[lo] == '[' {
        split_bracketed_range(ts, lo, hi, default_port)
    } else {
        split_plain_range(ts, lo, hi, default_port)
    }
}


// ---------------------------------------------------------------------------
// Rewriting a request for an upstream HTTP proxy
// ---------------------------------------------------------------------------

/// `t` holds `\r\n` at `i`.
pub open spec fn crlf_at(t: Seq<char>, i: int) -> bool {
    0 <= i && i + 1 < t.len() && t[i] == '\r' && t[i + 1] == '\n'
}

/// The first `i' >= i` at which `t` holds `\r\n`, or `t.len()`.
pub open spec fn find_crlf(t: Seq<char>, i: int) -> int
    decreases t.len() - i,
{
    if i < 0 || i + 1 >= t.len() {
        t.len() as int
    } else if crlf_at(t, i) {
        i
    } else {
        find_crlf(t, i + 1)
    }
}

pub proof fn lemma_find_crlf(t: Seq<char>, i: int)
    requires
        0 <= i <= t.len(),
    ensures
        i <= find_crlf(t, i) <= t.len(),
        find_crlf(t, i) < t.len() ==> crlf_at(t, find_crlf(t, i)),
    decreases t.len() - i,
{
    if i + 1 < t.len() && !crlf_at(t, i) {
        lemma_find_crlf(t, i + 1);
    }
}

/// The pieces of `t[i..]` between `\r\n` separators, as `str::split("\r\n")`
/// yields them.
pub open spec fn crlf_pieces_from(t: Seq<char>, i: int) -> Seq<Seq<char>>
    decreases t.len() - i,
{
    if i < 0 || i > t.len() {
        seq![]
    } else {
        proof {
            lemma_find_crlf(t, i);
        }
        let e = find_crlf(t, i);
        if e >= t.len() {
            seq![t.subrange(i, t.len() as int)]
        } else {
            seq![t.subrange(i, e)] + crlf_pieces_from(t, e + 2)
        }
    }
}

fn find_crlf_exec(t: &[char], i: usize) -> (e: usize)
    requires
        i <= t@.len(),
    ensures
        e == find_crlf(t@, i as int),
        i <= e <= t@.len(),
        e < t@.len() ==> crlf_at(t@, e as int),
{
    let mut k = i;
    while t.len() - k >= 2
        invariant
            i <= k <= t@.len(),
            find_crlf(t@, i as int) == find_crlf(t@, k as int),
        decreases t@.len() - k,
    {
        if t[k] == '\r' && t[k + 1] == '\n' {
            return k;
        }
        k += 1;
    }
    k = t.len();
    proof {
        lemma_find_crlf(t@, i as int);
    }
    k
}

/// `s` begins with `p`.
pub open spec fn starts_with(s: Seq<char>, p: Seq<char>) -> bool {
    p.len() <= s.len() && s.subrange(0, p.len() as int) == p
}

/// The absolute-form request target: a target that already names its scheme
/// stays; any other becomes `http://` + authority + target.
pub open spec fn absolute_target(path: Seq<char>, host: Seq<char>, port: u16) -> Seq<char> {
    if starts_with(path, "http://"@) || starts_with(path, "https://"@) {
        path
    } else {
        "http://"@ + authority(host, port, 80) + path
    }
}

/// Is `line` a `Proxy-Authorization` header (name compared ignoring ASCII
/// case)?
pub open spec fn is_proxy_auth_line(line: Seq<char>) -> bool {
    let c = find_from(line, ':', 0);
    c < line.len() && eq_ignore_case(line.subrange(0, c), "proxy-authorization"@)
}

/// Does one of the header lines `ps` carry `Proxy-Authorization`?
pub open spec fn has_proxy_auth(ps: Seq<Seq<char>>) -> bool
    decreases ps.len(),
{
    ps.len() > 0 && (is_proxy_auth_line(ps[0]) || has_proxy_auth(ps.drop_first()))
}

/// The header lines `ps` again, each ended by `\r\n`, with empty ones left out.
pub open spec fn emit_headers(ps: Seq<Seq<char>>) -> Seq<char>
    decreases ps.len(),
{
    if ps.len() == 0 {
        seq![]
    } else if ps[0].len() == 0 {
        emit_headers(ps.drop_first())
    } else {
        ps[0] + seq!['\r', '\n'] + emit_headers(ps.drop_first())
    }
}

/// The rewritten head text: the request line with an absolute-form target
/// (words after the third dropped), the non-empty header lines, a
/// `Proxy-Authorization` line when credentials are given and no such header is
/// there yet, and the closing empty line.
pub open spec fn rewrite_text(
    text: Seq<char>,
    host: Seq<char>,
    port: u16,
    auth: Option<Seq<char>>,
) -> Result<Seq<char>, HttpError> {
    let pieces = crlf_pieces_from(text, 0);
    let ws = words(pieces[0]);
    if ws.len() == 0 {
        Err(HttpError::MissingMethod)
    } else if ws.len() == 1 {
        Err(HttpError::MissingRequestTarget)
    } else if ws.len() == 2 {
        Err(HttpError::MissingVersion)
    } else {
        let headers = pieces.drop_first();
        let extra = match auth {
            Some(v) => if has_proxy_auth(headers) {
                Seq::<char>::empty()
            } else {
                "Proxy-Authorization: "@ + v + seq!['\r', '\n']
            },
            None => Seq::<char>::empty(),
        };
        Ok(ws[0] + seq![' '] + absolute_target(ws[1], host, port) + seq![' '] + ws[2] + seq![
            '\r',
            '\n',
        ] + emit_headers(headers) + extra + seq!['\r', '\n'])
    }
}

/// The bytes to send to an upstream HTTP proxy for a request head: the
/// rewritten head, then whatever bytes followed its terminator.
pub open spec fn spec_rewrite(
    head: Seq<u8>,
    host: Seq<char>,
    port: u16,
    auth: Option<Seq<char>>,
) -> Result<Seq<u8>, HttpError> {
    match head_text(head) {
        Err(e) => Err(e),
        Ok(text) => match rewrite_text(text, host, port, auth) {
            Err(e) => Err(e),
            Ok(t) => Ok(encode_utf8(t) + head.subrange(header_end(head).unwrap() + 4, head.len() as int)),
        },
    }
}

/// The rewritten request ends with exactly the bytes that followed the
/// original head, and begins with a head that ends with an empty line.
pub proof fn law_rewrite_keeps_body(
    head: Seq<u8>,
    host: Seq<char>,
    port: u16,
    auth: Option<Seq<char>>,
)
    requires
        spec_rewrite(head, host, port, auth) is Ok,
    ensures
        ({
            let out = spec_rewrite(head, host, port, auth)->Ok_0;
            let end = header_end(head).unwrap();
            let text = rewrite_text(decode_utf8(head.subrange(0, end)), host, port, auth)->Ok_0;
            &&& out == encode_utf8(text) + head.subrange(end + 4, head.len() as int)
            &&& text.len() >= 2
            &&& text.subrange(text.len() - 2, text.len() as int) == seq!['\r', '\n']
        }),
{
    let end = header_end(head).unwrap();
    let text = rewrite_text(decode_utf8(head.subrange(0, end)), host, port, auth)->Ok_0;
    let t = text.subrange(text.len() - 2, text.len() as int);
    assert(t =~= seq!['\r', '\n']);
}

/// The view of an optional string slice.
pub open spec fn opt_view(o: Option<&str>) -> Option<Seq<char>> {
    match o {
        Some(s) => Some(s@),
        None => None,
    }
}

fn push_crlf(out: &mut Vec<char>)
    ensures
        final(out)@ == old(out)@ + seq!['\r', '\n'],
{
    out.push('\r');
    out.push('\n');
    assert(out@ =~= old(out)@ + seq!['\r', '\n']);
}

/// Appends the absolute-form target to `out`; see [`absolute_target`].
fn push_absolute_target(out: &mut Vec<char>, path: &[char], host: &[char], port: u16)
    ensures
        final(out)@ == old(out)@ + absolute_target(path@, host@, port),
{
    let http = chars_of("http://");
    let https = chars_of("https://");
    let ghost start = out@;
    assert(path@.subrange(0, path@.len() as int) =~= path@);
    if range_starts_with(path, 0, path.len(), http.as_slice()) || range_starts_with(
        path,
        0,
        path.len(),
        https.as_slice(),
    ) {
        extend_from(out, path);
    } else {
        extend_from(out, http.as_slice());
        push_authority(out, host, port, 80);
        extend_from(out, path);
        assert(out@ =~= start + ("http://"@ + authority(host@, port, 80) + path@));
    }
}

/// Is the piece `t[lo..hi]` a `Proxy-Authorization` header?
fn is_proxy_auth_range(t: &[char], lo: usize, hi: usize, name: &[char]) -> (b: bool)
    requires
        lo <= hi <= t@.len(),
        name@ == "proxy-authorization"@,
    ensures
        b == is_proxy_auth_line(t@.subrange(lo as int, hi as int)),
{
    let ghost line = t@.subrange(lo as int, hi as int);
    let c = find_char(t, ':', lo, hi);
    assert(line.subrange(0, c - lo) =~= t@.subrange(lo as int, c as int));
    c < hi && range_eq_ignore_case(t, lo, c, name)
}

/// The head of an HTTP request rewritten for an upstream HTTP proxy; see
/// [`spec_rewrite`].
pub fn rewrite_request_for_upstream_proxy(
    head: &[u8],
    host: &str,
    port: u16,
    proxy_authorization: Option<&str>,
) -> (r: Result<Vec<u8>, HttpError>)
    ensures
        match r {
            Ok(bytes) => spec_rewrite(head@, host@, port, opt_view(proxy_authorization)) == Ok::<
                Seq<u8>,
                HttpError,
            >(bytes@),
            Err(e) => spec_rewrite(head@, host@, port, opt_view(proxy_authorization)) == Err::<
                Seq<u8>,
                HttpError,
            >(e),
        },
{
    let (t, end) = match head_chars(head) {
        Ok(x) => x,
        Err(e) => return Err(e),
    };
    let ts = t.as_slice();
    proof {
        lemma_find_terminator(head@, 0);
    }
    let e0 = find_crlf_exec(ts, 0);
    let ghost pieces = crlf_pieces_from(ts@, 0);
    let ghost headers = if e0 < ts@.len() {
        crlf_pieces_from(ts@, e0 + 2)
    } else {
        Seq::<Seq<char>>::empty()
    };
    proof {
        assert(pieces[0] == ts@.subrange(0, e0 as int));
        assert(pieces.drop_first() =~= headers);
    }
    let line = sub_chars(ts, 0, e0);
    let ls = line.as_slice();
    let (a1, b1) = next_word(ls, 0);
    if a1 >= ls.len() {
        return Err(HttpError::MissingMethod);
    }
    let (a2, b2) = next_word(ls, b1);
    if a2 >= ls.len() {
        return Err(HttpError::MissingRequestTarget);
    }
    let (a3, b3) = next_word(ls, b2);
    if a3 >= ls.len() {
        return Err(HttpError::MissingVersion);
    }
    let ghost ws = words(ls@);
    proof {
        assert(ws[0] == ls@.subrange(a1 as int, b1 as int));
        assert(ws[1] == ls@.subrange(a2 as int, b2 as int));
        assert(ws[2] == ls@.subrange(a3 as int, b3 as int));
        assert(ws.len() >= 3);
    }
    let host_chars = chars_of(host);
    let mut out: Vec<char> = Vec::new();
    extend_from(&mut out, slice_subrange(ls, a1, b1));
    out.push(' ');
    push_absolute_target(&mut out, slice_subrange(ls, a2, b2), host_chars.as_slice(), port);
    out.push(' ');
    extend_from(&mut out, slice_subrange(ls, a3, b3));
    push_crlf(&mut out);
    let ghost prefix = out@;
    assert(prefix =~= ws[0] + seq![' '] + absolute_target(ws[1], host@, port) + seq![' '] + ws[2]
        + seq!['\r', '\n']);

    let auth_name = chars_of("proxy-authorization");
    let mut has_auth = false;
    if e0 < ts.len() {
        let mut pos = e0 + 2;
        loop
            invariant_except_break
                out@ + emit_headers(crlf_pieces_from(ts@, pos as int)) == prefix + emit_headers(
                    headers,
                ),
                has_proxy_auth(headers) == (has_auth || has_proxy_auth(
                    crlf_pieces_from(ts@, pos as int),
                )),
            invariant
                e0 + 2 <= pos <= ts@.len(),
                e0 < ts@.len(),
                headers == crlf_pieces_from(ts@, e0 + 2),
                auth_name@ == "proxy-authorization"@,
            ensures
                out@ == prefix + emit_headers(headers),
                has_auth == has_proxy_auth(headers),
            decreases ts@.len() - pos,
        {
            let e = find_crlf_exec(ts, pos);
            let ghost piece = ts@.subrange(pos as int, e as int);
            let ghost rest = if e < ts@.len() {
                crlf_pieces_from(ts@, e + 2)
            } else {
                Seq::<Seq<char>>::empty()
            };
            let ghost ps = crlf_pieces_from(ts@, pos as int);
            let ghost before = out@;
            proof {
                assert(ps[0] == piece);
                assert(ps.drop_first() =~= rest);
                assert(emit_headers(Seq::<Seq<char>>::empty()) == Seq::<char>::empty());
                assert(!has_proxy_auth(Seq::<Seq<char>>::empty()));
                assert(has_proxy_auth(ps) == (is_proxy_auth_line(piece) || has_proxy_auth(rest)));
            }
            if e > pos {
                if is_proxy_auth_range(ts, pos, e, auth_name.as_slice()) {
                    has_auth = true;
                }
                extend_from(&mut out, slice_subrange(ts, pos, e));
                push_crlf(&mut out);
                assert(out@ + emit_headers(rest) =~= before + emit_headers(ps));
            } else {
                assert(piece.len() == 0);
                assert(!is_proxy_auth_line(piece));
            }
            if e >= ts.len() {
                assert(out@ =~= out@ + emit_headers(rest));
                break;
            }
            pos = e + 2;
        }
    } else {
        assert(emit_headers(headers) == Seq::<char>::empty());
        assert(out@ =~= prefix + emit_headers(headers));
    }
    let ghost body = out@;
    if !has_auth {
        if let Some(v) = proxy_authorization {
            let label = chars_of("Proxy-Authorization: ");
            extend_from(&mut out, label.as_slice());
            let vc = chars_of(v);
            extend_from(&mut out, vc.as_slice());
            push_crlf(&mut out);
            assert(out@ =~= body + ("Proxy-Authorization: "@ + v@ + seq!['\r', '\n']));
        }
    }
    push_crlf(&mut out);
    let ghost text_out = out@;
    proof {
        let r = rewrite_text(t@, host@, port, opt_view(proxy_authorization));
        assert(r == Ok::<Seq<char>, HttpError>(text_out));
    }
    let s = string_from_chars(out.as_slice());
    let mut bytes = slice_to_vec(s.as_str().as_bytes());
    let head_len = head.len();
    proof {
        lemma_find_terminator(head@, 0);
        assert(header_end(head@) == Some(end as int));
        assert(terminator_at(head@, end as int));
        assert(end + 4 <= head@.len());
    }
    extend_from(&mut bytes, slice_subrange(head, end + 4, head_len));
    Ok(bytes)
}


// ---------------------------------------------------------------------------
// Header names
// ---------------------------------------------------------------------------

/// `c` is the character `lower` (not an upper-case ASCII letter) written in
/// either ASCII case.
pub open spec fn char_folds_to(c: char, lower: char) -> bool {
    c == lower || (97 <= (lower as u32) <= 122 && (c as u32) + 32 == (lower as u32))
}

/// The name of the header line `line`, that is the whole text before its first
/// `:`, is `name` up to ASCII case (`name` written in lower case).
pub open spec fn header_named(line: Seq<char>, name: Seq<char>) -> bool {
    &&& name.len() < line.len()
    &&& line[name.len() as int] == ':'
    &&& forall|k: int| 0 <= k < name.len() ==> line[k] != ':' && char_folds_to(line[k], name[k])
}

/// `name` holds no `:` and no upper-case ASCII letter.
pub open spec fn lower_name(name: Seq<char>) -> bool {
    forall|k: int| 0 <= k < name.len() ==> name[k] != ':' && !(65 <= (name[k] as u32) <= 90)
}

proof fn lemma_folds(c: char, lower: char)
    requires
        !(65 <= (lower as u32) <= 90),
    ensures
        lower_code(c) == lower_code(lower) <==> char_folds_to(c, lower),
{
    vstd::utf8::char_u32_cast(c, c as u32);
    vstd::utf8::char_u32_cast(lower, lower as u32);
}

/// Comparing the text before the first `:` with `name` ignoring case is
/// asking whether the line is named `name`.
proof fn lemma_header_named(line: Seq<char>, name: Seq<char>)
    requires
        lower_name(name),
    ensures
        ({
            let c = find_from(line, ':', 0);
            (c < line.len() && eq_ignore_case(line.subrange(0, c), name)) <==> header_named(
                line,
                name,
            )
        }),
        header_named(line, name) ==> find_from(line, ':', 0) == name.len(),
{
    lemma_find_from(line, ':', 0);
    let c = find_from(line, ':', 0);
    if header_named(line, name) {
        lemma_find_at(line, ':', 0, name.len() as int);
        assert forall|k: int| 0 <= k < name.len() implies lower_code(line.subrange(0, c)[k])
            == lower_code(name[k]) by {
            assert(line.subrange(0, c)[k] == line[k]);
            lemma_folds(line[k], name[k]);
        }
    }
    if c < line.len() && eq_ignore_case(line.subrange(0, c), name) {
        assert forall|k: int| 0 <= k < name.len() implies line[k] != ':' && char_folds_to(
            line[k],
            name[k],
        ) by {
            assert(line.subrange(0, c)[k] == line[k]);
            lemma_folds(line[k], name[k]);
        }
    }
}

proof fn lemma_proxy_auth_name()
    ensures
        lower_name("proxy-authorization"@),
        "proxy-authorization"@.len() == 19,
{
    reveal_strlit("proxy-authorization");
}

proof fn lemma_host_name()
    ensures
        lower_name("host"@),
        "host"@.len() == 4,
{
    reveal_strlit("host");
}

/// A header list carries `Proxy-Authorization` exactly when one of its lines
/// is named so.
proof fn lemma_has_proxy_auth(ps: Seq<Seq<char>>)
    ensures
        has_proxy_auth(ps) <==> exists|i: int|
            0 <= i < ps.len() && header_named(#[trigger] ps[i], "proxy-authorization"@),
    decreases ps.len(),
{
    lemma_proxy_auth_name();
    if ps.len() > 0 {
        let rest = ps.drop_first();
        lemma_has_proxy_auth(rest);
        lemma_header_named(ps[0], "proxy-authorization"@);
        if exists|i: int|
            0 <= i < ps.len() && header_named(#[trigger] ps[i], "proxy-authorization"@) {
            let i = choose|i: int|
                0 <= i < ps.len() && header_named(#[trigger] ps[i], "proxy-authorization"@);
            if i > 0 {
                assert(rest[i - 1] == ps[i]);
            }
        }
        if exists|i: int|
            0 <= i < rest.len() && header_named(#[trigger] rest[i], "proxy-authorization"@) {
            let i = choose|i: int|
                0 <= i < rest.len() && header_named(#[trigger] rest[i], "proxy-authorization"@);
            assert(ps[i + 1] == rest[i]);
        }
    }
}

/// Credentials add one line, `Proxy-Authorization: v`, just before the empty
/// line that closes the rewritten head, and change nothing else; unless a
/// header line is already named `Proxy-Authorization` (in any ASCII case),
/// in which case the head is rewritten as without credentials. A header of
/// any other name, `Authorization` among them, never stops the line.
pub proof fn law_proxy_authorization_line(
    text: Seq<char>,
    host: Seq<char>,
    port: u16,
    v: Seq<char>,
)
    requires
        rewrite_text(text, host, port, None) is Ok,
    ensures
        rewrite_text(text, host, port, Some(v)) is Ok,
        ({
            let without = rewrite_text(text, host, port, None)->Ok_0;
            let with = rewrite_text(text, host, port, Some(v))->Ok_0;
            let headers = crlf_pieces_from(text, 0).drop_first();
            if exists|i: int|
                0 <= i < headers.len() && header_named(
                    #[trigger] headers[i],
                    "proxy-authorization"@,
                ) {
                with == without
            } else {
                &&& without.len() >= 2
                &&& with == without.subrange(0, without.len() - 2) + "Proxy-Authorization: "@ + v
                    + seq!['\r', '\n'] + seq!['\r', '\n']
            }
        }),
{
    let headers = crlf_pieces_from(text, 0).drop_first();
    lemma_has_proxy_auth(headers);
    let without = rewrite_text(text, host, port, None)->Ok_0;
    let with = rewrite_text(text, host, port, Some(v))->Ok_0;
    if !has_proxy_auth(headers) {
        let front = without.subrange(0, without.len() - 2);
        assert(without.subrange(without.len() - 2, without.len() as int) =~= seq!['\r', '\n']);
        assert(without =~= front + seq!['\r', '\n']);
        assert(with =~= front + ("Proxy-Authorization: "@ + v + seq!['\r', '\n']) + seq!['\r', '\n']);
        assert(with =~= front + "Proxy-Authorization: "@ + v + seq!['\r', '\n'] + seq!['\r', '\n']);
    } else {
        assert(with =~= without);
    }
}

/// The encoding of joined text is the joined encodings.
proof fn lemma_encode_concat(a: Seq<char>, b: Seq<char>)
    ensures
        encode_utf8(a + b) == encode_utf8(a) + encode_utf8(b),
    decreases a.len(),
{
    if a.len() > 0 {
        assert((a + b)[0] == a[0]);
        assert((a + b).drop_first() =~= a.drop_first() + b);
        lemma_encode_concat(a.drop_first(), b);
        assert(encode_utf8(a + b) =~= encode_utf8(a) + encode_utf8(b));
    } else {
        assert(a + b =~= b);
    }
}

/// The bytes sent upstream with credentials `v` are those sent without any,
/// with the bytes of the line `Proxy-Authorization: v` put in just before
/// the final `\r\n` of the head; unless a header line of the request is
/// already named `Proxy-Authorization` (in any ASCII case), and then they are
/// the same bytes.
pub proof fn law_proxy_authorization_bytes(
    head: Seq<u8>,
    host: Seq<char>,
    port: u16,
    v: Seq<char>,
)
    requires
        spec_rewrite(head, host, port, None) is Ok,
    ensures
        spec_rewrite(head, host, port, Some(v)) is Ok,
        ({
            let without = spec_rewrite(head, host, port, None)->Ok_0;
            let with = spec_rewrite(head, host, port, Some(v))->Ok_0;
            let headers = crlf_pieces_from(head_text(head)->Ok_0, 0).drop_first();
            let k = without.len() - (head.len() - (header_end(head).unwrap() + 4)) - 2;
            if exists|i: int|
                0 <= i < headers.len() && header_named(
                    #[trigger] headers[i],
                    "proxy-authorization"@,
                ) {
                with == without
            } else {
                &&& 0 <= k <= without.len()
                &&& with == without.subrange(0, k) + encode_utf8(
                    "Proxy-Authorization: "@ + v + seq!['\r', '\n'],
                ) + without.subrange(k, without.len() as int)
            }
        }),
{
    let text = head_text(head)->Ok_0;
    law_proxy_authorization_line(text, host, port, v);
    let t0 = rewrite_text(text, host, port, None)->Ok_0;
    let t1 = rewrite_text(text, host, port, Some(v))->Ok_0;
    let end = header_end(head).unwrap();
    lemma_find_terminator(head, 0);
    let body = head.subrange(end + 4, head.len() as int);
    let headers = crlf_pieces_from(text, 0).drop_first();
    if !(exists|i: int|
        0 <= i < headers.len() && header_named(#[trigger] headers[i], "proxy-authorization"@)) {
        let front = t0.subrange(0, t0.len() - 2);
        let line = "Proxy-Authorization: "@ + v + seq!['\r', '\n'];
        let crlf = seq!['\r', '\n'];
        assert(t0 =~= front + crlf);
        assert(t1 =~= front + line + crlf);
        lemma_encode_concat(front, crlf);
        lemma_encode_concat(front + line, crlf);
        lemma_encode_concat(front, line);
        assert(encode_utf8(crlf).len() == 2) by {
            assert(crlf.drop_first().drop_first() =~= Seq::<char>::empty());
            vstd::utf8::char_u32_cast('\r', 13u32);
            vstd::utf8::char_u32_cast('\n', 10u32);
            assert(encode_utf8(crlf.drop_first().drop_first()) =~= Seq::<u8>::empty());
            assert(encode_scalar(10u32).len() == 1);
            assert(encode_scalar(13u32).len() == 1);
            assert(encode_utf8(crlf.drop_first()).len() == 1);
        }
        let without = encode_utf8(t0) + body;
        let k = encode_utf8(front).len() as int;
        assert(without.subrange(0, k) =~= encode_utf8(front));
        assert(without.subrange(k, without.len() as int) =~= encode_utf8(crlf) + body);
        assert(encode_utf8(t1) + body =~= without.subrange(0, k) + encode_utf8(line)
            + without.subrange(k, without.len() as int));
    }
}

/// The host a request head names is read from its first line whose whole name
/// is `Host` (in any ASCII case), and is the text after the `:`, trimmed;
/// empty, it is refused; with no such line the head is refused. A line whose
/// name only contains `host`, such as `X-Forwarded-Host`, is passed over.
pub proof fn law_host_from_first_host_line(head: Seq<u8>)
    requires
        head_text(head) is Ok,
    ensures
        ({
            let ls = lines(head_text(head)->Ok_0);
            &&& (forall|i: int| 0 <= i < ls.len() ==> !header_named(#[trigger] ls[i], "host"@))
                ==> spec_parse_host(head) == Err::<Seq<char>, HttpError>(
                HttpError::MissingHostHeader,
            )
            &&& forall|i: int|
                0 <= i < ls.len() && header_named(#[trigger] ls[i], "host"@) && (forall|j: int|
                    0 <= j < i ==> !header_named(#[trigger] ls[j], "host"@)) ==> spec_parse_host(
                    head,
                ) == if trim(ls[i].subrange(5, ls[i].len() as int)).len() == 0 {
                    Err::<Seq<char>, HttpError>(HttpError::EmptyHostHeader)
                } else {
                    Ok::<Seq<char>, HttpError>(trim(ls[i].subrange(5, ls[i].len() as int)))
                }
        }),
{
    lemma_host_in_lines(lines(head_text(head)->Ok_0));
}

proof fn lemma_host_value(line: Seq<char>)
    ensures
        host_value(line) == if header_named(line, "host"@) {
            Some(line.subrange(5, line.len() as int))
        } else {
            None::<Seq<char>>
        },
{
    lemma_host_name();
    lemma_header_named(line, "host"@);
}

proof fn lemma_host_in_lines(ls: Seq<Seq<char>>)
    ensures
        (forall|i: int| 0 <= i < ls.len() ==> !header_named(#[trigger] ls[i], "host"@))
            ==> host_in_lines(ls) == Err::<Seq<char>, HttpError>(HttpError::MissingHostHeader),
        forall|i: int|
            0 <= i < ls.len() && header_named(#[trigger] ls[i], "host"@) && (forall|j: int|
                0 <= j < i ==> !header_named(#[trigger] ls[j], "host"@)) ==> host_in_lines(ls)
                == if trim(ls[i].subrange(5, ls[i].len() as int)).len() == 0 {
                Err::<Seq<char>, HttpError>(HttpError::EmptyHostHeader)
            } else {
                Ok::<Seq<char>, HttpError>(trim(ls[i].subrange(5, ls[i].len() as int)))
            },
    decreases ls.len(),
{
    if ls.len() > 0 {
        let rest = ls.drop_first();
        lemma_host_in_lines(rest);
        lemma_host_value(ls[0]);
        if forall|i: int| 0 <= i < ls.len() ==> !header_named(#[trigger] ls[i], "host"@) {
            assert(!header_named(ls[0], "host"@));
            assert forall|i: int| 0 <= i < rest.len() implies !header_named(
                #[trigger] rest[i],
                "host"@,
            ) by {
                assert(rest[i] == ls[i + 1]);
            }
        }
        assert forall|i: int|
            0 <= i < ls.len() && header_named(#[trigger] ls[i], "host"@) && (forall|j: int|
                0 <= j < i ==> !header_named(#[trigger] ls[j], "host"@)) implies host_in_lines(ls)
            == if trim(ls[i].subrange(5, ls[i].len() as int)).len() == 0 {
            Err::<Seq<char>, HttpError>(HttpError::EmptyHostHeader)
        } else {
            Ok::<Seq<char>, HttpError>(trim(ls[i].subrange(5, ls[i].len() as int)))
        } by {
            if i > 0 {
                assert(!header_named(ls[0], "host"@));
                assert(rest[i - 1] == ls[i]);
                assert forall|j: int| 0 <= j < i - 1 implies !header_named(
                    #[trigger] rest[j],
                    "host"@,
                ) by {
                    assert(rest[j] == ls[j + 1]);
                }
            }
        }
    }
}

} // verus!
