//! The service configuration: its defaults, the environment variables that
//! override the configuration file, and the normalisation of optional values.

use vstd::prelude::*;

use crate::text::{
    chars_of, eq_ignore_case, lemma_trim_idempotent, range_eq_ignore_case, string_from_chars, trim,
    trim_bounds,
};

verus! {

/// The upstream HTTP proxy settings.
#[derive(Debug)]
pub struct UpstreamHttpProxyConfig {
    pub enabled: bool,
    pub address: Option<String>,
    pub username: Option<String>,
    pub password: Option<String>,
}

/// The whole configuration.
#[derive(Debug)]
pub struct Config {
    pub http_bind: String,
    pub https_bind: String,
    pub client_ip_whitelist: Vec<String>,
    pub upstream_http_proxy: UpstreamHttpProxyConfig,
}

/// The values of the environment variables that override the configuration
/// file; `None` where a variable is not set.
#[derive(Debug)]
pub struct EnvOverrides {
    /// `HTTP_BIND`
    pub http_bind: Option<String>,
    /// `HTTPS_BIND`
    pub https_bind: Option<String>,
    /// `CLIENT_IP_WHITELIST`
    pub client_ip_whitelist: Option<String>,
    /// `UPSTREAM_HTTP_PROXY_ENABLED`
    pub upstream_enabled: Option<String>,
    /// `UPSTREAM_HTTP_PROXY_ADDR`
    pub upstream_address: Option<String>,
    /// `UPSTREAM_HTTP_PROXY_USERNAME`
    pub upstream_username: Option<String>,
    /// `UPSTREAM_HTTP_PROXY_PASSWORD`
    pub upstream_password: Option<String>,
}

/// The view of an optional `String`.
pub open spec fn opt_string(o: Option<String>) -> Option<Seq<char>> {
    match o {
        Some(s) => Some(s@),
        None => None,
    }
}

/// The views of a list of `String`s.
pub open spec fn strings(v: Seq<String>) -> Seq<Seq<char>> {
    v.map_values(|s: String| s@)
}

fn clone_opt(o: &Option<String>) -> (r: Option<String>)
    ensures
        opt_string(r) == opt_string(*o),
{
    match o {
        Some(s) => Some(s.clone()),
        None => None,
    }
}

impl Default for UpstreamHttpProxyConfig {
    fn default() -> (c: Self)
        ensures
            !c.enabled,
            c.address is None,
            c.username is None,
            c.password is None,
    {
        UpstreamHttpProxyConfig { enabled: false, address: None, username: None, password: None }
    }
}

/// The default HTTP listen address.
pub fn default_http_bind() -> (s: String)
    ensures
        s@ == "0.0.0.0:80"@,
{
    "0.0.0.0:80".to_owned()
}

/// The default HTTPS listen address.
pub fn default_https_bind() -> (s: String)
    ensures
        s@ == "0.0.0.0:443"@,
{
    "0.0.0.0:443".to_owned()
}

impl Default for Config {
    fn default() -> (c: Self)
        ensures
            c.http_bind@ == "0.0.0.0:80"@,
            c.https_bind@ == "0.0.0.0:443"@,
            c.client_ip_whitelist@.len() == 0,
            !c.upstream_http_proxy.enabled,
            c.upstream_http_proxy.address is None,
            c.upstream_http_proxy.username is None,
            c.upstream_http_proxy.password is None,
    {
        Config {
            http_bind: default_http_bind(),
            https_bind: default_https_bind(),
            client_ip_whitelist: Vec::new(),
            upstream_http_proxy: UpstreamHttpProxyConfig::default(),
        }
    }
}

// ---------------------------------------------------------------------------
// Booleans
// ---------------------------------------------------------------------------

/// The boolean that an environment value spells, trimmed and ignoring ASCII
/// case: `1`, `true`, `yes`, `on` or `0`, `false`, `no`, `off`.
pub open spec fn spec_parse_bool(s: Seq<char>) -> Option<bool> {
    let t = trim(s);
    if eq_ignore_case(t, "1"@) || eq_ignore_case(t, "true"@) || eq_ignore_case(t, "yes"@)
        || eq_ignore_case(t, "on"@) {
        Some(true)
    } else if eq_ignore_case(t, "0"@) || eq_ignore_case(t, "false"@) || eq_ignore_case(t, "no"@)
        || eq_ignore_case(t, "off"@) {
        Some(false)
    } else {
        None
    }
}

fn is_word(t: &[char], lo: usize, hi: usize, word: &str) -> (b: bool)
    requires
        lo <= hi <= t@.len(),
    ensures
        b == eq_ignore_case(t@.subrange(lo as int, hi as int), word@),
{
    let w = chars_of(word);
    range_eq_ignore_case(t, lo, hi, w.as_slice())
}

/// Parses an environment value as a boolean; see [`spec_parse_bool`].
pub fn parse_bool(value: &str) -> (r: Option<bool>)
    ensures
        r == spec_parse_bool(value@),
{
    let v = chars_of(value);
    let t = v.as_slice();
    let (lo, hi) = trim_bounds(t, 0, t.len());
    assert(t@.subrange(0, t@.len() as int) =~= t@);
    if is_word(t, lo, hi, "1") || is_word(t, lo, hi, "true") || is_word(t, lo, hi, "yes")
        || is_word(t, lo, hi, "on") {
        Some(true)
    } else if is_word(t, lo, hi, "0") || is_word(t, lo, hi, "false") || is_word(t, lo, hi, "no")
        || is_word(t, lo, hi, "off") {
        Some(false)
    } else {
        None
    }
}

// ---------------------------------------------------------------------------
// Optional values and whitelist lists
// ---------------------------------------------------------------------------

/// An optional value trimmed, with an empty one taken as absent.
pub open spec fn spec_normalize_optional(o: Option<Seq<char>>) -> Option<Seq<char>> {
    match o {
        Some(v) => if trim(v).len() == 0 {
            None
        } else {
            Some(trim(v))
        },
        None => None,
    }
}

pub fn normalize_optional(value: Option<String>) -> (r: Option<String>)
    ensures
        opt_string(r) == spec_normalize_optional(opt_string(value)),
{
    match value {
        Some(v) => {
            let c = chars_of(v.as_str());
            let t = c.as_slice();
            let (lo, hi) = trim_bounds(t, 0, t.len());
            assert(t@.subrange(0, t@.len() as int) =~= t@);
            if lo == hi {
                None
            } else {
                Some(string_from_chars(vstd::slice::slice_subrange(t, lo, hi)))
            }
        },
        None => None,
    }
}

/// Normalising a value twice is normalising it once.
pub proof fn law_normalize_idempotent(o: Option<Seq<char>>)
    ensures
        spec_normalize_optional(spec_normalize_optional(o)) == spec_normalize_optional(o),
{
    if let Some(v) = o {
        lemma_trim_idempotent(v);
    }
}

/// Is `c` a separator of a whitelist list (`,` or `;`)?
pub open spec fn is_list_sep(c: char) -> bool {
    c == ',' || c == ';'
}

/// The first index `>= i` that holds a list separator, or `s.len()`.
pub open spec fn find_sep(s: Seq<char>, i: int) -> int
    decreases s.len() - i,
{
    if i < 0 || i >= s.len() {
        s.len() as int
    } else if is_list_sep(s[i]) {
        i
    } else {
        find_sep(s, i + 1)
    }
}

pub proof fn lemma_find_sep(s: Seq<char>, i: int)
    requires
        0 <= i <= s.len(),
    ensures
        i <= find_sep(s, i) <= s.len(),
    decreases s.len() - i,
{
    if i < s.len() && !is_list_sep(s[i]) {
        lemma_find_sep(s, i + 1);
    }
}

/// The entries of a whitelist list from `i`: the pieces between `,` or `;`
/// separators, trimmed, with empty ones left out.
pub open spec fn list_entries_from(s: Seq<char>, i: int) -> Seq<Seq<char>>
    decreases s.len() - i,
{
    if i < 0 || i > s.len() {
        seq![]
    } else {
        proof {
            lemma_find_sep(s, i);
        }
        let e = find_sep(s, i);
        let piece = trim(s.subrange(i, e));
        let here = if piece.len() > 0 {
            seq![piece]
        } else {
            Seq::<Seq<char>>::empty()
        };
        if e < s.len() {
            here + list_entries_from(s, e + 1)
        } else {
            here
        }
    }
}

/// The patterns of a `CLIENT_IP_WHITELIST` value.
pub open spec fn list_entries(s: Seq<char>) -> Seq<Seq<char>> {
    list_entries_from(s, 0)
}

fn find_sep_exec(s: &[char], i: usize) -> (e: usize)
    requires
        i <= s@.len(),
    ensures
        e == find_sep(s@, i as int),
        i <= e <= s@.len(),
{
    let mut k = i;
    while k < s.len() && s[k] != ',' && s[k] != ';'
        invariant
            i <= k <= s@.len(),
            find_sep(s@, i as int) == find_sep(s@, k as int),
        decreases s@.len() - k,
    {
        k += 1;
    }
    k
}

/// Splits a `CLIENT_IP_WHITELIST` value into patterns; see [`list_entries`].
pub fn parse_ip_whitelist(value: &str) -> (r: Vec<String>)
    ensures
        strings(r@) == list_entries(value@),
{
    let c = chars_of(value);
    let s = c.as_slice();
    let mut out: Vec<String> = Vec::new();
    let mut pos: usize = 0;
    loop
        invariant_except_break
            pos <= s@.len(),
            strings(out@) + list_entries_from(s@, pos as int) == list_entries(s@),
        invariant
            s@ == value@,
        ensures
            strings(out@) == list_entries(s@),
        decreases s@.len() - pos,
    {
        let e = find_sep_exec(s, pos);
        let (a, b) = trim_bounds(s, pos, e);
        let ghost before = strings(out@);
        let ghost here = list_entries_from(s@, pos as int);
        if a < b {
            out.push(string_from_chars(vstd::slice::slice_subrange(s, a, b)));
        }
        proof {
            let piece = trim(s@.subrange(pos as int, e as int));
            let h = if piece.len() > 0 {
                seq![piece]
            } else {
                Seq::<Seq<char>>::empty()
            };
            assert(strings(out@) =~= before + h);
            if e < s@.len() {
                assert(here == h + list_entries_from(s@, e + 1));
                assert(strings(out@) + list_entries_from(s@, e + 1) =~= before + here);
            } else {
                assert(here == h);
            }
        }
        if e >= s.len() {
            break;
        }
        pos = e + 1;
    }
    out
}

// ---------------------------------------------------------------------------
// Applying the environment
// ---------------------------------------------------------------------------

/// An override in place of a current value, when there is one.
pub open spec fn overridden(current: Seq<char>, value: Option<String>) -> Seq<char> {
    match value {
        Some(v) => v@,
        None => current,
    }
}

/// An optional override in place of a current optional value.
pub open spec fn overridden_opt(current: Option<String>, value: Option<String>) -> Option<
    Seq<char>,
> {
    match value {
        Some(v) => Some(v@),
        None => opt_string(current),
    }
}

/// Applies the environment to a configuration read from its file: each set
/// variable wins over the file's value; `UPSTREAM_HTTP_PROXY_ENABLED` only
/// when it spells a boolean.
pub fn apply_env_overrides(config: &mut Config, env: &EnvOverrides)
    ensures
        final(config).http_bind@ == overridden(old(config).http_bind@, env.http_bind),
        final(config).https_bind@ == overridden(old(config).https_bind@, env.https_bind),
        strings(final(config).client_ip_whitelist@) == match env.client_ip_whitelist {
            Some(v) => list_entries(v@),
            None => strings(old(config).client_ip_whitelist@),
        },
        final(config).upstream_http_proxy.enabled == match env.upstream_enabled {
            Some(v) => match spec_parse_bool(v@) {
                Some(b) => b,
                None => old(config).upstream_http_proxy.enabled,
            },
            None => old(config).upstream_http_proxy.enabled,
        },
        opt_string(final(config).upstream_http_proxy.address) == overridden_opt(
            old(config).upstream_http_proxy.address,
            env.upstream_address,
        ),
        opt_string(final(config).upstream_http_proxy.username) == overridden_opt(
            old(config).upstream_http_proxy.username,
            env.upstream_username,
        ),
        opt_string(final(config).upstream_http_proxy.password) == overridden_opt(
            old(config).upstream_http_proxy.password,
            env.upstream_password,
        ),
{
    if let Some(v) = &env.http_bind {
        config.http_bind = v.clone();
    }
    if let Some(v) = &env.https_bind {
        config.https_bind = v.clone();
    }
    if let Some(v) = &env.client_ip_whitelist {
        config.client_ip_whitelist = parse_ip_whitelist(v.as_str());
    }
    if let Some(v) = &env.upstream_enabled {
        if let Some(parsed) = parse_bool(v.as_str()) {
            config.upstream_http_proxy.enabled = parsed;
        }
    }
    if env.upstream_address.is_some() {
        config.upstream_http_proxy.address = clone_opt(&env.upstream_address);
    }
    if env.upstream_username.is_some() {
        config.upstream_http_proxy.username = clone_opt(&env.upstream_username);
    }
    if env.upstream_password.is_some() {
        config.upstream_http_proxy.password = clone_opt(&env.upstream_password);
    }
}

/// Trims the upstream proxy address and credentials, dropping empty ones;
/// everything else stays as it is.
pub fn normalize(config: &mut Config)
    ensures
        final(config).http_bind == old(config).http_bind,
        final(config).https_bind == old(config).https_bind,
        final(config).client_ip_whitelist == old(config).client_ip_whitelist,
        final(config).upstream_http_proxy.enabled == old(config).upstream_http_proxy.enabled,
        opt_string(final(config).upstream_http_proxy.address) == spec_normalize_optional(
            opt_string(old(config).upstream_http_proxy.address),
        ),
        opt_string(final(config).upstream_http_proxy.username) == spec_normalize_optional(
            opt_string(old(config).upstream_http_proxy.username),
        ),
        opt_string(final(config).upstream_http_proxy.password) == spec_normalize_optional(
            opt_string(old(config).upstream_http_proxy.password),
        ),
{
    config.upstream_http_proxy.address = normalize_optional(
        config.upstream_http_proxy.address.take(),
    );
    config.upstream_http_proxy.username = normalize_optional(
        config.upstream_http_proxy.username.take(),
    );
    config.upstream_http_proxy.password = normalize_optional(
        config.upstream_http_proxy.password.take(),
    );
}

} // verus!
