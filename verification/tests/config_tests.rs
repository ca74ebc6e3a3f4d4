use trans_proxy::config::{
    apply_env_overrides, default_http_bind, default_https_bind, normalize, normalize_optional,
    parse_bool, parse_ip_whitelist, Config, EnvOverrides, UpstreamHttpProxyConfig,
};

fn no_env() -> EnvOverrides {
    EnvOverrides {
        http_bind: None,
        https_bind: None,
        client_ip_whitelist: None,
        upstream_enabled: None,
        upstream_address: None,
        upstream_username: None,
        upstream_password: None,
    }
}

#[test]
fn defaults() {
    assert_eq!(default_http_bind(), "0.0.0.0:80");
    assert_eq!(default_https_bind(), "0.0.0.0:443");
    let c = Config::default();
    assert_eq!(c.http_bind, "0.0.0.0:80");
    assert_eq!(c.https_bind, "0.0.0.0:443");
    assert!(c.client_ip_whitelist.is_empty());
    assert!(!c.upstream_http_proxy.enabled);
    assert!(c.upstream_http_proxy.address.is_none());
    let u = UpstreamHttpProxyConfig::default();
    assert!(!u.enabled && u.username.is_none() && u.password.is_none());
}

#[test]
fn parse_bool_words() {
    for w in ["1", "true", "yes", "on", " TRUE ", "On", "YeS"] {
        assert_eq!(parse_bool(w), Some(true), "{w}");
    }
    for w in ["0", "false", "no", "off", "\tOFF\n", "False"] {
        assert_eq!(parse_bool(w), Some(false), "{w}");
    }
    for w in ["", "2", "maybe", "tru", "yes!", "o n"] {
        assert_eq!(parse_bool(w), None, "{w}");
    }
}

#[test]
fn normalize_optional_trims_and_drops_empty() {
    assert_eq!(normalize_optional(None), None);
    assert_eq!(normalize_optional(Some("   ".to_string())), None);
    assert_eq!(normalize_optional(Some("".to_string())), None);
    assert_eq!(normalize_optional(Some(" 127.0.0.1:3128 ".to_string())), Some("127.0.0.1:3128".to_string()));
    assert_eq!(normalize_optional(Some("\u{3000}user\u{a0}".to_string())), Some("user".to_string()));
}

#[test]
fn whitelist_lists_split_on_comma_and_semicolon() {
    assert_eq!(
        parse_ip_whitelist("192.168.1.*, 10.0.0.5;;2001:db8::* ,"),
        vec!["192.168.1.*".to_string(), "10.0.0.5".to_string(), "2001:db8::*".to_string()]
    );
    assert!(parse_ip_whitelist("").is_empty());
    assert!(parse_ip_whitelist(" , ; ").is_empty());
}

#[test]
fn environment_wins_over_the_file() {
    let mut c = Config::default();
    c.upstream_http_proxy.address = Some("file:1".to_string());
    let mut env = no_env();
    env.http_bind = Some("127.0.0.1:8080".to_string());
    env.client_ip_whitelist = Some("10.0.0.*".to_string());
    env.upstream_enabled = Some("yes".to_string());
    env.upstream_address = Some(" 127.0.0.1:3128 ".to_string());
    env.upstream_username = Some("user".to_string());
    apply_env_overrides(&mut c, &env);
    assert_eq!(c.http_bind, "127.0.0.1:8080");
    assert_eq!(c.https_bind, "0.0.0.0:443");
    assert_eq!(c.client_ip_whitelist, vec!["10.0.0.*".to_string()]);
    assert!(c.upstream_http_proxy.enabled);
    assert_eq!(c.upstream_http_proxy.address.as_deref(), Some(" 127.0.0.1:3128 "));
    assert_eq!(c.upstream_http_proxy.username.as_deref(), Some("user"));
    assert!(c.upstream_http_proxy.password.is_none());
    normalize(&mut c);
    assert_eq!(c.upstream_http_proxy.address.as_deref(), Some("127.0.0.1:3128"));
}

#[test]
fn unparsable_enabled_value_is_ignored() {
    let mut c = Config::default();
    c.upstream_http_proxy.enabled = true;
    let mut env = no_env();
    env.upstream_enabled = Some("sometimes".to_string());
    apply_env_overrides(&mut c, &env);
    assert!(c.upstream_http_proxy.enabled);
    env.upstream_enabled = Some("off".to_string());
    apply_env_overrides(&mut c, &env);
    assert!(!c.upstream_http_proxy.enabled);
}

#[test]
fn normalizing_twice_changes_nothing_more() {
    let mut c = Config::default();
    c.upstream_http_proxy.username = Some("  u ".to_string());
    c.upstream_http_proxy.password = Some("   ".to_string());
    normalize(&mut c);
    assert_eq!(c.upstream_http_proxy.username.as_deref(), Some("u"));
    assert!(c.upstream_http_proxy.password.is_none());
    normalize(&mut c);
    assert_eq!(c.upstream_http_proxy.username.as_deref(), Some("u"));
}
