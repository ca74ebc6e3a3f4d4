use trans_proxy::text::{chars_of, parse_port, push_decimal, string_from_chars, trim_bounds};

#[test]
fn ports() {
    let t = chars_of("65535");
    assert_eq!(parse_port(&t, 0, t.len()), Some(65535));
    let t = chars_of("+007");
    assert_eq!(parse_port(&t, 0, t.len()), Some(7));
    for bad in ["", "+", "65536", "1a", " 1", "-0", "++1", "99999999999999999999"] {
        let t = chars_of(bad);
        assert_eq!(parse_port(&t, 0, t.len()), None, "{bad}");
    }
}

#[test]
fn decimal_digits() {
    let mut v = Vec::new();
    push_decimal(&mut v, 0);
    assert_eq!(string_from_chars(&v), "0");
    let mut v = Vec::new();
    push_decimal(&mut v, 18446744073709551615);
    assert_eq!(string_from_chars(&v), "18446744073709551615");
}

#[test]
fn trimming_uses_unicode_whitespace() {
    let t = chars_of("\u{2003} a b\u{205f}\r\n");
    let (lo, hi) = trim_bounds(&t, 0, t.len());
    assert_eq!(string_from_chars(&t[lo..hi]), "a b");
    let t = chars_of(" \t ");
    let (lo, hi) = trim_bounds(&t, 0, t.len());
    assert_eq!(lo, hi);
}
