//! Text helpers shared by the parsers: Unicode whitespace trimming, ASCII
//! case folding, decimal numbers, searching, and conversions between bytes,
//! characters and `String`s.

use vstd::prelude::*;
use vstd::utf8::{decode_utf8, valid_utf8};

verus! {

// ---------------------------------------------------------------------------
// Conversions
// ---------------------------------------------------------------------------

/// `std::str::from_utf8`: the bytes as a string slice, when they are valid
/// UTF-8. The contract claims that the call succeeds exactly on valid UTF-8
/// and that the text is the decoding of the bytes.
#[verifier::external_body]
pub(crate) fn utf8_str(bytes: &[u8]) -> (text: Option<&str>)
    ensures
        text is Some <==> valid_utf8(bytes@),
        text matches Some(t) ==> t@ == decode_utf8(bytes@),
{
    std::str::from_utf8(bytes).ok()
}

/// `String::push`: appends one character.
#[verifier::external_body]
pub(crate) fn push_char(s: &mut String, c: char)
    ensures
        final(s)@ == old(s)@.push(c),
{
    s.push(c);
}

/// The characters of a string slice, in order.
pub fn chars_of(s: &str) -> (out: Vec<char>)
    ensures
        out@ == s@,
{
    let mut out: Vec<char> = Vec::new();
    for c in it: s.chars()
        invariant
            out@ == it.seq().take(it.index()),
    {
        out.push(c);
    }
    out
}


/// A `String` holding the given characters.
pub fn string_from_chars(chars: &[char]) -> (s: String)
    ensures
        s@ == chars@,
{
    let mut s = String::new();
    let mut i: usize = 0;
    while i < chars.len()
        invariant
            0 <= i <= chars@.len(),
            s@ == chars@.take(i as int),
        decreases chars@.len() - i,
    {
        push_char(&mut s, chars[i]);
        i += 1;
        assert(s@ =~= chars@.take(i as int));
    }
    assert(chars@.take(chars@.len() as int) =~= chars@);
    s
}

/// Appends `tail` to `v`.
pub fn extend_from<T: Copy>(v: &mut Vec<T>, tail: &[T])
    ensures
        final(v)@ == old(v)@ + tail@,
{
    let mut i: usize = 0;
    let ghost start = v@;
    while i < tail.len()
        invariant
            0 <= i <= tail@.len(),
            v@ == start + tail@.take(i as int),
        decreases tail@.len() - i,
    {
        v.push(tail[i]);
        i += 1;
        assert(v@ =~= start + tail@.take(i as int));
    }
    assert(tail@.take(tail@.len() as int) =~= tail@);
}

// ---------------------------------------------------------------------------
// Whitespace and trimming
// ---------------------------------------------------------------------------

/// The Unicode `White_Space` property, which `str::trim` and
/// `str::split_whitespace` go by.
pub open spec fn is_ws(c: char) -> bool {
    let u = c as u32;
    ||| 9 <= u <= 13
    ||| u == 32
    ||| u == 0x85
    ||| u == 0xA0
    ||| u == 0x1680
    ||| 0x2000 <= u <= 0x200A
    ||| u == 0x2028
    ||| u == 0x2029
    ||| u == 0x202F
    ||| u == 0x205F
    ||| u == 0x3000
}

pub fn is_whitespace(c: char) -> (b: bool)
    ensures
        b == is_ws(c),
{
    let u = c as u32;
    (9 <= u && u <= 13) || u == 32 || u == 0x85 || u == 0xA0 || u == 0x1680 || (0x2000 <= u
        && u <= 0x200A) || u == 0x2028 || u == 0x2029 || u == 0x202F || u == 0x205F || u
        == 0x3000
}

/// `s` without its leading whitespace.
pub open spec fn trim_start(s: Seq<char>) -> Seq<char>
    decreases s.len(),
{
    if s.len() > 0 && is_ws(s[0]) {
        trim_start(s.drop_first())
    } else {
        s
    }
}

/// `s` without its trailing whitespace.
pub open spec fn trim_end(s: Seq<char>) -> Seq<char>
    decreases s.len(),
{
    if s.len() > 0 && is_ws(s.last()) {
        trim_end(s.drop_last())
    } else {
        s
    }
}

/// `s` without leading and trailing whitespace, as `str::trim` gives it.
pub open spec fn trim(s: Seq<char>) -> Seq<char> {
    trim_end(trim_start(s))
}

/// The bounds of `s[lo..hi]` once trimmed.
pub fn trim_bounds(s: &[char], lo: usize, hi: usize) -> (r: (usize, usize))
    requires
        lo <= hi <= s@.len(),
    ensures
        lo <= r.0 <= r.1 <= hi,
        s@.subrange(r.0 as int, r.1 as int) == trim(s@.subrange(lo as int, hi as int)),
{
    let ghost t = s@.subrange(lo as int, hi as int);
    let mut i = lo;
    while i < hi && is_whitespace(s[i])
        invariant
            lo <= i <= hi <= s@.len(),
            t == s@.subrange(lo as int, hi as int),
            trim_start(t) == trim_start(s@.subrange(i as int, hi as int)),
        decreases hi - i,
    {
        assert(s@.subrange(i as int, hi as int).drop_first() =~= s@.subrange(i + 1, hi as int));
        i += 1;
    }
    let mut j = hi;
    while j > i && is_whitespace(s[j - 1])
        invariant
            lo <= i <= j <= hi <= s@.len(),
            trim(t) == trim_end(s@.subrange(i as int, j as int)),
        decreases j - i,
    {
        assert(s@.subrange(i as int, j as int).drop_last() =~= s@.subrange(i as int, j - 1));
        j -= 1;
    }
    (i, j)
}

/// Trimming twice trims no more than trimming once.
pub proof fn lemma_trim_idempotent(s: Seq<char>)
    ensures
        trim(trim(s)) == trim(s),
{
    lemma_trim_start_fixed(s);
    lemma_trim_start_of_trim_end(trim_start(s));
    lemma_trim_end_idempotent(trim_start(s));
}

proof fn lemma_trim_start_fixed(s: Seq<char>)
    ensures
        trim_start(trim_start(s)) == trim_start(s),
        trim_start(s).len() > 0 ==> !is_ws(trim_start(s)[0]),
    decreases s.len(),
{
    if s.len() > 0 && is_ws(s[0]) {
        lemma_trim_start_fixed(s.drop_first());
    }
}

proof fn lemma_trim_end_idempotent(s: Seq<char>)
    ensures
        trim_end(trim_end(s)) == trim_end(s),
        trim_end(s).len() > 0 ==> !is_ws(trim_end(s).last()),
    decreases s.len(),
{
    if s.len() > 0 && is_ws(s.last()) {
        lemma_trim_end_idempotent(s.drop_last());
    }
}

/// Dropping trailing characters keeps a non-whitespace first character first.
proof fn lemma_trim_end_keeps_first(s: Seq<char>)
    requires
        s.len() > 0 ==> !is_ws(s[0]),
    ensures
        trim_end(s).len() > 0 ==> !is_ws(trim_end(s)[0]),
        trim_end(s).len() <= s.len(),
        forall|k: int| 0 <= k < trim_end(s).len() ==> trim_end(s)[k] == s[k],
    decreases s.len(),
{
    if s.len() > 0 && is_ws(s.last()) {
        lemma_trim_end_keeps_first(s.drop_last());
        assert forall|k: int| 0 <= k < trim_end(s).len() implies trim_end(s)[k] == s[k] by {
            assert(s.drop_last()[k] == s[k]);
        }
    }
}

proof fn lemma_trim_start_of_trim_end(s: Seq<char>)
    requires
        s == trim_start(s),
    ensures
        trim_start(trim_end(s)) == trim_end(s),
{
    lemma_trim_start_fixed(s);
    lemma_trim_end_keeps_first(s);
    let e = trim_end(s);
    if e.len() > 0 {
        assert(!is_ws(e[0]));
    }
}

// ---------------------------------------------------------------------------
// ASCII case folding
// ---------------------------------------------------------------------------

/// The code of `c` after ASCII lower-casing.
pub open spec fn lower_code(c: char) -> u32 {
    if 65 <= (c as u32) <= 90 {
        (c as u32 + 32) as u32
    } else {
        c as u32
    }
}

pub fn ascii_lower_code(c: char) -> (r: u32)
    ensures
        r == lower_code(c),
{
    let u = c as u32;
    if 65 <= u && u <= 90 {
        u + 32
    } else {
        u
    }
}

/// `a` and `b` are equal once ASCII letters are lower-cased
/// (`str::eq_ignore_ascii_case`).
pub open spec fn eq_ignore_case(a: Seq<char>, b: Seq<char>) -> bool {
    a.len() == b.len() && forall|k: int| 0 <= k < a.len() ==> lower_code(a[k]) == lower_code(b[k])
}

/// Compares `s[lo..hi]` with `word` ignoring ASCII case.
pub fn range_eq_ignore_case(s: &[char], lo: usize, hi: usize, word: &[char]) -> (b: bool)
    requires
        lo <= hi <= s@.len(),
    ensures
        b == eq_ignore_case(s@.subrange(lo as int, hi as int), word@),
{
    if hi - lo != word.len() {
        return false;
    }
    let mut k: usize = 0;
    while k < word.len()
        invariant
            hi - lo == word@.len(),
            lo <= hi <= s@.len(),
            0 <= k <= word@.len(),
            forall|t: int| 0 <= t < k ==> lower_code(s@[lo + t]) == lower_code(word@[t]),
        decreases word@.len() - k,
    {
        if ascii_lower_code(s[lo + k]) != ascii_lower_code(word[k]) {
            assert(s@.subrange(lo as int, hi as int)[k as int] == s@[lo + k]);
            return false;
        }
        k += 1;
    }
    true
}

// ---------------------------------------------------------------------------
// Searching
// ---------------------------------------------------------------------------

/// The first index `>= i` at which `s` holds `c`, or `s.len()` when there is
/// none.
pub open spec fn find_from(s: Seq<char>, c: char, i: int) -> int
    decreases s.len() - i,
{
    if i >= s.len() {
        s.len() as int
    } else if s[i] == c {
        i
    } else {
        find_from(s, c, i + 1)
    }
}

pub proof fn lemma_find_from(s: Seq<char>, c: char, i: int)
    requires
        0 <= i <= s.len(),
    ensures
        i <= find_from(s, c, i) <= s.len(),
        find_from(s, c, i) < s.len() ==> s[find_from(s, c, i)] == c,
        forall|k: int| i <= k < find_from(s, c, i) ==> s[k] != c,
    decreases s.len() - i,
{
    if i < s.len() && s[i] != c {
        lemma_find_from(s, c, i + 1);
    }
}

/// Does `c` occur in `s`?
pub open spec fn has_char(s: Seq<char>, c: char) -> bool {
    exists|k: int| 0 <= k < s.len() && s[k] == c
}

/// The first index in `lo..hi` at which `s` holds `c`, or `hi`.
pub fn find_char(s: &[char], c: char, lo: usize, hi: usize) -> (r: usize)
    requires
        lo <= hi <= s@.len(),
    ensures
        lo <= r <= hi,
        r < hi ==> s@[r as int] == c,
        forall|k: int| lo <= k < r ==> s@[k] != c,
        r == lo + find_from(s@.subrange(lo as int, hi as int), c, 0),
{
    let ghost t = s@.subrange(lo as int, hi as int);
    let mut i = lo;
    while i < hi && s[i] != c
        invariant
            lo <= i <= hi <= s@.len(),
            t == s@.subrange(lo as int, hi as int),
            forall|k: int| lo <= k < i ==> s@[k] != c,
            find_from(t, c, 0) == find_from(t, c, i - lo),
        decreases hi - i,
    {
        i += 1;
    }
    i
}

/// Does `s[lo..hi]` begin with `prefix`?
pub fn range_starts_with(s: &[char], lo: usize, hi: usize, prefix: &[char]) -> (b: bool)
    requires
        lo <= hi <= s@.len(),
    ensures
        b == (prefix@.len() <= hi - lo && s@.subrange(lo as int, lo + prefix@.len())
            == prefix@),
{
    if prefix.len() > hi - lo {
        return false;
    }
    let mut k: usize = 0;
    while k < prefix.len()
        invariant
            prefix@.len() <= hi - lo,
            lo <= hi <= s@.len(),
            0 <= k <= prefix@.len(),
            forall|t: int| 0 <= t < k ==> s@[lo + t] == prefix@[t],
        decreases prefix@.len() - k,
    {
        if s[lo + k] != prefix[k] {
            assert(s@.subrange(lo as int, lo + prefix@.len())[k as int] == s@[lo + k]);
            return false;
        }
        k += 1;
    }
    assert(s@.subrange(lo as int, lo + prefix@.len()) =~= prefix@);
    true
}


// ---------------------------------------------------------------------------
// Decimal numbers
// ---------------------------------------------------------------------------

/// The ASCII digit for `d < 10`.
pub open spec fn digit_char(d: nat) -> char {
    ((48 + d) as u8) as char
}

/// The decimal digits of `n`, without sign or leading zeros.
pub open spec fn decimal(n: nat) -> Seq<char>
    decreases n,
{
    if n < 10 {
        seq![digit_char(n)]
    } else {
        decimal(n / 10).push(digit_char(n % 10))
    }
}

/// Appends the decimal digits of `n` to `out`.
pub fn push_decimal(out: &mut Vec<char>, n: u64)
    ensures
        final(out)@ == old(out)@ + decimal(n as nat),
    decreases n,
{
    if n >= 10 {
        push_decimal(out, n / 10);
    }
    let d = (n % 10) as u8;
    let ghost before = out@;
    out.push((48u8 + d) as char);
    assert(out@ =~= before.push(digit_char((n % 10) as nat)));
    if n >= 10 {
        assert(decimal(n as nat) == decimal((n / 10) as nat).push(digit_char((n % 10) as nat)));
    }
}

/// Is `c` one of the ASCII digits `0`..`9`?
pub open spec fn is_digit(c: char) -> bool {
    48 <= (c as u32) <= 57
}

/// The value of one ASCII digit.
pub open spec fn digit_value(c: char) -> nat {
    ((c as u32) - 48) as nat
}

/// The value of a string of ASCII digits.
pub open spec fn digits_value(s: Seq<char>) -> nat
    decreases s.len(),
{
    if s.len() == 0 {
        0
    } else {
        digits_value(s.drop_last()) * 10 + digit_value(s.last())
    }
}

/// Every character of `s` is an ASCII digit.
pub open spec fn all_digits(s: Seq<char>) -> bool {
    forall|k: int| 0 <= k < s.len() ==> is_digit(#[trigger] s[k])
}

/// `s` without one leading `+`.
pub open spec fn unsigned_part(s: Seq<char>) -> Seq<char> {
    if s.len() > 0 && s[0] == '+' {
        s.drop_first()
    } else {
        s
    }
}

/// What `str::parse::<u16>` gives: an optional `+` followed by at least one
/// ASCII digit, and a value that fits in 16 bits.
pub open spec fn parse_u16(s: Seq<char>) -> Option<u16> {
    let d = unsigned_part(s);
    if d.len() > 0 && all_digits(d) && digits_value(d) <= 65535 {
        Some(digits_value(d) as u16)
    } else {
        None
    }
}

proof fn lemma_digits_value_grows(s: Seq<char>, i: int)
    requires
        0 <= i <= s.len(),
        all_digits(s),
    ensures
        digits_value(s.take(i)) <= digits_value(s),
    decreases s.len() - i,
{
    if i < s.len() {
        lemma_digits_value_grows(s, i + 1);
        assert(s.take(i + 1).drop_last() =~= s.take(i));
    } else {
        assert(s.take(i) =~= s);
    }
}

/// Parses `s[lo..hi]` as a port number.
pub fn parse_port(s: &[char], lo: usize, hi: usize) -> (r: Option<u16>)
    requires
        lo <= hi <= s@.len(),
    ensures
        r == parse_u16(s@.subrange(lo as int, hi as int)),
{
    let ghost t = s@.subrange(lo as int, hi as int);
    let start = if lo < hi && s[lo] == '+' {
        lo + 1
    } else {
        lo
    };
    let ghost d = s@.subrange(start as int, hi as int);
    assert(d =~= unsigned_part(t));
    if start == hi {
        return None;
    }
    let mut value: u32 = 0;
    let mut i = start;
    while i < hi
        invariant
            lo <= start <= i <= hi <= s@.len(),
            t == s@.subrange(lo as int, hi as int),
            d == s@.subrange(start as int, hi as int),
            d == unsigned_part(t),
            forall|k: int| start <= k < i ==> is_digit(#[trigger] s@[k]),
            value == digits_value(d.take(i - start)),
            value <= 65535,
        decreases hi - i,
    {
        let c = s[i];
        let u = c as u32;
        if u < 48 || u > 57 {
            assert(d[i - start] == c);
            assert(!is_digit(d[i - start]));
            return None;
        }
        assert(d.take(i - start + 1).drop_last() =~= d.take(i - start));
        let next = value * 10 + (u - 48);
        if next > 65535 {
            proof {
                if all_digits(d) {
                    lemma_digits_value_grows(d, i - start + 1);
                }
            }
            return None;
        }
        value = next;
        i += 1;
    }
    assert(d.take(d.len() as int) =~= d);
    Some(value as u16)
}

pub proof fn lemma_decimal_digits(n: nat)
    ensures
        n < 10 ==> digit_char(n) as u32 == 48 + n,
        decimal(n).len() > 0,
        all_digits(decimal(n)),
        digits_value(decimal(n)) == n,
    decreases n,
{
    if n >= 10 {
        lemma_decimal_digits(n / 10);
        let d = decimal(n);
        assert(digit_char(n % 10) as u32 == 48 + n % 10);
        assert(d.last() == digit_char(n % 10));
        assert(digit_value(d.last()) == n % 10);
        assert(n == (n / 10) * 10 + n % 10);
        assert(digits_value(d) == digits_value(d.drop_last()) * 10 + digit_value(d.last()));
        assert(d.drop_last() =~= decimal(n / 10));
        assert forall|k: int| 0 <= k < d.len() implies is_digit(#[trigger] d[k]) by {
            if k < d.len() - 1 {
                assert(d[k] == decimal(n / 10)[k]);
            }
        }
    } else {
        let d = decimal(n);
        assert(d.drop_last() =~= Seq::<char>::empty());
        assert(digit_char(n) as u32 == 48 + n);
        assert(digit_value(d.last()) == n);
        assert(digits_value(d) == digits_value(d.drop_last()) * 10 + digit_value(d.last()));
        assert(is_digit(d[0]));
    }
}

/// Reading back the decimal form of a port gives the port.
pub proof fn lemma_parse_decimal(n: u16)
    ensures
        parse_u16(decimal(n as nat)) == Some(n),
{
    lemma_decimal_digits(n as nat);
    assert(is_digit(decimal(n as nat)[0]));
}


// ---------------------------------------------------------------------------
// Words and lines
// ---------------------------------------------------------------------------

/// The first index `>= i` that holds no whitespace, or `s.len()`.
pub open spec fn skip_ws(s: Seq<char>, i: int) -> int
    decreases s.len() - i,
{
    if i >= s.len() {
        s.len() as int
    } else if is_ws(s[i]) {
        skip_ws(s, i + 1)
    } else {
        i
    }
}

/// The first index `>= i` that holds whitespace, or `s.len()`.
pub open spec fn skip_word(s: Seq<char>, i: int) -> int
    decreases s.len() - i,
{
    if i >= s.len() {
        s.len() as int
    } else if !is_ws(s[i]) {
        skip_word(s, i + 1)
    } else {
        i
    }
}

pub proof fn lemma_skip_ws(s: Seq<char>, i: int)
    requires
        0 <= i <= s.len(),
    ensures
        i <= skip_ws(s, i) <= s.len(),
        skip_ws(s, i) < s.len() ==> !is_ws(s[skip_ws(s, i)]),
        forall|k: int| i <= k < skip_ws(s, i) ==> is_ws(s[k]),
    decreases s.len() - i,
{
    if i < s.len() && is_ws(s[i]) {
        lemma_skip_ws(s, i + 1);
    }
}

pub proof fn lemma_skip_word(s: Seq<char>, i: int)
    requires
        0 <= i <= s.len(),
    ensures
        i <= skip_word(s, i) <= s.len(),
        i < s.len() && !is_ws(s[i]) ==> i < skip_word(s, i),
        skip_word(s, i) < s.len() ==> is_ws(s[skip_word(s, i)]),
        forall|k: int| i <= k < skip_word(s, i) ==> !is_ws(s[k]),
    decreases s.len() - i,
{
    if i < s.len() && !is_ws(s[i]) {
        lemma_skip_word(s, i + 1);
    }
}

/// The whitespace-separated words of `s[i..]`, as `str::split_whitespace`
/// yields them.
pub open spec fn words_from(s: Seq<char>, i: int) -> Seq<Seq<char>>
    decreases s.len() - i,
{
    if i < 0 || i >= s.len() {
        seq![]
    } else {
        let a = skip_ws(s, i);
        if a >= s.len() {
            seq![]
        } else {
            let b = skip_word(s, a);
            proof {
                lemma_skip_ws(s, i);
                lemma_skip_word(s, a);
            }
            seq![s.subrange(a, b)] + words_from(s, b)
        }
    }
}

/// The whitespace-separated words of `s`.
pub open spec fn words(s: Seq<char>) -> Seq<Seq<char>> {
    words_from(s, 0)
}

/// The bounds of the next word of `s` at or after `i`: `(s.len(), s.len())`
/// when there is none.
pub fn next_word(s: &[char], i: usize) -> (r: (usize, usize))
    requires
        i <= s@.len(),
    ensures
        r.0 == skip_ws(s@, i as int),
        r.0 < s@.len() ==> r.1 == skip_word(s@, r.0 as int),
        r.0 >= s@.len() ==> r.1 == r.0,
        i <= r.0 <= r.1 <= s@.len(),
        r.0 < s@.len() ==> r.0 < r.1,
        r.0 < s@.len() ==> words_from(s@, i as int) == seq![s@.subrange(r.0 as int, r.1 as int)]
            + words_from(s@, r.1 as int),
        r.0 >= s@.len() ==> words_from(s@, i as int) == Seq::<Seq<char>>::empty(),
{
    let mut a = i;
    while a < s.len() && is_whitespace(s[a])
        invariant
            i <= a <= s@.len(),
            skip_ws(s@, i as int) == skip_ws(s@, a as int),
        decreases s@.len() - a,
    {
        a += 1;
    }
    let mut b = a;
    while b < s.len() && !is_whitespace(s[b])
        invariant
            a <= b <= s@.len(),
            a < s@.len() ==> skip_word(s@, a as int) == skip_word(s@, b as int),
            a < s@.len() ==> !is_ws(s@[a as int]),
        decreases s@.len() - b,
    {
        b += 1;
    }
    proof {
        lemma_skip_ws(s@, i as int);
        if a < s@.len() {
            lemma_skip_word(s@, a as int);
        }
    }
    (a, b)
}

/// The lines of `t[i..]`, as `str::lines` yields them: split after each
/// `\n`, with the `\n` and one `\r` before it removed; a last line without
/// `\n` keeps its text as it is.
pub open spec fn lines_from(t: Seq<char>, i: int) -> Seq<Seq<char>>
    decreases t.len() - i,
{
    if i < 0 || i >= t.len() {
        seq![]
    } else {
        proof {
            lemma_find_from(t, '\n', i);
        }
        let nl = find_from(t, '\n', i);
        let raw = t.subrange(i, nl);
        let line = if nl < t.len() && raw.len() > 0 && raw.last() == '\r' {
            raw.drop_last()
        } else {
            raw
        };
        if nl < t.len() {
            seq![line] + lines_from(t, nl + 1)
        } else {
            seq![line]
        }
    }
}

/// The lines of `t`.
pub open spec fn lines(t: Seq<char>) -> Seq<Seq<char>> {
    lines_from(t, 0)
}

/// The end of the line of `t` that starts at `i < t.len()`, and the index of
/// the `\n` that ends it (`t.len()` when none does).
pub fn next_line(t: &[char], i: usize) -> (r: (usize, usize))
    requires
        i < t@.len(),
    ensures
        i <= r.0 <= r.1 <= t@.len(),
        r.1 < t@.len() ==> t@[r.1 as int] == '\n',
        lines_from(t@, i as int) == seq![t@.subrange(i as int, r.0 as int)] + lines_from(
            t@,
            r.1 + 1,
        ),
{
    let nl = find_char(t, '\n', i, t.len());
    proof {
        lemma_find_from(t@, '\n', i as int);
        assert(find_from(t@.subrange(i as int, t@.len() as int), '\n', 0) == find_from(
            t@,
            '\n',
            i as int,
        ) - i) by {
            lemma_find_shift(t@, '\n', i as int, 0);
        }
    }
    let end = if nl < t.len() && nl > i && t[nl - 1] == '\r' {
        nl - 1
    } else {
        nl
    };
    proof {
        let raw = t@.subrange(i as int, nl as int);
        if nl < t@.len() && nl > i && t@[nl - 1] == '\r' {
            assert(raw.drop_last() =~= t@.subrange(i as int, end as int));
        }
    }
    (end, nl)
}

/// Searching a suffix is searching the whole from a later start.
pub proof fn lemma_find_shift(s: Seq<char>, c: char, lo: int, i: int)
    requires
        0 <= lo <= s.len(),
        0 <= i <= s.len() - lo,
    ensures
        find_from(s.subrange(lo, s.len() as int), c, i) == find_from(s, c, lo + i) - lo,
    decreases s.len() - lo - i,
{
    if i < s.len() - lo {
        lemma_find_shift(s, c, lo, i + 1);
    }
}

/// A copy of `s[lo..hi]`.
pub fn sub_chars(s: &[char], lo: usize, hi: usize) -> (v: Vec<char>)
    requires
        lo <= hi <= s@.len(),
    ensures
        v@ == s@.subrange(lo as int, hi as int),
{
    vstd::slice::slice_to_vec(vstd::slice::slice_subrange(s, lo, hi))
}


/// Text that neither begins nor ends with whitespace is its own trim.
pub proof fn lemma_trim_noop(s: Seq<char>)
    requires
        s.len() > 0,
        !is_ws(s[0]),
        !is_ws(s.last()),
    ensures
        trim(s) == s,
{
    assert(trim_start(s) == s);
}

/// The first `c` at or after `i` is at `k` when `s[i..k]` holds none.
pub proof fn lemma_find_at(s: Seq<char>, c: char, i: int, k: int)
    requires
        0 <= i <= k <= s.len(),
        k < s.len() ==> s[k] == c,
        forall|t: int| i <= t < k ==> s[t] != c,
    ensures
        find_from(s, c, i) == k,
    decreases k - i,
{
    if i < k {
        lemma_find_at(s, c, i + 1, k);
    }
}

} // verus!
