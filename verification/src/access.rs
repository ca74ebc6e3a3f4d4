//! Client IP whitelist with `*` / `?` wildcard patterns.

use vstd::prelude::*;
use crate::text::chars_of;

verus! {

/// Wildcard matching of `p[i..]` against `v[j..]`: `*` stands for any run of
/// characters (the empty run included), `?` for exactly one character, and
/// every other pattern character for itself.
pub open spec fn glob_at(p: Seq<char>, v: Seq<char>, i: int, j: int) -> bool
    decreases p.len() - i, v.len() - j,
{
    if i >= p.len() {
        j >= v.len()
    } else if p[i] == '*' {
        glob_at(p, v, i + 1, j) || (j < v.len() && glob_at(p, v, i, j + 1))
    } else {
        j < v.len() && (p[i] == '?' || p[i] == v[j]) && glob_at(p, v, i + 1, j + 1)
    }
}

/// The whole of `v` matches the whole of the pattern `p`.
pub open spec fn glob_matches(p: Seq<char>, v: Seq<char>) -> bool {
    glob_at(p, v, 0, 0)
}

/// `p[i..]` holds only `*`.
pub open spec fn only_stars_from(p: Seq<char>, i: int) -> bool {
    forall|k: int| i <= k < p.len() ==> p[k] == '*'
}

/// A star at `i` may absorb any further characters: matching from a later value
/// position implies matching from an earlier one.
proof fn lemma_star_absorb(p: Seq<char>, v: Seq<char>, i: int, j: int, w: int)
    requires
        0 <= i < p.len(),
        p[i] == '*',
        0 <= j <= w <= v.len(),
        glob_at(p, v, i, w),
    ensures
        glob_at(p, v, i, j),
    decreases w - j,
{
    if j < w {
        lemma_star_absorb(p, v, i, j + 1, w);
    }
}

/// A star at `i` that matches from `j` hands over to the rest of the pattern
/// at some position `k >= j`.
proof fn lemma_star_split(p: Seq<char>, v: Seq<char>, i: int, j: int) -> (k: int)
    requires
        0 <= i < p.len(),
        p[i] == '*',
        0 <= j <= v.len(),
        glob_at(p, v, i, j),
    ensures
        j <= k <= v.len(),
        glob_at(p, v, i + 1, k),
    decreases v.len() - j,
{
    if glob_at(p, v, i + 1, j) {
        j
    } else {
        lemma_star_split(p, v, i, j + 1)
    }
}

/// A star-free pattern segment `p[a..b]` consumes exactly `b - a` characters.
proof fn lemma_literal_segment(p: Seq<char>, v: Seq<char>, a: int, b: int, k: int)
    requires
        0 <= a <= b <= p.len(),
        0 <= k <= v.len(),
        forall|t: int| a <= t < b ==> p[t] != '*',
        glob_at(p, v, a, k),
    ensures
        k + (b - a) <= v.len(),
        glob_at(p, v, b, k + (b - a)),
    decreases b - a,
{
    if a < b {
        lemma_literal_segment(p, v, a + 1, b, k + 1);
    }
}

/// Wildcard match of `pattern` against the whole of `value`: `*` matches any
/// run of characters, `?` exactly one character, everything else itself.
///
/// The scan keeps a single backtracking point at the most recent `*`; the
/// answer is the wildcard match for every pattern and value.
pub fn glob_match(pattern: &str, value: &str) -> (matched: bool)
    ensures
        matched == glob_matches(pattern@, value@),
{
    let pat = chars_of(pattern);
    let val = chars_of(value);
    let ghost pp = pat@;
    let ghost vv = val@;
    let mut p: usize = 0;
    let mut v: usize = 0;
    let mut star: Option<usize> = None;
    let mut match_v: usize = 0;

    while v < val.len()
        invariant
            pp == pat@,
            vv == val@,
            pp == pattern@,
            vv == value@,
            p <= pp.len(),
            match_v <= v <= vv.len(),
            match star {
                None => glob_at(pp, vv, 0, 0) == glob_at(pp, vv, p as int, v as int),
                Some(s) => {
                    &&& s < p
                    &&& pp[s as int] == '*'
                    &&& p - s - 1 == v - match_v
                    &&& forall|t: int| s < t < p ==> pp[t] != '*'
                    &&& glob_at(pp, vv, 0, 0) == glob_at(pp, vv, s as int, match_v as int)
                    &&& glob_at(pp, vv, s + 1, match_v as int) == glob_at(
                        pp,
                        vv,
                        p as int,
                        v as int,
                    )
                },
            },
        decreases vv.len() - match_v, vv.len() - v, pp.len() - p,
    {
        if p < pat.len() && pat[p] == '*' {
            proof {
                match star {
                    None => {},
                    Some(s) => {
                        assert(glob_at(pp, vv, s + 1, match_v as int) ==> glob_at(
                            pp,
                            vv,
                            s as int,
                            match_v as int,
                        ));
                        if glob_at(pp, vv, s as int, match_v as int) {
                            let k = lemma_star_split(pp, vv, s as int, match_v as int);
                            lemma_literal_segment(pp, vv, s + 1, p as int, k);
                            lemma_star_absorb(pp, vv, p as int, v as int, k + (p - s - 1));
                        }
                    },
                }
            }
            star = Some(p);
            p += 1;
            match_v = v;
        } else if p < pat.len() && (pat[p] == '?' || pat[p] == val[v]) {
            proof {
                assert(glob_at(pp, vv, p as int, v as int) == glob_at(pp, vv, p + 1, v + 1));
            }
            p += 1;
            v += 1;
        } else if let Some(star_pos) = star {
            proof {
                assert(!glob_at(pp, vv, p as int, v as int));
                assert(glob_at(pp, vv, star_pos as int, match_v as int) == (glob_at(
                    pp,
                    vv,
                    star_pos + 1,
                    match_v as int,
                ) || glob_at(pp, vv, star_pos as int, match_v + 1)));
            }
            p = star_pos + 1;
            match_v += 1;
            v = match_v;
        } else {
            proof {
                assert(!glob_at(pp, vv, p as int, v as int));
            }
            return false;
        }
    }

    proof {
        match star {
            None => {},
            Some(s) => {
                assert(glob_at(pp, vv, s + 1, match_v as int) ==> glob_at(
                    pp,
                    vv,
                    s as int,
                    match_v as int,
                ));
                if glob_at(pp, vv, s as int, match_v as int) {
                    let k = lemma_star_split(pp, vv, s as int, match_v as int);
                    lemma_literal_segment(pp, vv, s + 1, p as int, k);
                }
            },
        }
    }
    let ghost p_end = p;
    while p < pat.len() && pat[p] == '*'
        invariant
            pp == pat@,
            p_end <= p <= pp.len(),
            v == vv.len(),
            glob_at(pp, vv, p_end as int, v as int) == glob_at(pp, vv, p as int, v as int),
            only_stars_from(pp, p_end as int) == only_stars_from(pp, p as int),
        decreases pp.len() - p,
    {
        p += 1;
    }
    proof {
        if p < pp.len() {
            assert(!only_stars_from(pp, p as int));
        }
        lemma_end_of_value(pp, vv, p_end as int);
    }
    p == pat.len()
}

/// With the value used up, the rest of the pattern matches iff it is all `*`.
proof fn lemma_end_of_value(p: Seq<char>, v: Seq<char>, i: int)
    requires
        0 <= i <= p.len(),
    ensures
        glob_at(p, v, i, v.len() as int) == only_stars_from(p, i),
    decreases p.len() - i,
{
    if i < p.len() {
        lemma_end_of_value(p, v, i + 1);
    }
}

/// `p[i..]` holds neither `*` nor `?`.
pub open spec fn no_wildcards_from(p: Seq<char>, i: int) -> bool {
    forall|k: int| i <= k < p.len() ==> p[k] != '*' && p[k] != '?'
}

proof fn lemma_literal_from(p: Seq<char>, v: Seq<char>, i: int)
    requires
        0 <= i <= p.len(),
        i <= v.len(),
        no_wildcards_from(p, i),
    ensures
        glob_at(p, v, i, i) <==> (p.len() == v.len() && forall|k: int|
            i <= k < p.len() ==> p[k] == v[k]),
    decreases p.len() - i,
{
    if i < p.len() && i < v.len() {
        lemma_literal_from(p, v, i + 1);
    }
}

/// A pattern without wildcards matches exactly the text it spells.
pub proof fn law_literal_pattern(p: Seq<char>, v: Seq<char>)
    requires
        no_wildcards_from(p, 0),
    ensures
        glob_matches(p, v) <==> p == v,
{
    lemma_literal_from(p, v, 0);
    if p.len() == v.len() && (forall|k: int| 0 <= k < p.len() ==> p[k] == v[k]) {
        assert(p =~= v);
    }
}

proof fn lemma_trailing_star(p: Seq<char>, v: Seq<char>, j: int)
    requires
        p.len() > 0,
        p.last() == '*',
        0 <= j <= v.len(),
    ensures
        glob_at(p, v, p.len() - 1, j),
    decreases v.len() - j,
{
    assert(p[p.len() - 1] == '*');
    assert(glob_at(p, v, p.len() as int, v.len() as int));
    if j < v.len() {
        lemma_trailing_star(p, v, j + 1);
    }
}

proof fn lemma_prefix_from(p: Seq<char>, v: Seq<char>, i: int)
    requires
        p.len() > 0,
        p.last() == '*',
        0 <= i <= p.len() - 1,
        forall|k: int| i <= k < p.len() - 1 ==> p[k] != '*' && p[k] != '?',
    ensures
        i <= v.len() ==> (glob_at(p, v, i, i) <==> (p.len() - 1 <= v.len() && forall|k: int|
            i <= k < p.len() - 1 ==> p[k] == v[k])),
    decreases p.len() - i,
{
    if i == p.len() - 1 {
        if i <= v.len() {
            lemma_trailing_star(p, v, i);
        }
    } else {
        lemma_prefix_from(p, v, i + 1);
    }
}

/// A pattern `lit*`, with `lit` free of wildcards, matches exactly the texts
/// that begin with `lit`: `*` stands for any run of characters.
pub proof fn law_prefix_pattern(lit: Seq<char>, v: Seq<char>)
    requires
        no_wildcards_from(lit, 0),
    ensures
        glob_matches(lit.push('*'), v) <==> (lit.len() <= v.len() && v.subrange(
            0,
            lit.len() as int,
        ) == lit),
{
    let p = lit.push('*');
    lemma_prefix_from(p, v, 0);
    if lit.len() <= v.len() && v.subrange(0, lit.len() as int) == lit {
        assert forall|k: int| 0 <= k < p.len() - 1 implies p[k] == v[k] by {
            assert(v.subrange(0, lit.len() as int)[k] == v[k]);
        }
    }
    if lit.len() <= v.len() && (forall|k: int| 0 <= k < p.len() - 1 ==> p[k] == v[k]) {
        assert(v.subrange(0, lit.len() as int) =~= lit);
    }
}

/// The pattern `*` matches every text.
pub proof fn law_star_matches_all(v: Seq<char>)
    ensures
        glob_matches(seq!['*'], v),
{
    lemma_trailing_star(seq!['*'], v, 0);
}

/// A `?` matches exactly one character: `lit?` matches the texts one
/// character longer than `lit` that begin with it.
pub proof fn law_question_mark(lit: Seq<char>, v: Seq<char>)
    requires
        no_wildcards_from(lit, 0),
    ensures
        glob_matches(lit.push('?'), v) <==> (v.len() == lit.len() + 1 && v.subrange(
            0,
            lit.len() as int,
        ) == lit),
{
    let p = lit.push('?');
    lemma_question_from(p, v, 0);
    if v.len() == lit.len() + 1 && v.subrange(0, lit.len() as int) == lit {
        assert forall|k: int| 0 <= k < p.len() - 1 implies p[k] == v[k] by {
            assert(v.subrange(0, lit.len() as int)[k] == v[k]);
        }
    }
    if v.len() == lit.len() + 1 && (forall|k: int| 0 <= k < p.len() - 1 ==> p[k] == v[k]) {
        assert(v.subrange(0, lit.len() as int) =~= lit);
    }
}

proof fn lemma_question_from(p: Seq<char>, v: Seq<char>, i: int)
    requires
        p.len() > 0,
        p.last() == '?',
        0 <= i <= p.len() - 1,
        forall|k: int| i <= k < p.len() - 1 ==> p[k] != '*' && p[k] != '?',
    ensures
        i <= v.len() ==> (glob_at(p, v, i, i) <==> (v.len() == p.len() && forall|k: int|
            i <= k < p.len() - 1 ==> p[k] == v[k])),
    decreases p.len() - i,
{
    if i == p.len() - 1 {
        if i < v.len() {
            assert(glob_at(p, v, i + 1, i + 1) == (i + 1 >= v.len()));
        }
    } else {
        lemma_question_from(p, v, i + 1);
    }
}

/// The client IP whitelist: a list of wildcard patterns over the textual form
/// of an IP address.
#[derive(Clone, Debug)]
pub struct IpWhitelist {
    patterns: Vec<String>,
}

impl View for IpWhitelist {
    type V = Seq<Seq<char>>;

    closed spec fn view(&self) -> Seq<Seq<char>> {
        self.patterns@.map_values(|s: String| s@)
    }
}

/// Some pattern of `patterns` matches the whole of `ip`.
pub open spec fn some_pattern_matches(patterns: Seq<Seq<char>>, ip: Seq<char>) -> bool {
    exists|i: int| 0 <= i < patterns.len() && glob_matches(#[trigger] patterns[i], ip)
}

impl IpWhitelist {
    pub fn new(patterns: Vec<String>) -> (list: Self)
        ensures
            list@ == patterns@.map_values(|s: String| s@),
    {
        Self { patterns }
    }

    /// An empty whitelist lets every client through; otherwise a client is let
    /// through when one of the patterns matches its address text.
    pub fn is_allowed(&self, ip: &str) -> (allowed: bool)
        ensures
            allowed == (self@.len() == 0 || some_pattern_matches(self@, ip@)),
    {
        if self.patterns.len() == 0 {
            return true;
        }
        let mut i: usize = 0;
        while i < self.patterns.len()
            invariant
                0 <= i <= self.patterns@.len(),
                forall|k: int| 0 <= k < i ==> !glob_matches(#[trigger] self@[k], ip@),
            decreases self.patterns@.len() - i,
        {
            if glob_match(self.patterns[i].as_str(), ip) {
                assert(self@[i as int] == self.patterns@[i as int]@);
                return true;
            }
            assert(self@[i as int] == self.patterns@[i as int]@);
            i += 1;
        }
        proof {
            if some_pattern_matches(self@, ip@) {
                let k = choose|k: int|
                    0 <= k < self@.len() && glob_matches(#[trigger] self@[k], ip@);
                assert(!glob_matches(self@[k], ip@));
            }
        }
        false
    }

    pub fn patterns(&self) -> (patterns: &[String])
        ensures
            patterns@.map_values(|s: String| s@) == self@,
    {
        self.patterns.as_slice()
    }
}

} // verus!
