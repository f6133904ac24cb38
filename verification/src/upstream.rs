//! The upstream server name as the user writes it, and the host names that
//! stand for it.

use vstd::prelude::*;
use vstd::string::StringExecFns;
use crate::text::{is_white_space, white_space, chars_match_at, str_to_lowercase, unicode_lowercase};

verus! {

/// `s` without its leading white space.
pub open spec fn trim_white_start(s: Seq<char>) -> Seq<char>
    decreases s.len(),
{
    if s.len() > 0 && is_white_space(s[0]) {
        trim_white_start(s.drop_first())
    } else {
        s
    }
}

/// `s` without its trailing white space.
pub open spec fn trim_white_end(s: Seq<char>) -> Seq<char>
    decreases s.len(),
{
    if s.len() > 0 && is_white_space(s.last()) {
        trim_white_end(s.drop_last())
    } else {
        s
    }
}

/// `s` with `pat` removed from its front as many times as it occurs there.
pub open spec fn strip_repeated_prefix(s: Seq<char>, pat: Seq<char>) -> Seq<char>
    decreases s.len(),
{
    if pat.len() > 0 && pat.len() <= s.len() && s.take(pat.len() as int) == pat {
        strip_repeated_prefix(s.skip(pat.len() as int), pat)
    } else {
        s
    }
}

/// `s` without the copies of `c` at its front.
pub open spec fn trim_char_start(s: Seq<char>, c: char) -> Seq<char>
    decreases s.len(),
{
    if s.len() > 0 && s[0] == c {
        trim_char_start(s.drop_first(), c)
    } else {
        s
    }
}

/// `s` without the copies of `c` at its end.
pub open spec fn trim_char_end(s: Seq<char>, c: char) -> Seq<char>
    decreases s.len(),
{
    if s.len() > 0 && s.last() == c {
        trim_char_end(s.drop_last(), c)
    } else {
        s
    }
}

/// The server name with surrounding white space, any `https://` and then any
/// `http://` prefixes, and surrounding slashes removed; case is kept.
pub open spec fn upstream_host_chars(s: Seq<char>) -> Seq<char> {
    trim_char_end(
        trim_char_start(
            strip_repeated_prefix(
                strip_repeated_prefix(trim_white_end(trim_white_start(s)), "https://"@),
                "http://"@,
            ),
            '/',
        ),
        '/',
    )
}

/// The normalised upstream server name: `upstream_host_chars`, lower-cased.
pub open spec fn normalized_upstream(s: Seq<char>) -> Seq<char> {
    unicode_lowercase(upstream_host_chars(s))
}

/// The characters `char::is_whitespace` accepts, listed one by one.
pub open spec fn listed_white_space(c: char) -> bool {
    c == '\t' || c == '\n' || c == '\u{b}' || c == '\u{c}' || c == '\r' || c == ' ' || c
        == '\u{85}' || c == '\u{a0}' || c == '\u{1680}' || c == '\u{2000}' || c == '\u{2001}'
        || c == '\u{2002}' || c == '\u{2003}' || c == '\u{2004}' || c == '\u{2005}' || c
        == '\u{2006}' || c == '\u{2007}' || c == '\u{2008}' || c == '\u{2009}' || c == '\u{200a}'
        || c == '\u{2028}' || c == '\u{2029}' || c == '\u{202f}' || c == '\u{205f}' || c
        == '\u{3000}'
}

proof fn lemma_trim_start_prefix(w: Seq<char>, x: Seq<char>)
    requires
        forall|i: int| 0 <= i < w.len() ==> is_white_space(#[trigger] w[i]),
    ensures
        trim_white_start(w + x) == trim_white_start(x),
    decreases w.len(),
{
    if w.len() > 0 {
        assert((w + x)[0] == w[0]);
        assert((w + x).drop_first() =~= w.drop_first() + x);
        lemma_trim_start_prefix(w.drop_first(), x);
    } else {
        assert(w + x =~= x);
    }
}

proof fn lemma_trim_end_suffix(x: Seq<char>, w: Seq<char>)
    requires
        forall|i: int| 0 <= i < w.len() ==> is_white_space(#[trigger] w[i]),
    ensures
        trim_white_end(x + w) == trim_white_end(x),
    decreases w.len(),
{
    if w.len() > 0 {
        assert((x + w).last() == w.last());
        assert((x + w).drop_last() =~= x + w.drop_last());
        lemma_trim_end_suffix(x, w.drop_last());
    } else {
        assert(x + w =~= x);
    }
}

/// Trimming the front of `x + w` keeps `w` unless `x` is all white space.
proof fn lemma_trim_start_append(x: Seq<char>, w: Seq<char>)
    requires
        forall|i: int| 0 <= i < w.len() ==> is_white_space(#[trigger] w[i]),
    ensures
        trim_white_end(trim_white_start(x + w)) == trim_white_end(trim_white_start(x)),
    decreases x.len(),
{
    if x.len() == 0 {
        assert(x + w =~= w);
        lemma_trim_start_prefix(w, seq![]);
        assert(w + Seq::<char>::empty() =~= w);
    } else if is_white_space(x[0]) {
        assert((x + w)[0] == x[0]);
        assert((x + w).drop_first() =~= x.drop_first() + w);
        lemma_trim_start_append(x.drop_first(), w);
    } else {
        assert((x + w)[0] == x[0]);
        lemma_trim_end_suffix(x, w);
    }
}

/// White space around the name does not matter: surrounding a name with
/// any characters that `char::is_whitespace` accepts (tab, line feed,
/// vertical tab, form feed, carriage return, space and the other Unicode
/// white space) normalises to the same server name.
pub proof fn law_surrounding_white_space_is_ignored(front: Seq<char>, s: Seq<char>, back: Seq<char>)
    requires
        forall|i: int| 0 <= i < front.len() ==> listed_white_space(#[trigger] front[i]),
        forall|i: int| 0 <= i < back.len() ==> listed_white_space(#[trigger] back[i]),
    ensures
        normalized_upstream(front + s + back) == normalized_upstream(s),
{
    assert forall|i: int| 0 <= i < front.len() implies is_white_space(#[trigger] front[i]) by {
        assert(listed_white_space(front[i]));
    }
    assert forall|i: int| 0 <= i < back.len() implies is_white_space(#[trigger] back[i]) by {
        assert(listed_white_space(back[i]));
    }
    assert(front + s + back =~= front + (s + back));
    lemma_trim_start_prefix(front, s + back);
    lemma_trim_start_append(s, back);
}

/// The first index at or after `a` from which `s[..b]` holds no leading white space.
fn skip_white_start(s: &str, a: usize, b: usize) -> (r: usize)
    requires
        a <= b <= s@.len(),
    ensures
        a <= r <= b,
        s@.subrange(r as int, b as int) == trim_white_start(s@.subrange(a as int, b as int)),
{
    let mut i = a;
    while i < b && white_space(s.get_char(i))
        invariant
            a <= i <= b <= s@.len(),
            trim_white_start(s@.subrange(a as int, b as int)) == trim_white_start(
                s@.subrange(i as int, b as int),
            ),
        decreases b - i,
    {
        assert(s@.subrange(i as int, b as int).drop_first() =~= s@.subrange(i + 1, b as int));
        i = i + 1;
    }
    if i < b {
        assert(s@.subrange(i as int, b as int)[0] == s@[i as int]);
    }
    i
}

/// The last index at or before `b` such that `s[a..]` up to it holds no
/// trailing white space.
fn skip_white_end(s: &str, a: usize, b: usize) -> (r: usize)
    requires
        a <= b <= s@.len(),
    ensures
        a <= r <= b,
        s@.subrange(a as int, r as int) == trim_white_end(s@.subrange(a as int, b as int)),
{
    let mut j = b;
    while j > a && white_space(s.get_char(j - 1))
        invariant
            a <= j <= b <= s@.len(),
            trim_white_end(s@.subrange(a as int, b as int)) == trim_white_end(
                s@.subrange(a as int, j as int),
            ),
        decreases j - a,
    {
        assert(s@.subrange(a as int, j as int).drop_last() =~= s@.subrange(a as int, j - 1));
        j = j - 1;
    }
    if j > a {
        assert(s@.subrange(a as int, j as int).last() == s@[j - 1]);
    }
    j
}

/// Skips repeated copies of `pat` at the front of `s[a..b]`.
fn skip_repeated_prefix(s: &str, a: usize, b: usize, pat: &str) -> (r: usize)
    requires
        a <= b <= s@.len(),
    ensures
        a <= r <= b,
        s@.subrange(r as int, b as int) == strip_repeated_prefix(
            s@.subrange(a as int, b as int),
            pat@,
        ),
{
    let m = pat.unicode_len();
    if m == 0 {
        return a;
    }
    let mut i = a;
    while chars_match_at(s, i, b, pat)
        invariant
            m == pat@.len(),
            m > 0,
            a <= i <= b <= s@.len(),
            strip_repeated_prefix(s@.subrange(a as int, b as int), pat@) == strip_repeated_prefix(
                s@.subrange(i as int, b as int),
                pat@,
            ),
        decreases b - i,
    {
        let ghost t = s@.subrange(i as int, b as int);
        assert(t.take(m as int) =~= s@.subrange(i as int, i + m));
        assert(t.skip(m as int) =~= s@.subrange(i + m, b as int));
        i = i + m;
    }
    let ghost t = s@.subrange(i as int, b as int);
    if m <= b - i {
        assert(t.take(m as int) =~= s@.subrange(i as int, i + m));
    }
    i
}

/// Skips the copies of `c` at the front of `s[a..b]`.
fn skip_char_start(s: &str, a: usize, b: usize, c: char) -> (r: usize)
    requires
        a <= b <= s@.len(),
    ensures
        a <= r <= b,
        s@.subrange(r as int, b as int) == trim_char_start(s@.subrange(a as int, b as int), c),
{
    let mut i = a;
    while i < b && s.get_char(i) == c
        invariant
            a <= i <= b <= s@.len(),
            trim_char_start(s@.subrange(a as int, b as int), c) == trim_char_start(
                s@.subrange(i as int, b as int),
                c,
            ),
        decreases b - i,
    {
        assert(s@.subrange(i as int, b as int).drop_first() =~= s@.subrange(i + 1, b as int));
        i = i + 1;
    }
    if i < b {
        assert(s@.subrange(i as int, b as int)[0] == s@[i as int]);
    }
    i
}

/// Skips the copies of `c` at the end of `s[a..b]`.
pub(crate) fn skip_char_end(s: &str, a: usize, b: usize, c: char) -> (r: usize)
    requires
        a <= b <= s@.len(),
    ensures
        a <= r <= b,
        s@.subrange(a as int, r as int) == trim_char_end(s@.subrange(a as int, b as int), c),
{
    let mut j = b;
    while j > a && s.get_char(j - 1) == c
        invariant
            a <= j <= b <= s@.len(),
            trim_char_end(s@.subrange(a as int, b as int), c) == trim_char_end(
                s@.subrange(a as int, j as int),
                c,
            ),
        decreases j - a,
    {
        assert(s@.subrange(a as int, j as int).drop_last() =~= s@.subrange(a as int, j - 1));
        j = j - 1;
    }
    if j > a {
        assert(s@.subrange(a as int, j as int).last() == s@[j - 1]);
    }
    j
}

/// Normalises an upstream server name as the user wrote it: surrounding white
/// space, `https://` and `http://` prefixes and surrounding slashes go, and
/// the rest is lower-cased.
pub fn normalize_upstream_server(upstream_server: &str) -> (r: String)
    ensures
        r@ == normalized_upstream(upstream_server@),
{
    let s = upstream_server;
    let n = s.unicode_len();
    assert(s@.subrange(0, n as int) =~= s@);
    let a = skip_white_start(s, 0, n);
    let b = skip_white_end(s, a, n);
    let a = skip_repeated_prefix(s, a, b, "https://");
    let a = skip_repeated_prefix(s, a, b, "http://");
    let a = skip_char_start(s, a, b, '/');
    let b = skip_char_end(s, a, b, '/');
    let host = s.substring_char(a, b);
    str_to_lowercase(host)
}

/// The local host names the client uses, each paired with the upstream host
/// it stands for.
pub open spec fn mapping_table(server: Seq<char>) -> Seq<(Seq<char>, Seq<char>)> {
    seq![
        ("osu.localhost"@, "osu."@ + server),
        ("c.localhost"@, "c."@ + server),
        ("a.localhost"@, "a."@ + server),
        ("b.localhost"@, "b."@ + server),
        ("i.localhost"@, "i."@ + server),
    ]
}

/// The views of a list of string pairs.
pub open spec fn pair_views(v: Seq<(String, String)>) -> Seq<(Seq<char>, Seq<char>)> {
    v.map_values(|p: (String, String)| (p.0@, p.1@))
}

fn local_pair(local: &str, prefix: &str, server: &str) -> (r: (String, String))
    ensures
        r.0@ == local@,
        r.1@ == prefix@ + server@,
{
    (String::from_str(local), String::from_str(prefix).concat(server))
}

/// The pairs `(local host, upstream host)` for the osu!, Bancho, avatar, beatmap
/// and image hosts of `upstream_server`.
pub fn upstream_mappings(upstream_server: &str) -> (r: Vec<(String, String)>)
    ensures
        pair_views(r@) == mapping_table(upstream_server@),
{
    let mut v: Vec<(String, String)> = Vec::new();
    v.push(local_pair("osu.localhost", "osu.", upstream_server));
    v.push(local_pair("c.localhost", "c.", upstream_server));
    v.push(local_pair("a.localhost", "a.", upstream_server));
    v.push(local_pair("b.localhost", "b.", upstream_server));
    v.push(local_pair("i.localhost", "i.", upstream_server));
    assert(pair_views(v@) =~= mapping_table(upstream_server@));
    v
}

} // verus!
