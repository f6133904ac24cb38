//! Checking that a request's `Host` header names this machine.

use vstd::prelude::*;
use crate::text::{ascii_lower, ascii_lower_all, to_ascii_lower};

verus! {

/// The first position at or after `i` where `c` occurs in `s`.
pub open spec fn index_of(s: Seq<char>, c: char, i: int) -> Option<int>
    decreases s.len() - i,
{
    if i < 0 || i >= s.len() {
        None
    } else if s[i] == c {
        Some(i)
    } else {
        index_of(s, c, i + 1)
    }
}

/// The host part of a `Host` header: for a bracketed IPv6 literal everything
/// up to and including the first `]` (the whole header if there is none),
/// otherwise everything before the first `:`.
pub open spec fn host_without_port(h: Seq<char>) -> Seq<char> {
    if h.len() > 0 && h[0] == '[' {
        match index_of(h, ']', 0) {
            Some(i) => h.take(i + 1),
            None => h,
        }
    } else {
        match index_of(h, ':', 0) {
            Some(i) => h.take(i),
            None => h,
        }
    }
}

/// Whether `s` ends with `suffix`.
pub open spec fn ends_with(s: Seq<char>, suffix: Seq<char>) -> bool {
    suffix.len() <= s.len() && s.skip(s.len() - suffix.len()) == suffix
}

/// Whether a `Host` header names this machine: its host part, case folded,
/// is `localhost`, `127.0.0.1`, `[::1]` or ends with `.localhost`.
///
/// Case is folded over ASCII letters. Full Unicode lower-casing agrees here:
/// the only characters outside ASCII whose lower-case form holds an ASCII
/// letter are U+212A KELVIN SIGN (to `k`) and U+0130 (to `i` and a combining
/// dot), and neither `k` nor `i` occurs in the accepted names.
pub open spec fn is_local_host_name(h: Seq<char>) -> bool {
    let l = ascii_lower_all(host_without_port(h));
    l == "localhost"@ || l == "127.0.0.1"@ || l == "[::1]"@ || ends_with(l, ".localhost"@)
}

proof fn lemma_index_of_bounds(s: Seq<char>, c: char, i: int)
    ensures
        index_of(s, c, i) matches Some(k) ==> i <= k < s.len() && s[k] == c,
    decreases s.len() - i,
{
    if 0 <= i < s.len() && s[i] != c {
        lemma_index_of_bounds(s, c, i + 1);
    }
}

/// Appending `:` and any text to a name that is not bracketed and holds no
/// `:` leaves the verdict as it was.
pub proof fn law_colon_suffix_is_ignored(name: Seq<char>, suffix: Seq<char>)
    requires
        index_of(name, ':', 0) is None,
        !(name.len() > 0 && name[0] == '['),
    ensures
        is_local_host_name(name + seq![':'] + suffix) == is_local_host_name(name),
{
    let h = name + seq![':'] + suffix;
    lemma_index_of_prefix(name, seq![':'] + suffix, ':', 0);
    assert(h =~= name + (seq![':'] + suffix));
    assert(index_of(h, ':', name.len() as int) == Some(name.len() as int));
    assert(h.take(name.len() as int) =~= name);
    if name.len() > 0 {
        assert(h[0] == name[0]);
    }
}

/// Appending `:` and any text to a bracketed literal leaves the verdict as it
/// was.
pub proof fn law_bracketed_colon_suffix_is_ignored(literal: Seq<char>, suffix: Seq<char>)
    requires
        literal.len() > 0,
        literal[0] == '[',
        index_of(literal, ']', 0) == Some(literal.len() - 1),
    ensures
        is_local_host_name(literal + seq![':'] + suffix) == is_local_host_name(literal),
{
    let h = literal + seq![':'] + suffix;
    lemma_index_of_prefix(literal, seq![':'] + suffix, ']', 0);
    lemma_index_of_bounds(literal, ']', 0);
    assert(h =~= literal + (seq![':'] + suffix));
    assert(h[0] == literal[0]);
    assert(h.take(literal.len() as int) =~= literal);
    assert(literal.take(literal.len() as int) =~= literal);
}

/// Searching a longer string finds the same first position as long as it
/// lies in the common prefix; finding nothing in the prefix moves the search
/// to the added part.
proof fn lemma_index_of_prefix(a: Seq<char>, b: Seq<char>, c: char, i: int)
    requires
        0 <= i <= a.len(),
    ensures
        index_of(a, c, i) matches Some(k) ==> index_of(a + b, c, i) == Some(k),
        index_of(a, c, i) is None ==> index_of(a + b, c, i) == index_of(a + b, c, a.len() as int),
    decreases a.len() - i,
{
    if i < a.len() {
        assert((a + b)[i] == a[i]);
        if a[i] != c {
            lemma_index_of_prefix(a, b, c, i + 1);
        }
    }
}

/// Folding case first changes nothing: a header is accepted exactly when its
/// ASCII lower-case form is.
pub proof fn law_case_is_ignored(h: Seq<char>)
    ensures
        is_local_host_name(ascii_lower_all(h)) == is_local_host_name(h),
{
    let l = ascii_lower_all(h);
    lemma_index_of_folded(h, ':', 0);
    lemma_index_of_folded(h, ']', 0);
    lemma_index_of_bounds(h, ':', 0);
    lemma_index_of_bounds(h, ']', 0);
    let hp = host_without_port(h);
    let lp = host_without_port(l);
    if h.len() > 0 {
        assert(l[0] == ascii_lower(h[0]));
    }
    assert(lp =~= ascii_lower_all(hp));
    assert(ascii_lower_all(lp) =~= ascii_lower_all(hp));
}

/// Case folding moves no `:` or `]`.
proof fn lemma_index_of_folded(h: Seq<char>, c: char, i: int)
    requires
        c == ':' || c == ']',
    ensures
        index_of(ascii_lower_all(h), c, i) == index_of(h, c, i),
    decreases h.len() - i,
{
    if 0 <= i < h.len() {
        assert(ascii_lower_all(h)[i] == ascii_lower(h[i]));
        lemma_index_of_folded(h, c, i + 1);
    }
}

/// The first position of `c` in `s`.
fn find_char(s: &str, c: char) -> (r: Option<usize>)
    ensures
        match r {
            Some(k) => index_of(s@, c, 0) == Some(k as int),
            None => index_of(s@, c, 0) is None,
        },
{
    let n = s.unicode_len();
    let mut i: usize = 0;
    while i < n
        invariant
            n == s@.len(),
            i <= n,
            index_of(s@, c, 0) == index_of(s@, c, i as int),
        decreases n - i,
    {
        if s.get_char(i) == c {
            return Some(i);
        }
        i = i + 1;
    }
    None
}

/// Whether `s[from..to]`, case folded, is `pat`.
pub(crate) fn folded_equals(s: &str, from: usize, to: usize, pat: &str) -> (r: bool)
    requires
        from <= to <= s@.len(),
    ensures
        r == (ascii_lower_all(s@.subrange(from as int, to as int)) == pat@),
{
    let m = pat.unicode_len();
    if m != to - from {
        assert(ascii_lower_all(s@.subrange(from as int, to as int)).len() != pat@.len());
        return false;
    }
    let ghost part = ascii_lower_all(s@.subrange(from as int, to as int));
    let mut k: usize = 0;
    while k < m
        invariant
            m == pat@.len(),
            from + m == to <= s@.len(),
            part == ascii_lower_all(s@.subrange(from as int, to as int)),
            k <= m,
            forall|t: int| 0 <= t < k ==> part[t] == pat@[t],
        decreases m - k,
    {
        if to_ascii_lower(s.get_char(from + k)) != pat.get_char(k) {
            assert(part[k as int] == ascii_lower(s@[from + k]));
            return false;
        }
        assert(part[k as int] == ascii_lower(s@[from + k]));
        k = k + 1;
    }
    assert(part =~= pat@);
    true
}

/// Checks that a `Host` header value names this machine: `localhost`,
/// `127.0.0.1`, `[::1]` or a subdomain of `localhost`, in any case, whatever
/// follows a `:` after the host name.
pub fn is_valid_localhost_host(host: &str) -> (r: bool)
    ensures
        r == is_local_host_name(host@),
{
    let n = host.unicode_len();
    let end = if n > 0 && host.get_char(0) == '[' {
        match find_char(host, ']') {
            Some(i) => {
                proof {
                    lemma_index_of_bounds(host@, ']', 0);
                }
                i + 1
            },
            None => n,
        }
    } else {
        match find_char(host, ':') {
            Some(i) => {
                proof {
                    lemma_index_of_bounds(host@, ':', 0);
                }
                i
            },
            None => n,
        }
    };
    let ghost part = host@.take(end as int);
    assert(host_without_port(host@) =~= part);
    assert(host@.subrange(0, end as int) =~= part);
    let ghost l = ascii_lower_all(part);
    let suffix = ".localhost";
    let m = suffix.unicode_len();
    let is_subdomain = if m <= end {
        let r = folded_equals(host, end - m, end, suffix);
        assert(l.skip(l.len() - m) =~= ascii_lower_all(host@.subrange(end - m, end as int)));
        r
    } else {
        false
    };
    folded_equals(host, 0, end, "localhost") || folded_equals(host, 0, end, "127.0.0.1")
        || folded_equals(host, 0, end, "[::1]") || is_subdomain
}

} // verus!
