//! Replacing one byte string by another inside a packet payload.
//!
//! Strings inside Bancho payloads are written as a `0x0b` marker, a length
//! byte and the string's bytes. When a host name inside such a string is
//! replaced by one of another length, the length byte in front of it is
//! adjusted so that the string stays well formed.

use vstd::prelude::*;
use crate::packet::extend_with_range;

verus! {

/// The marker byte that introduces a string inside a payload.
pub const STRING_MARKER: u8 = 0x0b;

/// The first position at or after `pos` where `pat` occurs in `p`.
pub open spec fn first_match(p: Seq<u8>, pat: Seq<u8>, pos: int) -> Option<int>
    decreases p.len() + 1 - pos,
{
    if pos < 0 || pos + pat.len() > p.len() {
        None
    } else if p.subrange(pos, pos + pat.len()) == pat {
        Some(pos)
    } else {
        first_match(p, pat, pos + 1)
    }
}

/// The position of the length byte that governs a string containing
/// `p[d..]`: the nearest `0x0b` marker at most 255 bytes before `d` whose
/// following length byte is large enough to reach `d`, searching backwards
/// from `d - i`.
pub open spec fn length_byte_index(p: Seq<u8>, d: int, i: int) -> Option<int>
    decreases 256 - i,
{
    if i >= 256 || d < i {
        None
    } else if p[d - i] == STRING_MARKER && d - i + 1 < p.len() && p[d - i + 1] >= i - 1 {
        Some(d - i + 1)
    } else {
        length_byte_index(p, d, i + 1)
    }
}

/// A string length byte after `old_len` bytes of the string were replaced by
/// `new_len` bytes, kept to one byte.
pub open spec fn adjusted_length(b: u8, old_len: nat, new_len: nat) -> u8 {
    ((b as int - old_len as int + new_len as int) % 256) as u8
}

/// `p` with the length byte of the string around position `d` adjusted, if
/// there is such a string.
pub open spec fn patch_length(p: Seq<u8>, d: int, old_len: nat, new_len: nat) -> Seq<u8> {
    match length_byte_index(p, d, 1) {
        Some(k) => p.update(k, adjusted_length(p[k], old_len, new_len)),
        None => p,
    }
}

/// One replacement: the length byte in front of position `j` is adjusted, then
/// the occurrence of `from` at `j` is replaced by `to`.
pub open spec fn replace_at(p: Seq<u8>, j: int, from: Seq<u8>, to: Seq<u8>) -> Seq<u8> {
    let q = patch_length(p, j, from.len(), to.len());
    q.take(j) + to + q.skip(j + from.len())
}

/// Where `first_match` finds something, it lies in range and is an occurrence.
pub proof fn lemma_first_match_bounds(p: Seq<u8>, pat: Seq<u8>, pos: int)
    ensures
        first_match(p, pat, pos) matches Some(j) ==> pos <= j && j + pat.len() <= p.len()
            && p.subrange(j, j + pat.len()) == pat,
    decreases p.len() + 1 - pos,
{
    if !(pos < 0 || pos + pat.len() > p.len()) && p.subrange(pos, pos + pat.len()) != pat {
        lemma_first_match_bounds(p, pat, pos + 1);
    }
}

/// A replacement changes the length by the difference of the two strings.
pub proof fn lemma_replace_at_len(p: Seq<u8>, j: int, from: Seq<u8>, to: Seq<u8>)
    requires
        0 <= j,
        j + from.len() <= p.len(),
    ensures
        replace_at(p, j, from, to).len() == p.len() - from.len() + to.len(),
{
    lemma_length_byte_index_bounds(p, j, 1);
}

/// A length byte found by `length_byte_index` lies inside the payload.
pub proof fn lemma_length_byte_index_bounds(p: Seq<u8>, d: int, i: int)
    requires
        d <= p.len(),
        i >= 1,
    ensures
        length_byte_index(p, d, i) matches Some(k) ==> 0 <= k < p.len(),
    decreases 256 - i,
{
    if i < 256 && d >= i && !(p[d - i] == STRING_MARKER && d - i + 1 < p.len() && p[d - i + 1]
        >= i - 1) {
        lemma_length_byte_index_bounds(p, d, i + 1);
    }
}

/// Every occurrence of `from` at or after `pos`, left to right, replaced by
/// `to`; the search resumes after each inserted `to`.
pub open spec fn replace_from(p: Seq<u8>, from: Seq<u8>, to: Seq<u8>, pos: int) -> Seq<u8>
    decreases p.len() + 1 - pos,
{
    if from.len() == 0 {
        p
    } else {
        match first_match(p, from, pos) {
            None => p,
            Some(j) => {
                proof {
                    lemma_first_match_bounds(p, from, pos);
                    lemma_replace_at_len(p, j, from, to);
                }
                replace_from(replace_at(p, j, from, to), from, to, j + to.len())
            },
        }
    }
}

/// Each mapping `(from, to)` applied in turn to the payload.
pub open spec fn rewrite_payload(p: Seq<u8>, maps: Seq<(Seq<u8>, Seq<u8>)>) -> Seq<u8>
    decreases maps.len(),
{
    if maps.len() == 0 {
        p
    } else {
        replace_from(rewrite_payload(p, maps.drop_last()), maps.last().0, maps.last().1, 0)
    }
}

/// Rewriting with a table is rewriting with its first `k` mappings and then
/// with the rest: every mapping is applied to what the earlier ones left,
/// whether or not they found anything.
pub proof fn law_rewrite_payload_splits(p: Seq<u8>, maps: Seq<(Seq<u8>, Seq<u8>)>, k: int)
    requires
        0 <= k <= maps.len(),
    ensures
        rewrite_payload(p, maps) == rewrite_payload(rewrite_payload(p, maps.take(k)), maps.skip(k)),
    decreases maps.len(),
{
    if k == maps.len() {
        assert(maps.take(k) =~= maps);
        assert(maps.skip(k).len() == 0);
    } else {
        let dl = maps.drop_last();
        law_rewrite_payload_splits(p, dl, k);
        assert(dl.take(k) =~= maps.take(k));
        assert(maps.skip(k).drop_last() =~= dl.skip(k));
        assert(maps.skip(k).last() == maps.last());
    }
}

/// A table of one mapping replaces every occurrence of its name.
pub proof fn law_rewrite_payload_single(p: Seq<u8>, m: (Seq<u8>, Seq<u8>))
    ensures
        rewrite_payload(p, seq![m]) == replace_from(p, m.0, m.1, 0),
{
    let t = seq![m];
    assert(t.drop_last() =~= Seq::<(Seq<u8>, Seq<u8>)>::empty());
    assert(rewrite_payload(p, t.drop_last()) == p);
    assert(t.last() == m);
}

/// Whether some mapping found an occurrence while `rewrite_payload` ran.
pub open spec fn payload_touched(p: Seq<u8>, maps: Seq<(Seq<u8>, Seq<u8>)>) -> bool
    decreases maps.len(),
{
    if maps.len() == 0 {
        false
    } else {
        payload_touched(p, maps.drop_last()) || first_match(
            rewrite_payload(p, maps.drop_last()),
            maps.last().0,
            0,
        ) is Some
    }
}

/// Whether `pat` occurs in `p` starting at `j`.
pub(crate) fn matches_at(p: &[u8], pat: &[u8], j: usize) -> (r: bool)
    requires
        j + pat@.len() <= p@.len(),
    ensures
        r == (p@.subrange(j as int, j + pat@.len()) == pat@),
{
    let m = pat.len();
    let n = p.len();
    let mut k: usize = 0;
    while k < m
        invariant
            m == pat@.len(),
            n == p@.len(),
            j + m <= p@.len(),
            k <= m,
            forall|t: int| 0 <= t < k ==> p@[j + t] == pat@[t],
        decreases m - k,
    {
        if p[j + k] != pat[k] {
            assert(p@.subrange(j as int, j + m)[k as int] != pat@[k as int]);
            return false;
        }
        k = k + 1;
    }
    assert(p@.subrange(j as int, j + m) =~= pat@);
    true
}

/// The first occurrence of `pat` in `p` at or after `pos`.
pub(crate) fn find_from(p: &[u8], pat: &[u8], pos: usize) -> (r: Option<usize>)
    requires
        pos <= p@.len(),
    ensures
        match r {
            Some(j) => first_match(p@, pat@, pos as int) == Some(j as int),
            None => first_match(p@, pat@, pos as int) is None,
        },
{
    let n = p.len();
    let m = pat.len();
    let mut j = pos;
    while j <= n && m <= n - j
        invariant
            n == p@.len(),
            m == pat@.len(),
            pos <= j,
            first_match(p@, pat@, pos as int) == first_match(p@, pat@, j as int),
        decreases n + 1 - j,
    {
        if matches_at(p, pat, j) {
            return Some(j);
        }
        if j >= n {
            assert(first_match(p@, pat@, j + 1) is None);
            return None;
        }
        j = j + 1;
    }
    None
}

pub(crate) proof fn lemma_adjusted_length(b: u8, old_len: nat, new_len: nat)
    ensures
        adjusted_length(b, old_len, new_len) == ((b as int + 256 - (old_len % 256) as int + (
        new_len % 256) as int) % 256) as u8,
{
    vstd::arithmetic::div_mod::lemma_fundamental_div_mod(old_len as int, 256);
    vstd::arithmetic::div_mod::lemma_fundamental_div_mod(new_len as int, 256);
    let qo = old_len as int / 256;
    let qn = new_len as int / 256;
    let base = b as int + 256 - (old_len % 256) as int + (new_len % 256) as int;
    assert(b as int - old_len as int + new_len as int == 256 * (qn - qo - 1) + base);
    vstd::arithmetic::div_mod::lemma_mod_multiples_vanish(qn - qo - 1, base, 256);
}

/// Replaces `p[j..j + m]` by `to`.
pub(crate) fn splice_at(p: &Vec<u8>, j: usize, m: usize, to: &[u8]) -> (r: Vec<u8>)
    requires
        j + m <= p.len(),
    ensures
        r@ == p@.take(j as int) + to@ + p@.skip(j + m),
{
    let mut out: Vec<u8> = Vec::new();
    extend_with_range(&mut out, p.as_slice(), 0, j);
    extend_with_range(&mut out, to, 0, to.len());
    extend_with_range(&mut out, p.as_slice(), j + m, p.len());
    assert(out@ =~= p@.take(j as int) + to@ + p@.skip(j + m));
    out
}

} // verus!
