//! Splitting byte text into lines, delimited fields, and whitespace tokens.

use vstd::prelude::*;
use crate::fixed::{find_byte, find_byte_in, lemma_find_byte, lemma_find_byte_is};

verus! {

/// The views of a list of byte vectors.
pub open spec fn bytes_view(s: Seq<Vec<u8>>) -> Seq<Seq<u8>> {
    s.map_values(|v: Vec<u8>| v@)
}

/// `s` split on the byte `b`: the segments between occurrences of `b`, in
/// order. Empty input has no segments; a trailing delimiter yields no empty
/// final segment.
pub open spec fn split_on(s: Seq<u8>, b: u8) -> Seq<Seq<u8>>
    decreases s.len(),
    via split_on_decreases
{
    if s.len() == 0 {
        Seq::empty()
    } else {
        let e = find_byte(s, b, 0);
        if e == s.len() {
            seq![s]
        } else {
            seq![s.subrange(0, e)] + split_on(s.subrange(e + 1, s.len() as int), b)
        }
    }
}

#[via_fn]
proof fn split_on_decreases(s: Seq<u8>, b: u8) {
    if s.len() > 0 {
        lemma_find_byte(s, b, 0);
    }
}

/// The lines of a text: its segments between newline bytes.
pub open spec fn lines_of(s: Seq<u8>) -> Seq<Seq<u8>> {
    split_on(s, 10)
}

/// Finding a byte in a suffix is finding it in the whole, shifted.
pub proof fn lemma_find_byte_shift(s: Seq<u8>, b: u8, p: int)
    requires
        0 <= p <= s.len(),
    ensures
        find_byte(s.subrange(p, s.len() as int), b, 0) == find_byte(s, b, p) - p,
{
    let suf = s.subrange(p, s.len() as int);
    lemma_find_byte(s, b, p);
    let k = find_byte(s, b, p);
    assert(forall|j: int| 0 <= j < k - p ==> suf[j] != b);
    lemma_find_byte_is(suf, b, 0, k - p);
}

/// A byte-for-byte copy of `v[a..b]`.
pub fn copy_range(v: &[u8], a: usize, b: usize) -> (r: Vec<u8>)
    requires
        a <= b <= v@.len(),
    ensures
        r@ == v@.subrange(a as int, b as int),
{
    let mut out: Vec<u8> = Vec::new();
    let mut k: usize = a;
    while k < b
        invariant
            a <= k <= b <= v@.len(),
            out@ == v@.subrange(a as int, k as int),
        decreases b - k,
    {
        out.push(v[k]);
        k = k + 1;
        assert(out@ =~= v@.subrange(a as int, k as int));
    }
    out
}

/// Splits `text` on the byte `b`; see `split_on`.
pub fn split_on_byte(text: &[u8], b: u8) -> (out: Vec<Vec<u8>>)
    ensures
        bytes_view(out@) == split_on(text@, b),
{
    let mut out: Vec<Vec<u8>> = Vec::new();
    let mut pos: usize = 0;
    proof {
        assert(bytes_view(out@) =~= Seq::<Seq<u8>>::empty());
        assert(text@.subrange(0, text@.len() as int) =~= text@);
    }
    while pos < text.len()
        invariant
            pos <= text@.len(),
            bytes_view(out@) + split_on(text@.subrange(pos as int, text@.len() as int), b)
                == split_on(text@, b),
        decreases text@.len() - pos,
    {
        let ghost suf = text@.subrange(pos as int, text@.len() as int);
        let ghost pre_out = out@;
        let e = find_byte_in(text, b, pos);
        proof {
            lemma_find_byte_shift(text@, b, pos as int);
            lemma_find_byte(text@, b, pos as int);
        }
        if e == text.len() {
            out.push(copy_range(text, pos, e));
            pos = e;
            proof {
                assert(split_on(suf, b) == seq![suf]);
                assert(text@.subrange(pos as int, text@.len() as int).len() == 0);
                assert(bytes_view(out@) =~= bytes_view(pre_out).push(suf));
                assert(bytes_view(out@) + split_on(text@.subrange(pos as int,
                    text@.len() as int), b) =~= bytes_view(pre_out) + split_on(suf, b));
            }
        } else {
            out.push(copy_range(text, pos, e));
            proof {
                let erel = e - pos as int;
                assert(suf.subrange(0, erel) =~= text@.subrange(pos as int, e as int));
                assert(suf.subrange(erel + 1, suf.len() as int) =~= text@.subrange(e as int + 1,
                    text@.len() as int));
                assert(split_on(suf, b) == seq![text@.subrange(pos as int, e as int)] + split_on(
                    text@.subrange(e as int + 1, text@.len() as int), b));
                assert(bytes_view(out@) =~= bytes_view(pre_out).push(text@.subrange(pos as int,
                    e as int)));
            }
            pos = e + 1;
            proof {
                assert(bytes_view(out@) + split_on(text@.subrange(pos as int,
                    text@.len() as int), b) =~= bytes_view(pre_out) + split_on(suf, b));
            }
        }
    }
    proof {
        assert(text@.subrange(pos as int, text@.len() as int).len() == 0);
        assert(bytes_view(out@) =~= split_on(text@, b));
    }
    out
}

/// The whitespace bytes inside a line: space, tab, carriage return.
pub open spec fn is_ws(c: u8) -> bool {
    c == 32 || c == 9 || c == 13
}

/// First index at or after `i` holding a non-whitespace byte, or `s.len()`.
pub open spec fn skip_ws(s: Seq<u8>, i: int) -> int
    decreases s.len() - i,
{
    if i < 0 || i >= s.len() {
        s.len() as int
    } else if is_ws(s[i]) {
        skip_ws(s, i + 1)
    } else {
        i
    }
}

/// First index at or after `i` holding a whitespace byte, or `s.len()`.
pub open spec fn token_end(s: Seq<u8>, i: int) -> int
    decreases s.len() - i,
{
    if i < 0 || i >= s.len() {
        s.len() as int
    } else if !is_ws(s[i]) {
        token_end(s, i + 1)
    } else {
        i
    }
}

pub proof fn lemma_skip_ws(s: Seq<u8>, i: int)
    requires
        0 <= i <= s.len(),
    ensures
        i <= skip_ws(s, i) <= s.len(),
        skip_ws(s, i) < s.len() ==> !is_ws(s[skip_ws(s, i)]),
        forall|j: int| i <= j < skip_ws(s, i) ==> is_ws(s[j]),
    decreases s.len() - i,
{
    if i < s.len() && is_ws(s[i]) {
        lemma_skip_ws(s, i + 1);
    }
}

pub proof fn lemma_skip_ws_is(s: Seq<u8>, i: int, k: int)
    requires
        0 <= i <= k <= s.len(),
        forall|j: int| i <= j < k ==> is_ws(s[j]),
        k < s.len() ==> !is_ws(s[k]),
    ensures
        skip_ws(s, i) == k,
    decreases k - i,
{
    if i < k {
        lemma_skip_ws_is(s, i + 1, k);
    }
}

pub proof fn lemma_token_end(s: Seq<u8>, i: int)
    requires
        0 <= i <= s.len(),
    ensures
        i <= token_end(s, i) <= s.len(),
        token_end(s, i) < s.len() ==> is_ws(s[token_end(s, i)]),
        forall|j: int| i <= j < token_end(s, i) ==> !is_ws(s[j]),
        i < s.len() && !is_ws(s[i]) ==> token_end(s, i) > i,
    decreases s.len() - i,
{
    if i < s.len() && !is_ws(s[i]) {
        lemma_token_end(s, i + 1);
    }
}

pub proof fn lemma_token_end_is(s: Seq<u8>, i: int, k: int)
    requires
        0 <= i <= k <= s.len(),
        forall|j: int| i <= j < k ==> !is_ws(s[j]),
        k < s.len() ==> is_ws(s[k]),
    ensures
        token_end(s, i) == k,
    decreases k - i,
{
    if i < k {
        lemma_token_end_is(s, i + 1, k);
    }
}

fn skip_ws_in(v: &[u8], start: usize) -> (r: usize)
    requires
        start <= v@.len(),
    ensures
        r == skip_ws(v@, start as int),
        start <= r <= v@.len(),
{
    let mut k: usize = start;
    while k < v.len()
        invariant
            start <= k <= v@.len(),
            forall|j: int| start <= j < k ==> is_ws(v@[j]),
        decreases v@.len() - k,
    {
        let c = v[k];
        if !(c == 32 || c == 9 || c == 13) {
            proof {
                lemma_skip_ws_is(v@, start as int, k as int);
            }
            return k;
        }
        k = k + 1;
    }
    proof {
        lemma_skip_ws_is(v@, start as int, v@.len() as int);
    }
    k
}

fn token_end_in(v: &[u8], start: usize) -> (r: usize)
    requires
        start <= v@.len(),
    ensures
        r == token_end(v@, start as int),
        start <= r <= v@.len(),
{
    let mut k: usize = start;
    while k < v.len()
        invariant
            start <= k <= v@.len(),
            forall|j: int| start <= j < k ==> !is_ws(v@[j]),
        decreases v@.len() - k,
    {
        let c = v[k];
        if c == 32 || c == 9 || c == 13 {
            proof {
                lemma_token_end_is(v@, start as int, k as int);
            }
            return k;
        }
        k = k + 1;
    }
    proof {
        lemma_token_end_is(v@, start as int, v@.len() as int);
    }
    k
}

/// The whitespace-separated tokens of `s` at and after `i`.
pub open spec fn tokens_from(s: Seq<u8>, i: int) -> Seq<Seq<u8>>
    decreases s.len() - i,
    via tokens_from_decreases
{
    let st = skip_ws(s, i);
    if st >= s.len() {
        Seq::empty()
    } else {
        let e = token_end(s, st);
        seq![s.subrange(st, e)] + tokens_from(s, e)
    }
}

#[via_fn]
proof fn tokens_from_decreases(s: Seq<u8>, i: int) {
    if 0 <= i <= s.len() {
        lemma_skip_ws(s, i);
        let st = skip_ws(s, i);
        if st < s.len() {
            lemma_token_end(s, st);
        }
    }
}

/// The whitespace-separated tokens of a whole line.
pub open spec fn tokens_of(s: Seq<u8>) -> Seq<Seq<u8>> {
    tokens_from(s, 0)
}

/// Splits a line into its whitespace-separated tokens.
pub fn tokens_of_line(line: &[u8]) -> (toks: Vec<Vec<u8>>)
    ensures
        bytes_view(toks@) == tokens_of(line@),
{
    let mut toks: Vec<Vec<u8>> = Vec::new();
    let mut pos: usize = 0;
    proof {
        assert(bytes_view(toks@) =~= Seq::<Seq<u8>>::empty());
    }
    while pos < line.len()
        invariant
            pos <= line@.len(),
            bytes_view(toks@) + tokens_from(line@, pos as int) == tokens_of(line@),
        decreases line@.len() - pos,
    {
        let ghost pre_out = toks@;
        let ghost pre_pos = pos as int;
        let st = skip_ws_in(line, pos);
        proof {
            lemma_skip_ws(line@, pos as int);
        }
        if st == line.len() {
            pos = st;
            proof {
                assert(tokens_from(line@, pre_pos) =~= Seq::<Seq<u8>>::empty());
                assert(bytes_view(toks@) + tokens_from(line@, pos as int) =~= bytes_view(
                    pre_out) + tokens_from(line@, pre_pos));
            }
        } else {
            let e = token_end_in(line, st);
            proof {
                lemma_token_end(line@, st as int);
            }
            toks.push(copy_range(line, st, e));
            pos = e;
            proof {
                assert(tokens_from(line@, pre_pos) == seq![line@.subrange(st as int, e as int)]
                    + tokens_from(line@, e as int));
                assert(bytes_view(toks@) =~= bytes_view(pre_out).push(line@.subrange(st as int,
                    e as int)));
                assert(bytes_view(toks@) + tokens_from(line@, pos as int) =~= bytes_view(pre_out)
                    + tokens_from(line@, pre_pos));
            }
        }
    }
    proof {
        assert(tokens_from(line@, pos as int) =~= Seq::<Seq<u8>>::empty());
        assert(bytes_view(toks@) =~= tokens_of(line@));
    }
    toks
}

} // verus!
