use vstd::prelude::*;
use crate::lexical::{
    ending, follows, is_delimiter, is_whitespace, lemma_lex_consumes, lemma_plain_end,
    lemma_scan_string_consumes, lemma_term_end, lemma_token_at_consumes, lemma_tokens_step,
    lemma_trim, lex, plain_end, scan_escape, scan_string, term_end, token_at, tokens, trim, QUOTE,
};
use crate::model::{Fault, Tok};
use crate::round_trip::ends_terms;
use crate::syntax::decode;

verus! {

/// Every byte of `w` is whitespace.
pub open spec fn all_whitespace(w: Seq<u8>) -> bool {
    forall|i: int| 0 <= i < w.len() ==> is_whitespace(#[trigger] w[i])
}

/// `s` with `w` put in at position `k`.
pub open spec fn insert_at(s: Seq<u8>, k: int, w: Seq<u8>) -> Seq<u8> {
    s.subrange(0, k) + w + s.skip(k)
}

/// The number of bytes of whitespace that `s` starts with.
pub open spec fn blank_len(s: Seq<u8>) -> int {
    s.len() - trim(s).len()
}

/// The position `k` of `s` lies between two tokens: in the whitespace in front of the
/// first token, behind the last byte of a token, or in the whitespace behind a token.
/// A position behind a lexeme that is no token is not counted.
pub open spec fn between_tokens(s: Seq<u8>, k: int) -> bool
    decreases s.len(),
{
    &&& 0 <= k <= s.len()
    &&& (k <= blank_len(s) || match lex(s) {
        Err(_) => false,
        Ok((_, rest)) => {
            proof {
                lemma_lex_consumes(s);
            }
            k >= s.len() - rest.len() && between_tokens(rest, k - (s.len() - rest.len()))
        },
    })
}

/// `x` and `y` hold the same first `n` bytes.
pub open spec fn agree(x: Seq<u8>, y: Seq<u8>, n: int) -> bool {
    &&& 0 <= n <= x.len()
    &&& n <= y.len()
    &&& forall|i: int| 0 <= i < n ==> x[i] == y[i]
}

/// Where the whitespace in front ends, `trim` cuts.
pub proof fn lemma_trim_is(s: Seq<u8>, b: int)
    requires
        0 <= b <= s.len(),
        forall|j: int| 0 <= j < b ==> is_whitespace(s[j]),
        b < s.len() ==> !is_whitespace(s[b]),
    ensures
        trim(s) == s.skip(b),
    decreases b,
{
    if b == 0 {
        assert(s.skip(0) =~= s);
    } else {
        let t = s.skip(1);
        assert forall|j: int| 0 <= j < b - 1 implies is_whitespace(t[j]) by {
            assert(t[j] == s[j + 1]);
        }
        lemma_trim_is(t, b - 1);
        assert(t.skip(b - 1) =~= s.skip(b));
    }
}

/// An escape is read from its own bytes alone.
proof fn lemma_scan_escape_local(x: Seq<u8>, y: Seq<u8>)
    requires
        scan_escape(x) is Ok,
        agree(x, y, scan_escape(x)->Ok_0.1),
    ensures
        scan_escape(y) == scan_escape(x),
{
    if x[0] == 0x75 {
        assert(x.subrange(1, 5) =~= y.subrange(1, 5));
    }
}

/// A run of bytes without quote and backslash ends where it ended, if its bytes and
/// the byte behind it stay.
proof fn lemma_plain_end_local(x: Seq<u8>, y: Seq<u8>)
    requires
        plain_end(x, 0) < x.len(),
        agree(x, y, plain_end(x, 0) + 1),
    ensures
        plain_end(y, 0) == plain_end(x, 0),
        y.subrange(0, plain_end(x, 0)) == x.subrange(0, plain_end(x, 0)),
        y[plain_end(x, 0)] == x[plain_end(x, 0)],
{
    lemma_plain_end(x, 0);
    lemma_plain_end(y, 0);
    let n = plain_end(x, 0);
    let m = plain_end(y, 0);
    if m < n {
        assert(y[m] == x[m]);
    }
    if m > n {
        assert(y[n] == x[n]);
    }
    assert(y.subrange(0, n) =~= x.subrange(0, n));
}

/// How many bytes a string takes: the bytes in front of its first quote or
/// backslash, that byte, and behind a backslash the escape and the rest of the string.
proof fn lemma_scan_string_parts(x: Seq<u8>)
    requires
        scan_string(x) is Ok,
    ensures
        ({
            let n = plain_end(x, 0);
            let rest = scan_string(x)->Ok_0.1;
            &&& 0 <= n < x.len()
            &&& follows(rest, x)
            &&& x[n] == QUOTE ==> rest == x.skip(n + 1)
            &&& x[n] != QUOTE ==> {
                let k = scan_escape(x.skip(n + 1))->Ok_0.1;
                let x1 = x.skip(n + 1 + k);
                &&& scan_escape(x.skip(n + 1)) is Ok
                &&& 1 <= k <= x.len() - n - 1
                &&& scan_string(x1) is Ok
                &&& follows(scan_string(x1)->Ok_0.1, x1)
                &&& rest == scan_string(x1)->Ok_0.1
            }
        }),
{
    lemma_scan_string_consumes(x);
    lemma_plain_end(x, 0);
    let n = plain_end(x, 0);
    if x[n] != QUOTE {
        let k = scan_escape(x.skip(n + 1))->Ok_0.1;
        lemma_scan_string_consumes(x.skip(n + 1 + k));
    }
}

/// A string is read from its own bytes alone.
proof fn lemma_scan_string_local(x: Seq<u8>, y: Seq<u8>)
    requires
        scan_string(x) is Ok,
        agree(x, y, x.len() - scan_string(x)->Ok_0.1.len()),
    ensures
        scan_string(y) == Ok::<(Seq<char>, Seq<u8>), Fault>(
            (scan_string(x)->Ok_0.0, y.skip(x.len() - scan_string(x)->Ok_0.1.len())),
        ),
    decreases x.len(),
{
    lemma_scan_string_parts(x);
    let rest = scan_string(x)->Ok_0.1;
    let m = x.len() - rest.len();
    let n = plain_end(x, 0);
    assert(agree(x, y, n + 1));
    lemma_plain_end_local(x, y);
    if x[n] != QUOTE {
        let k = scan_escape(x.skip(n + 1))->Ok_0.1;
        let x1 = x.skip(n + 1 + k);
        let y1 = y.skip(n + 1 + k);
        assert(agree(x.skip(n + 1), y.skip(n + 1), k));
        lemma_scan_escape_local(x.skip(n + 1), y.skip(n + 1));
        assert(agree(x1, y1, m - n - 1 - k));
        lemma_scan_string_local(x1, y1);
        assert(y1.skip(m - n - 1 - k) =~= y.skip(m));
    }
}

/// A bare lexeme ends where it ended, if its bytes stay and what follows ends it.
proof fn lemma_term_end_local(x: Seq<u8>, y: Seq<u8>)
    requires
        x.len() > 0,
        agree(x, y, term_end(x, 1)),
        ends_terms(y.skip(term_end(x, 1))),
    ensures
        term_end(y, 1) == term_end(x, 1),
{
    lemma_term_end(x, 1);
    lemma_term_end(y, 1);
    let n = term_end(x, 1);
    let m = term_end(y, 1);
    if m < n {
        assert(y[m] == x[m]);
    }
    if m > n {
        assert(y.skip(n)[0] == y[n]);
    }
}

/// Behind a bare lexeme the input ends, or whitespace or a delimiter follows.
pub proof fn lemma_term_is_ended(u: Seq<u8>)
    requires
        u.len() > 0,
        u[0] != QUOTE,
        !is_delimiter(u[0]),
        token_at(u) is Ok,
    ensures
        ends_terms(token_at(u)->Ok_0.1),
{
    lemma_term_end(u, 1);
    let n = term_end(u, 1);
    if n < u.len() {
        assert(u.skip(n)[0] == u[n]);
    }
}

/// A token is read from its own bytes alone, as long as what follows a bare lexeme
/// still ends it.
proof fn lemma_token_at_local(u: Seq<u8>, v: Seq<u8>)
    requires
        token_at(u) is Ok,
        agree(u, v, u.len() - token_at(u)->Ok_0.1.len()),
        u[0] == QUOTE || is_delimiter(u[0]) || ends_terms(
            v.skip(u.len() - token_at(u)->Ok_0.1.len()),
        ),
    ensures
        token_at(v) == Ok::<(Tok, Seq<u8>), Fault>(
            (token_at(u)->Ok_0.0, v.skip(u.len() - token_at(u)->Ok_0.1.len())),
        ),
{
    lemma_token_at_consumes(u);
    let rest = token_at(u)->Ok_0.1;
    let m = u.len() - rest.len();
    assert(v[0] == u[0]);
    if u[0] == QUOTE {
        let u1 = u.skip(1);
        let v1 = v.skip(1);
        lemma_scan_string_consumes(u1);
        assert(agree(u1, v1, m - 1));
        lemma_scan_string_local(u1, v1);
        assert(v1.skip(m - 1) =~= v.skip(m));
    } else if is_delimiter(u[0]) {
    } else {
        lemma_term_end(u, 1);
        let n = term_end(u, 1);
        assert(rest == u.skip(n));
        assert(m == n);
        lemma_term_end_local(u, v);
        assert(u.subrange(0, n) =~= v.subrange(0, n));
    }
}

/// The next token is read from the whitespace in front of it and from its own bytes
/// alone, as long as what follows a bare lexeme still ends it.
pub proof fn lemma_lex_local(s: Seq<u8>, s2: Seq<u8>)
    requires
        lex(s) is Ok,
        agree(s, s2, s.len() - lex(s)->Ok_0.1.len()),
        trim(s)[0] == QUOTE || is_delimiter(trim(s)[0]) || ends_terms(
            s2.skip(s.len() - lex(s)->Ok_0.1.len()),
        ),
    ensures
        lex(s2) == Ok::<(Tok, Seq<u8>), Fault>(
            (lex(s)->Ok_0.0, s2.skip(s.len() - lex(s)->Ok_0.1.len())),
        ),
{
    reveal(lex);
    lemma_lex_consumes(s);
    lemma_trim(s);
    let u = trim(s);
    let b = s.len() - u.len();
    let rest = lex(s)->Ok_0.1;
    let c = s.len() - rest.len();
    lemma_token_at_consumes(u);
    assert(u[0] == s[b]);
    lemma_trim_is(s2, b);
    let v = s2.skip(b);
    assert(agree(u, v, c - b)) by {
        assert forall|i: int| 0 <= i < c - b implies u[i] == v[i] by {
            assert(u[i] == s[b + i]);
        }
    }
    assert(v.skip(c - b) =~= s2.skip(c));
    lemma_token_at_local(u, v);
}

/// Whitespace put in where whitespace stands in front of a token, or where the token
/// starts, does not change the next token nor what follows it.
proof fn lemma_lex_blank_insert(s: Seq<u8>, k: int, w: Seq<u8>)
    requires
        all_whitespace(w),
        0 <= k <= blank_len(s),
    ensures
        lex(insert_at(s, k, w)) == lex(s),
{
    reveal(lex);
    lemma_trim(s);
    let u = trim(s);
    let b = blank_len(s);
    let s2 = insert_at(s, k, w);
    let b2 = b + w.len();
    assert forall|j: int| 0 <= j < b2 implies is_whitespace(s2[j]) by {
        if j < k {
            assert(s2[j] == s[j]);
        } else if j < k + w.len() {
            assert(s2[j] == w[j - k]);
        } else {
            assert(s2[j] == s[j - w.len()]);
        }
    }
    if b2 < s2.len() {
        assert(s2[b2] == s[b]);
        assert(u[0] == s[b]);
    }
    lemma_trim_is(s2, b2);
    assert(s2.skip(b2) =~= s.skip(b));
}

/// Whitespace between tokens changes neither the tokens nor what ends them.
pub proof fn lemma_tokens_insert(s: Seq<u8>, k: int, w: Seq<u8>)
    requires
        all_whitespace(w),
        between_tokens(s, k),
    ensures
        tokens(insert_at(s, k, w)) == tokens(s),
        ending(insert_at(s, k, w)) == ending(s),
    decreases s.len(),
{
    let s2 = insert_at(s, k, w);
    lemma_tokens_step(s);
    lemma_tokens_step(s2);
    if k <= blank_len(s) {
        lemma_lex_blank_insert(s, k, w);
    } else {
        lemma_lex_consumes(s);
        lemma_trim(s);
        let t = lex(s)->Ok_0.0;
        let rest = lex(s)->Ok_0.1;
        let c = s.len() - rest.len();
        let rest2 = insert_at(rest, k - c, w);
        assert(s2.skip(c) =~= rest2);
        assert(agree(s, s2, c));
        let u = trim(s);
        if !(u[0] == QUOTE || is_delimiter(u[0])) {
            reveal(lex);
            lemma_term_is_ended(u);
            assert(ends_terms(rest));
            if k - c > 0 {
                assert(rest2[0] == rest[0]);
            } else if w.len() > 0 {
                assert(rest2[0] == w[0]);
            } else {
                assert(rest2 =~= rest);
            }
            assert(ends_terms(rest2));
        }
        lemma_lex_local(s, s2);
        lemma_tokens_insert(rest, k - c, w);
    }
}

/// Whitespace insensitivity: whitespace put in between two tokens of a document, in
/// front of the first or behind the last, does not change what the document decodes
/// to, be it a value or an error.
pub proof fn whitespace_insensitive(s: Seq<u8>, k: int, w: Seq<u8>)
    requires
        all_whitespace(w),
        between_tokens(s, k),
    ensures
        decode(insert_at(s, k, w)) == decode(s),
{
    lemma_tokens_insert(s, k, w);
}

/// `s` after the runs of `pads` were put in one after the other, each at its position
/// in what the ones before it made of `s`.
pub open spec fn padded(s: Seq<u8>, pads: Seq<(int, Seq<u8>)>) -> Seq<u8>
    decreases pads.len(),
{
    if pads.len() == 0 {
        s
    } else {
        padded(insert_at(s, pads[0].0, pads[0].1), pads.skip(1))
    }
}

/// Each run of `pads` is whitespace and goes between two tokens of what the runs
/// before it made of `s`.
pub open spec fn pads_between_tokens(s: Seq<u8>, pads: Seq<(int, Seq<u8>)>) -> bool
    decreases pads.len(),
{
    pads.len() == 0 || (all_whitespace(pads[0].1) && between_tokens(s, pads[0].0)
        && pads_between_tokens(insert_at(s, pads[0].0, pads[0].1), pads.skip(1)))
}

/// Whitespace insensitivity for any number of runs: runs of whitespace put in between
/// tokens, one after the other, do not change what the document decodes to.
pub proof fn whitespace_insensitive_many(s: Seq<u8>, pads: Seq<(int, Seq<u8>)>)
    requires
        pads_between_tokens(s, pads),
    ensures
        decode(padded(s, pads)) == decode(s),
    decreases pads.len(),
{
    if pads.len() > 0 {
        whitespace_insensitive(s, pads[0].0, pads[0].1);
        whitespace_insensitive_many(insert_at(s, pads[0].0, pads[0].1), pads.skip(1));
    }
}

} // verus!
