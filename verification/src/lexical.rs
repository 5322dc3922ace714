use vstd::prelude::*;
use vstd::utf8::{decode_utf8, valid_utf8};
use crate::model::{Fault, Tok};
use crate::number::is_float_literal;

verus! {

/// The quote that opens and closes a string.
pub const QUOTE: u8 = 0x22;

/// The backslash that starts an escape.
pub const BACKSLASH: u8 = 0x5c;

/// The slash.
pub const SLASH: u8 = 0x2f;

/// The opening brace of an object.
pub const LBRACE: u8 = 0x7b;

/// The closing brace of an object.
pub const RBRACE: u8 = 0x7d;

/// The opening bracket of an array.
pub const LBRACKET: u8 = 0x5b;

/// The closing bracket of an array.
pub const RBRACKET: u8 = 0x5d;

/// The comma between elements and between members.
pub const COMMA: u8 = 0x2c;

/// The colon between a key and its value.
pub const COLON: u8 = 0x3a;

/// The space.
pub const SPACE: u8 = 0x20;

/// Space, line feed, carriage return or tab.
pub open spec fn is_whitespace(b: u8) -> bool {
    b == SPACE || b == 0x0a || b == 0x0d || b == 0x09
}

/// One of the six bytes that are tokens by themselves.
pub open spec fn is_delimiter(b: u8) -> bool {
    b == LBRACE || b == RBRACE || b == LBRACKET || b == RBRACKET || b == COLON || b == COMMA
}

/// The number that a hexadecimal digit stands for.
pub open spec fn hex_value(b: u8) -> Option<int> {
    if 0x30 <= b <= 0x39 {
        Some(b - 0x30)
    } else if 0x61 <= b <= 0x66 {
        Some(b - 0x61 + 10)
    } else if 0x41 <= b <= 0x46 {
        Some(b - 0x41 + 10)
    } else {
        None
    }
}

/// The number that the four bytes `h` spell in hexadecimal, where each of them is a
/// hexadecimal digit.
pub open spec fn code_point(h: Seq<u8>) -> Option<int> {
    match (hex_value(h[0]), hex_value(h[1]), hex_value(h[2]), hex_value(h[3])) {
        (Some(a), Some(b), Some(c), Some(d)) => Some(a * 4096 + b * 256 + c * 16 + d),
        _ => None,
    }
}

/// `n` is a Unicode scalar value: a code point that is no surrogate.
pub open spec fn is_scalar(n: int) -> bool {
    0 <= n < 0xd800 || 0xe000 <= n <= 0x10ffff
}

/// The character that an escape stands for and the number of bytes that the escape
/// takes, where `s` is the input after the backslash.
pub open spec fn scan_escape(s: Seq<u8>) -> Result<(char, int), Fault> {
    if s.len() == 0 {
        Err(Fault::Eof)
    } else if s[0] == QUOTE || s[0] == BACKSLASH || s[0] == SLASH {
        Ok((s[0] as char, 1))
    } else if s[0] == 0x62 {
        Ok(('\u{8}', 1))
    } else if s[0] == 0x66 {
        Ok(('\u{c}', 1))
    } else if s[0] == 0x6e {
        Ok(('\n', 1))
    } else if s[0] == 0x72 {
        Ok(('\r', 1))
    } else if s[0] == 0x74 {
        Ok(('\t', 1))
    } else if s[0] == 0x75 {
        if s.len() < 5 {
            Err(Fault::Eof)
        } else {
            let h = s.subrange(1, 5);
            match code_point(h) {
                Some(n) => if is_scalar(n) {
                    Ok((n as char, 5))
                } else {
                    Err(Fault::CodePoint)
                },
                None => if valid_utf8(h) {
                    Err(Fault::Hex)
                } else {
                    Err(Fault::Utf8(h))
                },
            }
        }
    } else {
        Err(Fault::Escape)
    }
}

/// The first position from `i` on that holds a quote or a backslash, or the length of
/// `s`.
pub open spec fn plain_end(s: Seq<u8>, i: int) -> int
    decreases s.len() - i,
{
    if 0 <= i < s.len() && s[i] != QUOTE && s[i] != BACKSLASH {
        plain_end(s, i + 1)
    } else {
        i
    }
}

/// The text of a string and the input after its closing quote, where `s` is the input
/// after the opening quote. The bytes up to the next quote or backslash are read as
/// UTF-8; behind a backslash stands an escape.
pub open spec fn scan_string(s: Seq<u8>) -> Result<(Seq<char>, Seq<u8>), Fault>
    decreases s.len(),
{
    let n = plain_end(s, 0);
    let run = s.subrange(0, n);
    if n < 0 || n >= s.len() {
        Err(Fault::Eof)
    } else if !valid_utf8(run) {
        Err(Fault::Utf8(run))
    } else if s[n] == QUOTE {
        Ok((decode_utf8(run), s.skip(n + 1)))
    } else {
        match scan_escape(s.skip(n + 1)) {
            Err(f) => Err(f),
            Ok((c, k)) => match scan_string(s.skip(n + 1 + k)) {
                Err(f) => Err(f),
                Ok((text, rest)) => Ok((decode_utf8(run) + seq![c] + text, rest)),
            },
        }
    }
}

/// The first position from `i` on that holds whitespace or a delimiter, or the length
/// of `s`.
pub open spec fn term_end(s: Seq<u8>, i: int) -> int
    decreases s.len() - i,
{
    if 0 <= i < s.len() && !is_whitespace(s[i]) && !is_delimiter(s[i]) {
        term_end(s, i + 1)
    } else {
        i
    }
}

/// The letters `true`.
pub open spec fn word_true() -> Seq<u8> {
    seq![0x74u8, 0x72u8, 0x75u8, 0x65u8]
}

/// The letters `false`.
pub open spec fn word_false() -> Seq<u8> {
    seq![0x66u8, 0x61u8, 0x6cu8, 0x73u8, 0x65u8]
}

/// The letters `null`.
pub open spec fn word_null() -> Seq<u8> {
    seq![0x6eu8, 0x75u8, 0x6cu8, 0x6cu8]
}

/// The token that the bare lexeme `t` is.
pub open spec fn classify(t: Seq<u8>) -> Result<Tok, Fault> {
    if t == word_true() {
        Ok(Tok::Boolean(true))
    } else if t == word_false() {
        Ok(Tok::Boolean(false))
    } else if t == word_null() {
        Ok(Tok::Null)
    } else if is_float_literal(t) {
        Ok(Tok::Number(t))
    } else if valid_utf8(t) {
        Err(Fault::Number)
    } else {
        Err(Fault::Utf8(t))
    }
}

/// `s` without the whitespace that it starts with.
pub open spec fn trim(s: Seq<u8>) -> Seq<u8>
    decreases s.len(),
{
    if s.len() > 0 && is_whitespace(s[0]) {
        trim(s.skip(1))
    } else {
        s
    }
}

/// The token that `t` starts with and the input after it, where `t` does not start
/// with whitespace.
pub open spec fn token_at(t: Seq<u8>) -> Result<(Tok, Seq<u8>), Fault> {
    if t.len() == 0 {
        Err(Fault::Eof)
    } else if t[0] == QUOTE {
        match scan_string(t.skip(1)) {
            Err(f) => Err(f),
            Ok((text, rest)) => Ok((Tok::String(text), rest)),
        }
    } else if t[0] == LBRACKET {
        Ok((Tok::LAngle, t.skip(1)))
    } else if t[0] == RBRACKET {
        Ok((Tok::RAngle, t.skip(1)))
    } else if t[0] == LBRACE {
        Ok((Tok::LBrace, t.skip(1)))
    } else if t[0] == RBRACE {
        Ok((Tok::RBrace, t.skip(1)))
    } else if t[0] == COMMA {
        Ok((Tok::Comma, t.skip(1)))
    } else if t[0] == COLON {
        Ok((Tok::Colon, t.skip(1)))
    } else {
        let n = term_end(t, 1);
        match classify(t.subrange(0, n)) {
            Err(f) => Err(f),
            Ok(tok) => Ok((tok, t.skip(n))),
        }
    }
}

/// The next token of `s` and the input after it.
#[verifier::opaque]
pub open spec fn lex(s: Seq<u8>) -> Result<(Tok, Seq<u8>), Fault> {
    token_at(trim(s))
}

/// The tokens of `s`, up to the end of the input or to the first lexeme that is no
/// token.
#[verifier::opaque]
pub open spec fn tokens(s: Seq<u8>) -> Seq<Tok>
    decreases s.len(),
{
    match lex(s) {
        Err(_) => Seq::empty(),
        Ok((t, rest)) => {
            proof {
                lemma_lex_consumes(s);
            }
            seq![t] + tokens(rest)
        },
    }
}

/// The fault that ends the tokens of `s`: the end of the input, or what is wrong with
/// the first lexeme that is no token.
#[verifier::opaque]
pub open spec fn ending(s: Seq<u8>) -> Fault
    decreases s.len(),
{
    match lex(s) {
        Err(f) => f,
        Ok((_, rest)) => {
            proof {
                lemma_lex_consumes(s);
            }
            ending(rest)
        },
    }
}

/// `r` is what is left of `s` after some bytes, one at least, were taken from its front.
pub open spec fn follows(r: Seq<u8>, s: Seq<u8>) -> bool {
    r.len() < s.len() && r == s.skip(s.len() - r.len())
}

/// What `term_end` returns, stated without recursion.
pub proof fn lemma_term_end(s: Seq<u8>, i: int)
    requires
        0 <= i <= s.len(),
    ensures
        i <= term_end(s, i) <= s.len(),
        forall|j: int| i <= j < term_end(s, i) ==> !is_whitespace(s[j]) && !is_delimiter(s[j]),
        term_end(s, i) < s.len() ==> is_whitespace(s[term_end(s, i)]) || is_delimiter(
            s[term_end(s, i)],
        ),
    decreases s.len() - i,
{
    if i < s.len() && !is_whitespace(s[i]) && !is_delimiter(s[i]) {
        lemma_term_end(s, i + 1);
    }
}

/// What `trim` returns: the input behind the whitespace that it starts with.
pub proof fn lemma_trim(s: Seq<u8>)
    ensures
        trim(s).len() <= s.len(),
        trim(s) == s.skip(s.len() - trim(s).len()),
        forall|j: int| 0 <= j < s.len() - trim(s).len() ==> is_whitespace(s[j]),
        trim(s).len() > 0 ==> !is_whitespace(trim(s)[0]),
    decreases s.len(),
{
    if s.len() > 0 && is_whitespace(s[0]) {
        lemma_trim(s.skip(1));
        let k = s.skip(1).len() - trim(s).len();
        assert(s.skip(1).skip(k) =~= s.skip(k + 1));
        assert forall|j: int| 0 <= j < s.len() - trim(s).len() implies is_whitespace(s[j]) by {
            if j > 0 {
                assert(s.skip(1)[j - 1] == s[j]);
            }
        }
    } else {
        assert(s.skip(0) =~= s);
    }
}

/// What `plain_end` returns, stated without recursion.
pub proof fn lemma_plain_end(s: Seq<u8>, i: int)
    requires
        0 <= i <= s.len(),
    ensures
        i <= plain_end(s, i) <= s.len(),
        forall|j: int| i <= j < plain_end(s, i) ==> s[j] != QUOTE && s[j] != BACKSLASH,
        plain_end(s, i) < s.len() ==> s[plain_end(s, i)] == QUOTE || s[plain_end(s, i)]
            == BACKSLASH,
    decreases s.len() - i,
{
    if i < s.len() && s[i] != QUOTE && s[i] != BACKSLASH {
        lemma_plain_end(s, i + 1);
    }
}

/// Where the run of plain bytes of a string ends, once `held` of it was collected and
/// `rem` is still to come.
pub proof fn lemma_plain_run(held: Seq<u8>, rem: Seq<u8>)
    requires
        forall|i: int| 0 <= i < held.len() ==> held[i] != QUOTE && held[i] != BACKSLASH,
    ensures
        rem.len() == 0 ==> plain_end(held + rem, 0) == (held + rem).len(),
        rem.len() > 0 && (rem[0] == QUOTE || rem[0] == BACKSLASH) ==> {
            &&& plain_end(held + rem, 0) == held.len()
            &&& (held + rem).subrange(0, held.len() as int) == held
            &&& (held + rem)[held.len() as int] == rem[0]
            &&& (held + rem).skip(held.len() as int + 1) == rem.skip(1)
        },
{
    let whole = held + rem;
    lemma_plain_end(whole, 0);
    let n = plain_end(whole, 0);
    if n < held.len() {
        assert(whole[n] == held[n]);
    }
    if rem.len() > 0 && (rem[0] == QUOTE || rem[0] == BACKSLASH) {
        assert(whole[held.len() as int] == rem[0]);
        assert(whole.subrange(0, held.len() as int) =~= held);
        assert(whole.skip(held.len() as int + 1) =~= rem.skip(1));
    }
}

/// A string takes one byte at least, its closing quote.
pub proof fn lemma_scan_string_consumes(s: Seq<u8>)
    ensures
        scan_string(s) matches Ok((_, rest)) ==> follows(rest, s),
    decreases s.len(),
{
    lemma_plain_end(s, 0);
    let n = plain_end(s, 0);
    if n < s.len() && s[n] == BACKSLASH {
        if let Ok((c, k)) = scan_escape(s.skip(n + 1)) {
            let t = s.skip(n + 1 + k);
            lemma_scan_string_consumes(t);
            if let Ok((_, rest)) = scan_string(t) {
                assert(t.skip(t.len() - rest.len()) =~= s.skip(s.len() - rest.len()));
            }
        }
    }
}

/// A token takes one byte at least.
pub proof fn lemma_token_at_consumes(t: Seq<u8>)
    ensures
        token_at(t) matches Ok((_, rest)) ==> follows(rest, t),
{
    if t.len() > 0 {
        if t[0] == QUOTE {
            let u = t.skip(1);
            lemma_scan_string_consumes(u);
            if let Ok((_, rest)) = scan_string(u) {
                assert(u.skip(u.len() - rest.len()) =~= t.skip(t.len() - rest.len()));
            }
        } else {
            lemma_term_end(t, 1);
        }
    }
}

/// A token takes one byte at least.
pub proof fn lemma_lex_consumes(s: Seq<u8>)
    ensures
        lex(s) matches Ok((_, rest)) ==> follows(rest, s),
{
    reveal(lex);
    lemma_trim(s);
    let t = trim(s);
    lemma_token_at_consumes(t);
    if let Ok((_, rest)) = token_at(t) {
        assert(t.skip(t.len() - rest.len()) =~= s.skip(s.len() - rest.len()));
    }
}

/// How `tokens` and `ending` go on from the next token.
pub proof fn lemma_tokens_step(s: Seq<u8>)
    ensures
        match lex(s) {
            Ok((t, rest)) => tokens(s) == seq![t] + tokens(rest) && ending(s) == ending(rest)
                && tokens(s).len() > 0 && tokens(s)[0] == t && tokens(s).skip(1) == tokens(rest),
            Err(f) => tokens(s) == Seq::<Tok>::empty() && ending(s) == f,
        },
{
    reveal_with_fuel(tokens, 2);
    reveal_with_fuel(ending, 2);
    if let Ok((t, rest)) = lex(s) {
        assert(tokens(s).skip(1) =~= tokens(rest));
    }
}

/// What is left of `s` once `n` tokens were read from it. Where `s` holds fewer
/// tokens, reading stops in front of the lexeme that is no token.
pub open spec fn after_tokens(s: Seq<u8>, n: int) -> Seq<u8>
    decreases n,
{
    if n <= 0 {
        s
    } else {
        match lex(s) {
            Err(_) => s,
            Ok((_, rest)) => after_tokens(rest, n - 1),
        }
    }
}

/// What is left once one token was read is what `lex` leaves.
pub proof fn lemma_after_one_token(s: Seq<u8>)
    ensures
        after_tokens(s, 0) == s,
        lex(s) matches Ok((_, rest)) ==> after_tokens(s, 1) == rest,
{
    reveal_with_fuel(after_tokens, 2);
}

/// Reading `a` tokens and then `b` tokens is reading `a + b` tokens.
pub proof fn lemma_after_tokens_add(s: Seq<u8>, a: int, b: int)
    requires
        0 <= a,
        0 <= b,
    ensures
        after_tokens(s, a + b) == after_tokens(after_tokens(s, a), b),
    decreases a,
{
    if a > 0 {
        match lex(s) {
            Err(_) => {
                if b > 0 {
                    assert(after_tokens(s, b) == s);
                }
            },
            Ok((_, rest)) => {
                lemma_after_tokens_add(rest, a - 1, b);
            },
        }
    }
}

/// The tokens of what is left once `n` tokens were read are the tokens behind the
/// first `n`.
pub proof fn lemma_tokens_after(s: Seq<u8>, n: int)
    requires
        0 <= n <= tokens(s).len(),
    ensures
        tokens(after_tokens(s, n)) == tokens(s).skip(n),
        ending(after_tokens(s, n)) == ending(s),
    decreases n,
{
    lemma_tokens_step(s);
    if n > 0 {
        let rest = lex(s)->Ok_0.1;
        lemma_tokens_after(rest, n - 1);
        assert(tokens(s).skip(1).skip(n - 1) =~= tokens(s).skip(n));
    } else {
        assert(tokens(s).skip(0) =~= tokens(s));
    }
}

} // verus!
